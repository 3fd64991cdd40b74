# globconv

Converts between shell glob patterns and the anchored regular expressions
that describe the same matches, and matches a glob directly against a text.

- `src/` is the verified library: every function carries a contract that
  Verus proves, but one. `text::push_char`, which appends a character to a
  string through `String::push`, is trusted: Verus takes its contract
  (the string gains that character at its end) without proof.
  - `glob.rs`: the glob tokens, the tokenizer and what it means for tokens
    to match a text;
  - `braces.rs`: brace alternatives (`{a,b}`), expanded as a shell does;
  - `matcher.rs`: `glob_match`;
  - `to_regex.rs`: `glob_to_regex`;
  - `to_glob.rs`: `regex_to_glob`;
  - `cli.rs`: the usage text, the conversion a mode names, and batch
    mode: what it does with each line, and over a whole run what it
    prints, what it reports and whether it fails;
  - `regex.rs`: what a regex matches, for the regexes the library writes
    and reads;
  - `laws.rs`: what holds of the conversions together (the glob → regex →
    glob round trip, that a glob and its regex match the same texts in
    both directions, what `*`, `**` and `**/` take, and more);
  - `text.rs`: characters in and out of strings.
- `app/main.rs` is the command-line program: arguments, standard input and
  output; batch mode asks the library what to do with each line.
- `tests/` runs the library on concrete inputs.

## Regex to glob

`regex_to_glob` writes a run of `[^/]*` and `.*` elements as one star: `*`
where the whole run is `[^/]*`, `**` where any element of it is `.*`
(`^.*.*$` gives `**`). An escaped character that a glob reads as syntax is
written escaped: `^\{$` gives `\{`. A class that is not negated but starts
with `!` starts with the empty range `]-!` in the glob (`^[!a]$` gives
`[]-!!a]`); a `{` in a class is refused only where it would open brace
alternatives in the glob.
