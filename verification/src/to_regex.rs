//! From a glob to the anchored regex that describes the same matches.
use vstd::prelude::*;

use crate::braces::{char_views, expand, expand_braces};
use crate::glob::{GlobToken, Token, parse_glob, token_views, tokenize};
use crate::text::{chars_of, push_char};

verus! {

/// The characters that have a meaning of their own in a regex.
pub open spec fn is_regex_special(c: char) -> bool {
    c == '.' || c == '^' || c == '$' || c == '*' || c == '+' || c == '?' || c == '(' || c == ')'
        || c == '[' || c == ']' || c == '{' || c == '}' || c == '|' || c == '\\'
}

/// `c` as a regex that matches just `c`.
pub open spec fn escaped(c: char) -> Seq<char> {
    if is_regex_special(c) {
        seq!['\\', c]
    } else {
        seq![c]
    }
}

/// A class body as it stands inside a regex class: backslashes doubled.
pub open spec fn class_body_regex(items: Seq<char>) -> Seq<char> {
    items.map_values(|c: char| class_char_regex(c)).flatten()
}

/// One character of a class body as it stands inside a regex class.
pub open spec fn class_char_regex(c: char) -> Seq<char> {
    if c == '\\' { seq!['\\', '\\'] } else { seq![c] }
}

pub proof fn lemma_class_body_regex_push(items: Seq<char>, c: char)
    ensures
        class_body_regex(items.push(c)) == class_body_regex(items) + class_char_regex(c),
{
    let f = |c: char| class_char_regex(c);
    assert(items.push(c).map_values(f) =~= items.map_values(f).push(f(c)));
    items.map_values(f).lemma_flatten_push(f(c));
}

proof fn lemma_tokens_regex_push(toks: Seq<Token>, t: Token)
    ensures
        tokens_regex(toks.push(t)) == tokens_regex(toks) + token_regex(t),
{
    let f = |t: Token| token_regex(t);
    assert(toks.push(t).map_values(f) =~= toks.map_values(f).push(f(t)));
    toks.map_values(f).lemma_flatten_push(f(t));
}

/// The regex for one glob token.
pub open spec fn token_regex(t: Token) -> Seq<char> {
    match t {
        Token::Star => seq!['[', '^', '/', ']', '*'],
        Token::GlobStar => seq!['.', '*'],
        Token::AnyChar => seq!['.'],
        Token::Class { negate, items } => seq!['['] + (if negate {
            seq!['^']
        } else {
            Seq::empty()
        }) + class_body_regex(items) + seq![']'],
        Token::Literal(c) => escaped(c),
    }
}

/// The regex for a sequence of tokens: the regexes of its tokens, in order.
pub open spec fn tokens_regex(toks: Seq<Token>) -> Seq<char> {
    toks.map_values(|t: Token| token_regex(t)).flatten()
}

/// The unanchored regex for a glob without brace groups.
pub open spec fn alternative_regex(alt: Seq<char>) -> Seq<char> {
    tokens_regex(tokenize(alt))
}

/// The regexes `xs` joined by `|`.
pub open spec fn join_bars(xs: Seq<Seq<char>>) -> Seq<char>
    decreases xs.len(),
{
    if xs.len() == 0 {
        Seq::empty()
    } else if xs.len() == 1 {
        xs[0]
    } else {
        join_bars(xs.drop_last()) + seq!['|'] + xs.last()
    }
}

/// The anchored regex for the glob `p`: the regex of its only expansion, or
/// a non-capturing group of the regexes of its expansions, one per brace
/// alternative.
pub open spec fn glob_regex(p: Seq<char>) -> Seq<char> {
    let alts = expand(p);
    if alts.len() == 1 {
        seq!['^'] + alternative_regex(alts[0]) + seq!['$']
    } else {
        seq!['^', '(', '?', ':'] + alternatives_regex(alts) + seq![')', '$']
    }
}

/// The regexes of the alternatives `alts`, joined by `|`.
pub open spec fn alternatives_regex(alts: Seq<Seq<char>>) -> Seq<char> {
    join_bars(alts.map_values(|a: Seq<char>| alternative_regex(a)))
}

proof fn lemma_alternatives_regex_push(alts: Seq<Seq<char>>, a: Seq<char>)
    ensures
        alternatives_regex(alts.push(a)) == if alts.len() == 0 {
            alternative_regex(a)
        } else {
            alternatives_regex(alts) + seq!['|'] + alternative_regex(a)
        },
{
    let f = |a: Seq<char>| alternative_regex(a);
    let xs = alts.push(a).map_values(f);
    assert(xs.drop_last() =~= alts.map_values(f));
    assert(xs.last() == f(a));
    if alts.len() == 0 {
        assert(xs.len() == 1);
    }
}

/// `c` escaped for a regex, if it has a meaning of its own there.
pub fn regex_escape(c: char) -> (r: String)
    ensures
        r@ == escaped(c),
{
    let mut s = String::new();
    if c == '.' || c == '^' || c == '$' || c == '*' || c == '+' || c == '?' || c == '(' || c == ')'
        || c == '[' || c == ']' || c == '{' || c == '}' || c == '|' || c == '\\' {
        push_char(&mut s, '\\');
        push_char(&mut s, c);
    } else {
        push_char(&mut s, c);
    }
    s
}

/// Appends the regex of one token to `out`.
fn push_token_regex(out: &mut String, token: &GlobToken)
    ensures
        final(out)@ == old(out)@ + token_regex(token@),
{
    match token {
        GlobToken::Star => {
            out.append("[^/]*");
            proof {
                reveal_strlit("[^/]*");
            }
            assert(out@ =~= old(out)@ + token_regex(token@));
        },
        GlobToken::GlobStar => {
            out.append(".*");
            proof {
                reveal_strlit(".*");
            }
            assert(out@ =~= old(out)@ + token_regex(token@));
        },
        GlobToken::AnyChar => {
            push_char(out, '.');
        },
        GlobToken::Class { negate, items } => {
            push_char(out, '[');
            if *negate {
                push_char(out, '^');
            }
            let ghost head = out@;
            let mut k: usize = 0;
            assert(items@.take(0) =~= Seq::<char>::empty());
            assert(class_body_regex(Seq::<char>::empty()) =~= Seq::<char>::empty());
            while k < items.len()
                invariant
                    k <= items.len(),
                    out@ == head + class_body_regex(items@.take(k as int)),
                decreases items.len() - k,
            {
                let c = items[k];
                let ghost before = out@;
                if c == '\\' {
                    push_char(out, '\\');
                    push_char(out, '\\');
                } else {
                    push_char(out, c);
                }
                assert(out@ =~= before + class_char_regex(c));
                proof {
                    assert(items@.take(k + 1) =~= items@.take(k as int).push(c));
                    lemma_class_body_regex_push(items@.take(k as int), c);
                }
                assert(out@ =~= head + class_body_regex(items@.take(k + 1)));
                k += 1;
            }
            assert(items@.take(items.len() as int) =~= items@);
            push_char(out, ']');
            assert(out@ =~= old(out)@ + token_regex(token@));
        },
        GlobToken::Literal(c) => {
            let e = regex_escape(*c);
            out.append(e.as_str());
        },
    }
}

/// Appends the regex of a token sequence to `out`.
fn push_tokens_regex(out: &mut String, tokens: &Vec<GlobToken>)
    ensures
        final(out)@ == old(out)@ + tokens_regex(token_views(tokens@)),
{
    let ghost head = out@;
    let ghost tv = token_views(tokens@);
    let mut k: usize = 0;
    assert(tv.take(0) =~= Seq::<Token>::empty());
    assert(tokens_regex(Seq::<Token>::empty()) =~= Seq::<char>::empty());
    while k < tokens.len()
        invariant
            k <= tokens.len(),
            tv == token_views(tokens@),
            out@ == head + tokens_regex(tv.take(k as int)),
        decreases tokens.len() - k,
    {
        let ghost before = out@;
        push_token_regex(out, &tokens[k]);
        assert(tv[k as int] == tokens@[k as int]@);
        proof {
            assert(tv.take(k + 1) =~= tv.take(k as int).push(tv[k as int]));
            lemma_tokens_regex_push(tv.take(k as int), tv[k as int]);
        }
        assert(out@ =~= head + tokens_regex(tv.take(k + 1)));
        k += 1;
    }
    assert(tv.take(tokens.len() as int) =~= tv);
}

/// Converts a glob pattern into an anchored regex.
///
/// Supported syntax: `*` (any run of characters except `/`), `**` (any
/// run of characters, including `/`, for matching across path
/// segments), `?` (any single character), `[abc]` / `[!abc]` character
/// classes, `{a,b}` brace alternatives, and `\` to escape the next
/// character literally.
pub fn glob_to_regex(pattern: &str) -> (r: String)
    ensures
        r@ == glob_regex(pattern@),
{
    let chars = chars_of(pattern);
    let alts = expand_braces(&chars);
    let ghost av = char_views(alts@);
    let grouped = alts.len() != 1;
    let mut out = String::new();
    if grouped {
        out.append("^(?:");
        proof {
            reveal_strlit("^(?:");
        }
    } else {
        push_char(&mut out, '^');
    }
    let ghost head = out@;
    let mut t: usize = 0;
    assert(av.take(0) =~= Seq::<Seq<char>>::empty());
    while t < alts.len()
        invariant
            t <= alts.len(),
            av == char_views(alts@),
            av == expand(pattern@),
            out@ == head + alternatives_regex(av.take(t as int)),
        decreases alts.len() - t,
    {
        let ghost before = out@;
        if t > 0 {
            push_char(&mut out, '|');
        }
        let ghost mid = out@;
        let tokens = parse_glob(&alts[t]);
        push_tokens_regex(&mut out, &tokens);
        assert(av[t as int] == alts@[t as int]@);
        proof {
            assert(av.take(t + 1) =~= av.take(t as int).push(av[t as int]));
            lemma_alternatives_regex_push(av.take(t as int), av[t as int]);
        }
        assert(out@ =~= head + alternatives_regex(av.take(t + 1)));
        t += 1;
    }
    assert(av.take(alts.len() as int) =~= av);
    if grouped {
        out.append(")$");
        proof {
            reveal_strlit(")$");
        }
    } else {
        push_char(&mut out, '$');
        proof {
            assert(av =~= Seq::<Seq<char>>::empty().push(av[0]));
            lemma_alternatives_regex_push(Seq::empty(), av[0]);
        }
    }
    assert(out@ =~= glob_regex(pattern@));
    out
}

} // verus!
