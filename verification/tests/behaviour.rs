use globconv::cli::{batch_failed, batch_step, same_text, Batch, BatchAction};
use globconv::to_regex::regex_escape;
use globconv::{convert_one, glob_match, glob_to_regex, regex_to_glob, usage};

// Examples from the project's documentation.

#[test]
fn readme_to_regex_examples() {
    assert_eq!(glob_to_regex("*.txt"), "^[^/]*\\.txt$");
    assert_eq!(glob_to_regex("report-[0-9][0-9].csv"), "^report-[0-9][0-9]\\.csv$");
    assert_eq!(glob_to_regex("backup-[!0-9]*.tar.gz"), "^backup-[^0-9][^/]*\\.tar\\.gz$");
    assert_eq!(glob_to_regex("logs/**/*.log"), "^logs/.*/[^/]*\\.log$");
}

#[test]
fn readme_brace_alternatives_to_regex() {
    assert_eq!(
        glob_to_regex("file.{txt,log,bak}"),
        "^(?:file\\.txt|file\\.log|file\\.bak)$"
    );
}

#[test]
fn readme_to_glob_examples() {
    // `.*` folds back into `**`, as the documentation of the supported syntax says
    assert_eq!(regex_to_glob("^.*\\.rs$").unwrap(), "**.rs");
    assert_eq!(regex_to_glob("^[a-z]+\\.log$"), Err("no glob equivalent for '+'".to_string()));
}

#[test]
fn readme_test_examples() {
    assert!(glob_match("*.txt", "report.txt"));
    assert!(glob_match("logs/**/*.log", "logs/2024/01/a.log"));
    assert!(!glob_match("*.log", "logs/a.log"));
    assert!(glob_match("archive.{tar.gz,zip}", "archive.zip"));
    assert!(glob_match("archive.{tar.gz,zip}", "archive.tar.gz"));
    assert!(!glob_match("archive.{tar.gz,zip}", "archive.tar"));
}

// Brace alternatives.

#[test]
fn nested_braces_expand() {
    assert!(glob_match("{a,{b,c}}", "a"));
    assert!(glob_match("{a,{b,c}}", "b"));
    assert!(glob_match("{a,{b,c}}", "c"));
    assert!(!glob_match("{a,{b,c}}", "{b,c}"));
    assert_eq!(glob_to_regex("{a,{b,c}}"), "^(?:a|b|c)$");
}

#[test]
fn brace_without_comma_is_literal() {
    assert!(glob_match("{1}", "{1}"));
    assert!(!glob_match("{1}", "1"));
    assert_eq!(glob_to_regex("{1}"), "^\\{1\\}$");
}

#[test]
fn escaped_braces_are_literal() {
    assert!(glob_match("\\{a,b\\}", "{a,b}"));
    assert!(!glob_match("\\{a,b\\}", "a"));
    assert_eq!(glob_to_regex("\\{a,b\\}"), "^\\{a,b\\}$");
}

#[test]
fn unclosed_brace_is_literal() {
    assert!(glob_match("{a,b", "{a,b"));
    assert_eq!(glob_to_regex("{a,b"), "^\\{a,b$");
}

#[test]
fn brace_alternatives_multiply() {
    assert_eq!(glob_to_regex("{a,b}{c,d}"), "^(?:ac|ad|bc|bd)$");
    assert!(glob_match("{a,b}{c,d}", "bd"));
    assert!(!glob_match("{a,b}{c,d}", "ab"));
}

// Stars.

#[test]
fn star_stops_at_slash() {
    assert!(glob_match("a*b", "axxb"));
    assert!(glob_match("a*b", "ab"));
    assert!(!glob_match("a*b", "a/b"));
    assert!(glob_match("*", ""));
    assert!(!glob_match("*", "a/b"));
}

#[test]
fn globstar_crosses_slashes() {
    assert!(glob_match("a**b", "a/x/b"));
    assert!(glob_match("**", "a/b/c"));
    assert!(glob_match("**", ""));
}

#[test]
fn globstar_slash_matches_no_directory() {
    assert!(glob_match("a/**/b", "a/b"));
    assert!(glob_match("a/**/b", "a/x/b"));
    assert!(glob_match("a/**/b", "a/x/y/b"));
    assert!(!glob_match("a/**/b", "a/xb"));
    assert!(glob_match("**/*.log", "a.log"));
    assert!(glob_match("**/*.log", "x/y/a.log"));
}

#[test]
fn backtracking_across_stars() {
    assert!(glob_match("**a*b", "a/ab"));
    assert!(glob_match("*a*a*a", "aaaa"));
    assert!(!glob_match("*a*a*a", "aab"));
}

// Classes and escapes.

#[test]
fn class_ranges_and_literals() {
    assert!(glob_match("[a-cx]", "b"));
    assert!(glob_match("[a-cx]", "x"));
    assert!(!glob_match("[a-cx]", "d"));
    assert!(glob_match("[a-]", "-"));
    assert!(glob_match("[]a]", "]"));
    assert!(glob_match("[^a]", "b"));
    assert!(!glob_match("[^a]", "a"));
}

#[test]
fn unterminated_class_is_literal() {
    assert_eq!(glob_to_regex("[abc"), "^\\[abc$");
    assert!(glob_match("[abc", "[abc"));
    assert!(!glob_match("[abc", "a"));
}

#[test]
fn class_backslash_is_doubled() {
    assert_eq!(glob_to_regex("[\\]"), "^[\\\\]$");
    assert!(glob_match("[\\]", "\\"));
}

#[test]
fn trailing_backslash_is_literal() {
    assert_eq!(glob_to_regex("a\\"), "^a\\\\$");
    assert!(glob_match("a\\", "a\\"));
}

#[test]
fn question_mark_takes_any_one_character() {
    assert!(glob_match("?", "/"));
    assert!(!glob_match("?", ""));
    assert!(!glob_match("?", "ab"));
}

#[test]
fn regex_escape_specials() {
    assert_eq!(regex_escape('.'), "\\.");
    assert_eq!(regex_escape('|'), "\\|");
    assert_eq!(regex_escape('a'), "a");
    assert_eq!(regex_escape('/'), "/");
}

// regex_to_glob: each error, and what it accepts.

#[test]
fn to_glob_errors() {
    assert_eq!(regex_to_glob("^a\\"), Err("trailing backslash".to_string()));
    assert_eq!(regex_to_glob("^[abc$"), Err("unterminated character class".to_string()));
    assert_eq!(
        regex_to_glob("^[abc]*$"),
        Err("no glob equivalent for a quantified character class".to_string())
    );
    assert_eq!(regex_to_glob("^(a|b)$"), Err("no glob equivalent for '('".to_string()));
    assert_eq!(regex_to_glob("^a|b$"), Err("no glob equivalent for '|'".to_string()));
    assert_eq!(regex_to_glob("a^b"), Err("no glob equivalent for '^'".to_string()));
}

#[test]
fn to_glob_accepts() {
    assert_eq!(regex_to_glob("^a.c$").unwrap(), "a?c");
    assert_eq!(regex_to_glob("^[^/]*$").unwrap(), "*");
    assert_eq!(regex_to_glob("^[^abc]$").unwrap(), "[!abc]");
    assert_eq!(regex_to_glob("^\\*\\?\\.$").unwrap(), "\\*\\?.");
    assert_eq!(regex_to_glob("^\\{a,b\\}$").unwrap(), "\\{a,b}");
    assert!(glob_match(&regex_to_glob("^\\{a,b\\}$").unwrap(), "{a,b}"));
    assert_eq!(regex_to_glob("").unwrap(), "");
    assert_eq!(regex_to_glob("plain").unwrap(), "plain");
}

// Laws, on concrete values.

#[test]
fn round_trip_gives_an_equivalent_glob() {
    let g = "x?[!a-c]\\*y**z";
    let back = regex_to_glob(&glob_to_regex(g)).unwrap();
    assert_eq!(back, "x?[!a-c]\\*y**z");
    let g2 = "\\a***[^b]";
    let back2 = regex_to_glob(&glob_to_regex(g2)).unwrap();
    assert_eq!(back2, "a**[!b]");
    for s in ["ab", "a/b", "axyz/b", "a**b", "ac"] {
        assert_eq!(glob_match(g2, s), glob_match(&back2, s));
    }
}

#[test]
fn round_trip_keeps_escaped_braces_literal() {
    let g = "\\{x,y\\}[ab]";
    let back = regex_to_glob(&glob_to_regex(g)).unwrap();
    assert_eq!(back, "\\{x,y}[ab]");
    assert!(glob_match(&back, "{x,y}a"));
    assert!(!glob_match(&back, "xa"));
    assert_eq!(glob_match(g, "{x,y}b"), glob_match(&back, "{x,y}b"));
}

#[test]
fn plain_glob_matches_only_itself() {
    assert!(glob_match("report.txt", "report.txt"));
    assert!(!glob_match("report.txt", "report.txtx"));
    assert!(!glob_match("report.txt", "Report.txt"));
    assert!(glob_match("", ""));
    assert!(!glob_match("", "a"));
}

#[test]
fn regex_is_anchored() {
    assert_eq!(glob_to_regex(""), "^$");
    assert_eq!(glob_to_regex("{a,b}"), "^(?:a|b)$");
}

// The command-line surface.

#[test]
fn convert_one_modes() {
    assert_eq!(convert_one("to-regex", "*.txt"), Ok("^[^/]*\\.txt$".to_string()));
    assert_eq!(convert_one("to-glob", "^.*$"), Ok("**".to_string()));
    assert_eq!(convert_one("to-glob", "^a+$"), Err("no glob equivalent for '+'".to_string()));
    assert_eq!(convert_one("frob", "x"), Err("unknown mode 'frob'".to_string()));
}

#[test]
fn usage_names_the_program() {
    let u = usage("gc");
    assert!(u.starts_with("usage:\n  gc to-regex <glob-pattern>\n"));
    assert!(u.contains("  gc test <glob-pattern> <text>\n"));
    assert!(u.ends_with("  gc to-glob '^.*\\.txt$'"));
}

#[test]
fn same_text_compares_characters() {
    assert!(same_text("to-glob", "to-glob"));
    assert!(!same_text("to-glob", "to-glo"));
    assert!(!same_text("to-glob", "to-regx"));
}

#[test]
fn batch_step_decides_each_line() {
    assert!(matches!(batch_step("to-regex", ""), BatchAction::Skip));
    match batch_step("to-regex", "*.txt") {
        BatchAction::Print(o) => assert_eq!(o, "^[^/]*\\.txt$"),
        _ => panic!("expected a conversion"),
    }
    match batch_step("to-glob", "^a+$") {
        BatchAction::Report(o) => assert_eq!(o, "error: ^a+$: no glob equivalent for '+'"),
        _ => panic!("expected an error"),
    }
}

#[test]
fn batch_fails_once_a_line_fails() {
    let bad = batch_step("to-glob", "^(a)$");
    let good = batch_step("to-glob", "^a$");
    let skip = batch_step("to-glob", "");
    assert!(!batch_failed(false, &good));
    assert!(!batch_failed(false, &skip));
    assert!(batch_failed(false, &bad));
    assert!(batch_failed(true, &good));
}

#[test]
fn to_glob_keeps_class_meaning() {
    // a `]` first in a class is an item
    assert_eq!(regex_to_glob(&glob_to_regex("[]*]")).unwrap(), "[]*]");
    assert_eq!(regex_to_glob("^[^]a]$").unwrap(), "[!]a]");
    // a leading `!` would read as negation in a glob: an empty range goes first
    let g = regex_to_glob("^[!a]$").unwrap();
    assert_eq!(g, "[]-!!a]");
    assert!(glob_match(&g, "!"));
    assert!(glob_match(&g, "a"));
    assert!(!glob_match(&g, "b"));
    assert!(!glob_match(&g, "]"));
    assert!(!glob_match(&g, "-"));
    assert_eq!(regex_to_glob("^[!]$").unwrap(), "[]-!!]");
    assert!(glob_match("[]-!!]", "!"));
    assert_eq!(regex_to_glob("^[a!]$").unwrap(), "[a!]");
    // a `{` in a class is kept where no brace alternatives could form
    assert_eq!(regex_to_glob("^[{a]$").unwrap(), "[{a]");
    assert!(glob_match("[{a]", "{"));
    // and refused where the glob would read alternatives
    assert_eq!(
        regex_to_glob("^[{],[}]$"),
        Err("no glob equivalent for '{' in a character class that would open alternatives"
            .to_string())
    );
}

#[test]
fn to_glob_escapes_braces_outside_classes() {
    assert_eq!(regex_to_glob("^\\{a,b\\}$").unwrap(), "\\{a,b}");
    assert!(glob_match("\\{a,b}", "{a,b}"));
    assert!(!glob_match("\\{a,b}", "a"));
}

#[test]
fn backslash_classes_match_alike() {
    // a backslash in a class is an item; the regex doubles it
    assert_eq!(glob_to_regex("[\\]"), "^[\\\\]$");
    assert_eq!(glob_to_regex("[a\\]"), "^[a\\\\]$");
    assert!(glob_match("[a\\]", "\\"));
    assert!(glob_match("[a\\]", "a"));
    assert!(!glob_match("[a\\]", "b"));
}

#[test]
fn to_glob_merges_star_runs() {
    assert_eq!(regex_to_glob("^[^/]*[^/]*$").unwrap(), "*");
    assert!(!glob_match(&regex_to_glob("^[^/]*[^/]*$").unwrap(), "a/b"));
    assert_eq!(regex_to_glob("^[^/]*.*$").unwrap(), "**");
    assert_eq!(regex_to_glob("^.*.*a$").unwrap(), "**a");
}

#[test]
fn round_trip_class_opening_with_bracket() {
    let g = "a[]x-]b";
    assert_eq!(regex_to_glob(&glob_to_regex(g)).unwrap(), g);
    assert!(glob_match(g, "a]b"));
    assert!(glob_match(g, "a-b"));
    assert!(!glob_match(g, "ayb"));
}

#[test]
fn to_glob_result_matches_as_the_regex() {
    // `^[^/]*\.rs$`: any run without `/`, then `.rs`
    let g = regex_to_glob("^[^/]*\\.rs$").unwrap();
    assert_eq!(g, "*.rs");
    assert!(glob_match(&g, "main.rs"));
    assert!(glob_match(&g, ".rs"));
    assert!(!glob_match(&g, "src/main.rs"));
    // `^a.[^0-9]$`
    let g2 = regex_to_glob("^a.[^0-9]$").unwrap();
    assert_eq!(g2, "a?[!0-9]");
    assert!(glob_match(&g2, "a/x"));
    assert!(!glob_match(&g2, "ax5"));
}

#[test]
fn batch_run_goes_on_after_a_bad_line() {
    let mut batch = Batch::new("to-glob");
    assert!(!batch.failed());
    match batch.feed("^a$") {
        BatchAction::Print(o) => assert_eq!(o, "a"),
        _ => panic!("expected a conversion"),
    }
    assert!(matches!(batch.feed(""), BatchAction::Skip));
    assert!(!batch.failed());
    match batch.feed("^(a)$") {
        BatchAction::Report(o) => assert_eq!(o, "error: ^(a)$: no glob equivalent for '('"),
        _ => panic!("expected an error"),
    }
    assert!(batch.failed());
    match batch.feed("^[^/]*\\.log$") {
        BatchAction::Print(o) => assert_eq!(o, "*.log"),
        _ => panic!("expected a conversion"),
    }
    assert!(batch.failed());
}

#[test]
fn batch_run_to_regex_never_fails() {
    let mut batch = Batch::new("to-regex");
    for line in ["*.txt", "", "logs/**/*.log"] {
        batch.feed(line);
    }
    assert!(!batch.failed());
}

#[test]
fn canonical_globs_round_trip() {
    for g in [
        "*.txt",
        "logs/**/*.log",
        "a?[!0-9]",
        "[]x-]b",
        "[!]a]",
        "\\*\\?\\[\\\\",
        "}",
        "report-[0-9][0-9].csv",
    ] {
        assert_eq!(regex_to_glob(&glob_to_regex(g)).unwrap(), g);
    }
}
