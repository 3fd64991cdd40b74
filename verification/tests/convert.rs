use globconv::{glob_match, glob_to_regex, regex_to_glob};

#[test]
fn simple_star() {
    assert_eq!(glob_to_regex("*.txt"), "^[^/]*\\.txt$");
}

#[test]
fn globstar_crosses_slash() {
    assert_eq!(glob_to_regex("**/*.log"), "^.*/[^/]*\\.log$");
}

#[test]
fn triple_star_is_globstar() {
    assert_eq!(glob_to_regex("***"), "^.*$");
}

#[test]
fn question_mark() {
    assert_eq!(glob_to_regex("a?c"), "^a.c$");
}

#[test]
fn char_class() {
    assert_eq!(glob_to_regex("[!abc]"), "^[^abc]$");
}

#[test]
fn escaped_star() {
    assert_eq!(glob_to_regex("\\*"), "^\\*$");
}

#[test]
fn roundtrip_star() {
    let re = glob_to_regex("*.rs");
    assert_eq!(regex_to_glob(&re).unwrap(), "*.rs");
}

#[test]
fn roundtrip_globstar() {
    let re = glob_to_regex("a/**/b.txt");
    assert_eq!(regex_to_glob(&re).unwrap(), "a/**/b.txt");
}

#[test]
fn roundtrip_class() {
    let re = glob_to_regex("[a-z].log");
    assert_eq!(regex_to_glob(&re).unwrap(), "[a-z].log");
}

#[test]
fn rejects_quantified_class() {
    assert!(regex_to_glob("^[abc]*$").is_err());
}

#[test]
fn rejects_quantifiers() {
    assert!(regex_to_glob("^a+$").is_err());
}

#[test]
fn rejects_alternation() {
    assert!(regex_to_glob("^(a|b)$").is_err());
}

#[test]
fn match_simple_star() {
    assert!(glob_match("*.txt", "report.txt"));
    assert!(!glob_match("*.txt", "report.csv"));
}

#[test]
fn match_star_excludes_slash() {
    assert!(!glob_match("*.log", "logs/a.log"));
}

#[test]
fn match_globstar_crosses_slash() {
    assert!(glob_match("logs/**/*.log", "logs/2024/01/a.log"));
    assert!(glob_match("logs/**/*.log", "logs/a.log"));
}

#[test]
fn match_question_mark() {
    assert!(glob_match("a?c", "abc"));
    assert!(!glob_match("a?c", "ac"));
}

#[test]
fn match_char_class() {
    assert!(glob_match("report-[0-9][0-9].csv", "report-42.csv"));
    assert!(!glob_match("report-[0-9][0-9].csv", "report-4a.csv"));
}

#[test]
fn match_negated_class() {
    assert!(glob_match("backup-[!0-9]*.tar.gz", "backup-x.tar.gz"));
    assert!(!glob_match("backup-[!0-9]*.tar.gz", "backup-9.tar.gz"));
}

#[test]
fn match_escaped_literal() {
    assert!(glob_match("\\*.txt", "*.txt"));
    assert!(!glob_match("\\*.txt", "a.txt"));
}

#[test]
fn match_requires_full_string() {
    assert!(!glob_match("*.txt", "report.txt.bak"));
    assert!(!glob_match("report", "report.txt"));
}
