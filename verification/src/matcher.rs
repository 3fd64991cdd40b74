//! Matching a tokenized glob against a text.
use vstd::prelude::*;

use crate::braces::{char_views, expand, expand_braces};
use crate::glob::{
    GlobToken, Token, char_ok, class_has, is_star_token, parse_glob, run_match, slash_follows,
    tok_match, token_views, tokenize,
};
use crate::text::chars_of;

verus! {

/// Whether `c` is listed in the class body `items`.
pub fn class_matches(items: &Vec<char>, c: char) -> (r: bool)
    ensures
        r == class_has(items@, c),
{
    let n = items.len();
    let mut i: usize = 0;
    assert(items@.skip(0) =~= items@);
    while i < n
        invariant
            i <= n,
            n == items.len(),
            class_has(items@, c) == class_has(items@.skip(i as int), c),
        decreases n - i,
    {
        let ghost q = items@.skip(i as int);
        if n - i > 2 && items[i + 1] == '-' {
            if c >= items[i] && c <= items[i + 2] {
                return true;
            }
            assert(q.skip(3) =~= items@.skip(i + 3));
            i += 3;
        } else {
            if items[i] == c {
                return true;
            }
            assert(q.skip(1) =~= items@.skip(i + 1));
            i += 1;
        }
    }
    false
}

/// Whether a single-character token accepts `c`.
pub fn char_matches(token: &GlobToken, c: char) -> (r: bool)
    requires
        !is_star_token(token@),
    ensures
        r == char_ok(token@, c),
{
    match token {
        GlobToken::AnyChar => true,
        GlobToken::Literal(l) => *l == c,
        GlobToken::Class { negate, items } => class_matches(items, c) != *negate,
        GlobToken::Star | GlobToken::GlobStar => false,
    }
}

/// Whether a star token may take `c` into its run: `*` stops at `/`, `**` does not.
pub fn star_accepts(token: &GlobToken, c: char) -> (r: bool)
    requires
        is_star_token(token@),
    ensures
        r == (token@ is GlobStar || c != '/'),
{
    match token {
        GlobToken::Star => c != '/',
        _ => true,
    }
}

/// Whether `token` is `*` or `**`.
pub fn is_star(token: &GlobToken) -> (r: bool)
    ensures
        r == is_star_token(token@),
{
    match token {
        GlobToken::Star | GlobToken::GlobStar => true,
        _ => false,
    }
}

/// A vector of `n` times `false`.
fn all_false(n: usize) -> (v: Vec<bool>)
    ensures
        v@.len() == n,
        forall|k: int| 0 <= k < n ==> !v@[k],
{
    let mut v: Vec<bool> = Vec::new();
    while v.len() < n
        invariant
            v@.len() <= n,
            forall|k: int| 0 <= k < v@.len() ==> !v@[k],
        decreases n - v@.len(),
    {
        v.push(false);
    }
    v
}

/// Whether `**` at `tokens[ti]` is followed by a `/` token.
fn slash_after(tokens: &Vec<GlobToken>, ti: usize) -> (r: bool)
    requires
        ti < tokens.len(),
    ensures
        r == slash_follows(token_views(tokens@).skip(ti as int)),
{
    let ghost rest = token_views(tokens@).skip(ti as int);
    if ti + 1 < tokens.len() {
        assert(rest[1] == tokens@[ti + 1]@);
        match &tokens[ti + 1] {
            GlobToken::Literal(c) => *c == '/',
            _ => false,
        }
    } else {
        false
    }
}

/// Whether the tokens match the whole text.
///
/// Goes through the tokens from the last to the first, keeping for each
/// position `k` of the text whether the remaining tokens match `text[k..]`
/// (`row[k]` for `k` below the text's length, `at_end` for the empty rest),
/// and the same for the tokens one further on (`prev`, `prev_end`).
pub fn match_tokens(tokens: &Vec<GlobToken>, text: &Vec<char>) -> (r: bool)
    ensures
        r == tok_match(token_views(tokens@), text@),
{
    let ghost tv = token_views(tokens@);
    let t_len = tokens.len();
    let s_len = text.len();
    let mut row = all_false(s_len);
    let mut at_end = true;
    let mut prev = all_false(s_len);
    let mut prev_end = false;
    assert(tv.skip(t_len as int) =~= Seq::<Token>::empty());
    assert(text@.skip(s_len as int) =~= Seq::<char>::empty());
    let mut ti = t_len;
    while ti > 0
        invariant
            ti <= t_len,
            t_len == tokens.len(),
            s_len == text.len(),
            tv == token_views(tokens@),
            row@.len() == s_len,
            prev@.len() == s_len,
            forall|k: int| 0 <= k < s_len ==> row@[k] == tok_match(tv.skip(ti as int), text@.skip(k)),
            at_end == tok_match(tv.skip(ti as int), text@.skip(s_len as int)),
            ti < t_len ==> forall|k: int|
                0 <= k < s_len ==> prev@[k] == tok_match(tv.skip(ti + 1), text@.skip(k)),
            ti < t_len ==> prev_end == tok_match(tv.skip(ti + 1), text@.skip(s_len as int)),
            text@.skip(s_len as int) == Seq::<char>::empty(),
        decreases ti,
    {
        ti -= 1;
        let token = &tokens[ti];
        let ghost rest = tv.skip(ti as int);
        assert(rest.drop_first() =~= tv.skip(ti + 1));
        proof {
            if ti + 2 <= t_len {
                assert(rest.skip(2) =~= tv.skip(ti + 2));
            }
        }
        assert(rest[0] == token@);
        let star = is_star(token);
        let jump = match token {
            GlobToken::GlobStar => slash_after(tokens, ti),
            _ => false,
        };
        assert(jump ==> ti + 2 <= t_len && rest.skip(2) == tv.skip(ti + 2));
        let new_end = star && (at_end || (jump && prev_end));
        let ghost empty = text@.skip(s_len as int);
        assert(run_match(rest, empty) == at_end);
        assert(new_end == tok_match(rest, empty));
        let mut cur = all_false(s_len);
        let mut run_next = at_end;
        let mut k = s_len;
        while k > 0
            invariant
                k <= s_len,
                s_len == text.len(),
                cur@.len() == s_len,
                row@.len() == s_len,
                prev@.len() == s_len,
                rest.len() > 0,
                rest[0] == token@,
                star == is_star_token(token@),
                jump == (token@ is GlobStar && slash_follows(rest)),
                rest.drop_first() == tv.skip(ti + 1),
                jump ==> rest.skip(2) == tv.skip(ti + 2),
                forall|m: int| 0 <= m < s_len ==> row@[m] == tok_match(tv.skip(ti + 1), text@.skip(m)),
                at_end == tok_match(tv.skip(ti + 1), text@.skip(s_len as int)),
                jump ==> forall|m: int|
                    0 <= m < s_len ==> prev@[m] == tok_match(tv.skip(ti + 2), text@.skip(m)),
                jump ==> prev_end == tok_match(tv.skip(ti + 2), text@.skip(s_len as int)),
                new_end == tok_match(rest, text@.skip(s_len as int)),
                text@.skip(s_len as int) == Seq::<char>::empty(),
                star ==> run_next == run_match(rest, text@.skip(k as int)),
                forall|m: int| k <= m < s_len ==> cur@[m] == tok_match(rest, text@.skip(m)),
            decreases k,
        {
            k -= 1;
            let ghost s = text@.skip(k as int);
            assert(s.drop_first() =~= text@.skip(k + 1));
            assert(s[0] == text@[k as int]);
            let after_next = if k + 1 < s_len { row[k + 1] } else { at_end };
            let v = if star {
                let run = row[k] || (star_accepts(token, text[k]) && run_next);
                assert(run == run_match(rest, s));
                run_next = run;
                run || (jump && prev[k])
            } else {
                char_matches(token, text[k]) && after_next
            };
            assert(v == tok_match(rest, s));
            cur.set(k, v);
        }
        prev = row;
        prev_end = at_end;
        row = cur;
        at_end = new_end;
    }
    assert(tv.skip(0) =~= tv);
    assert(text@.skip(0) =~= text@);
    if s_len == 0 {
        at_end
    } else {
        row[0]
    }
}

/// Whether the text `s` matches the glob `p`: whether it matches one of
/// the patterns that `p` expands to.
pub open spec fn glob_accepts(p: Seq<char>, s: Seq<char>) -> bool {
    exists|k: int| 0 <= k < expand(p).len() && tok_match(tokenize(#[trigger] expand(p)[k]), s)
}

/// Check whether `candidate` matches the glob `pattern`, using the same
/// syntax `glob_to_regex` understands (`*`, `**`, `?`, `[...]`, `{a,b}`, `\x`).
///
/// This matches directly against the parsed glob rather than compiling to
/// a regex first, since there is no regex engine in the standard library
/// to run the compiled pattern against.
pub fn glob_match(pattern: &str, candidate: &str) -> (r: bool)
    ensures
        r == glob_accepts(pattern@, candidate@),
{
    let chars = chars_of(pattern);
    let text = chars_of(candidate);
    let alts = expand_braces(&chars);
    let ghost av = char_views(alts@);
    let mut t: usize = 0;
    while t < alts.len()
        invariant
            t <= alts.len(),
            av == char_views(alts@),
            av == expand(pattern@),
            text@ == candidate@,
            forall|k: int| 0 <= k < t ==> !tok_match(tokenize(#[trigger] av[k]), candidate@),
        decreases alts.len() - t,
    {
        let tokens = parse_glob(&alts[t]);
        assert(av[t as int] == alts@[t as int]@);
        if match_tokens(&tokens, &text) {
            return true;
        }
        t += 1;
    }
    false
}

} // verus!
