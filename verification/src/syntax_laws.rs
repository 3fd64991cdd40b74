//! What each piece of glob and regex syntax stands for, stated over all
//! inputs: class ranges, backslash escapes in either direction, the
//! characters a regex writes as themselves, and brace pairs.
use vstd::prelude::*;

use crate::braces::{
    alternative, expand, expand_group, first_group, group_at, lemma_alternative_shorter,
    lemma_first_group, scan_group,
};
use crate::glob::{Token, char_ok, class_has, class_search_from, next_token, tok_match, tokenize};
use crate::laws::{
    is_glob_syntax, lemma_find_close_at, lemma_no_brace_expand, lemma_tokenize_plain, lemma_tokens_regex_front,
    literals_of,
};
use crate::matcher::glob_accepts;
use crate::to_glob::{regex_body_glob, regex_glob, regex_step, star_element_len, strip_anchors};
use crate::to_regex::{alternative_regex, glob_regex, token_regex, tokens_regex};

verus! {

// ---------------------------------------------------------------- ranges

/// A class body that starts with the range `x-y` holds every character
/// from `x` to `y`, both ends included.
pub proof fn law_class_range_items(x: char, y: char, rest: Seq<char>, c: char)
    requires
        x <= c && c <= y,
    ensures
        class_has(seq![x, '-', y] + rest, c),
        char_ok(Token::Class { negate: false, items: seq![x, '-', y] + rest }, c),
        !char_ok(Token::Class { negate: true, items: seq![x, '-', y] + rest }, c),
{
    let items = seq![x, '-', y] + rest;
    assert(items[0] == x && items[1] == '-' && items[2] == y);
}

/// The glob `[x-y]` matches a one-character text just when that character
/// lies between `x` and `y`, both ends included; `[!x-y]` just when it
/// does not.
pub proof fn law_class_range(x: char, y: char, c: char)
    requires
        x != '!' && x != '^' && x != '{',
        y != ']' && y != '{',
    ensures
        glob_accepts(seq!['[', x, '-', y, ']'], seq![c]) == (x <= c && c <= y),
        glob_accepts(seq!['[', '!', x, '-', y, ']'], seq![c]) == !(x <= c && c <= y),
{
    let s = seq![c];
    let items = seq![x, '-', y];
    assert(items[0] == x && items[1] == '-' && items[2] == y);
    assert(items.skip(3) =~= Seq::<char>::empty());
    assert(!class_has(items.skip(3), c));
    assert(class_has(items, c) == (x <= c && c <= y));
    let g = seq!['[', x, '-', y, ']'];
    let h = seq!['[', '!', x, '-', y, ']'];
    assert(!g.contains('{')) by {
        if g.contains('{') {
            let j = choose|j: int| 0 <= j < g.len() && g[j] == '{';
            assert(g[j] != '{');
        }
    }
    assert(!h.contains('{')) by {
        if h.contains('{') {
            let j = choose|j: int| 0 <= j < h.len() && h[j] == '{';
            assert(h[j] != '{');
        }
    }
    lemma_no_brace_expand(g);
    lemma_no_brace_expand(h);
    assert(g.subrange(1, 4) =~= items);
    assert(h.subrange(2, 5) =~= items);
    let tg = Token::Class { negate: false, items };
    let th = Token::Class { negate: true, items };
    lemma_find_close_at(g, class_search_from(g), 4);
    lemma_find_close_at(h, class_search_from(h), 5);
    assert(next_token(g) == (tg, 5int));
    assert(next_token(h) == (th, 6int));
    assert(g.skip(5) =~= Seq::<char>::empty());
    assert(h.skip(6) =~= Seq::<char>::empty());
    assert(tokenize(Seq::<char>::empty()) =~= Seq::<Token>::empty());
    assert(tokenize(g) =~= seq![tg]);
    assert(tokenize(h) =~= seq![th]);
    assert(seq![tg].drop_first() =~= Seq::<Token>::empty());
    assert(seq![th].drop_first() =~= Seq::<Token>::empty());
    assert(s.drop_first() =~= Seq::<char>::empty());
    assert(s[0] == c);
    assert(tok_match(Seq::<Token>::empty(), Seq::<char>::empty()));
    assert(char_ok(tg, c) == (x <= c && c <= y));
    assert(char_ok(th, c) == !(x <= c && c <= y));
    assert(tok_match(seq![tg], s) == char_ok(tg, c));
    assert(tok_match(seq![th], s) == char_ok(th, c));
    assert(tok_match(tokenize(g), s) == (x <= c && c <= y));
    assert(tok_match(tokenize(h), s) == !(x <= c && c <= y));
    assert(expand(g)[0] == g);
    assert(expand(h)[0] == h);
}

// ------------------------------------------------- glob -> regex escaping

/// A glob character that a regex does not read as syntax stands in the
/// regex as itself: a glob of such characters becomes `^`, the glob, `$`.
pub proof fn law_plain_regex(p: Seq<char>)
    requires
        forall|i: int|
            0 <= i < p.len() ==> {
                let c = #[trigger] p[i];
                !(c == '.' || c == '^' || c == '$' || c == '*' || c == '+' || c == '?' || c == '('
                    || c == ')' || c == '[' || c == ']' || c == '{' || c == '}' || c == '|' || c
                    == '\\')
            },
    ensures
        glob_regex(p) == seq!['^'] + p + seq!['$'],
{
    assert forall|j: int| 0 <= j < p.len() implies !is_glob_syntax(#[trigger] p[j]) by {}
    assert(!p.contains('{')) by {
        if p.contains('{') {
            let j = choose|j: int| 0 <= j < p.len() && p[j] == '{';
            assert(!is_glob_syntax(p[j]));
        }
    }
    lemma_no_brace_expand(p);
    assert(expand(p)[0] == p);
    lemma_tokenize_plain(p);
    lemma_literals_regex(tokenize(p), p);
    assert(alternative_regex(p) == p);
}

proof fn lemma_literals_regex(toks: Seq<Token>, p: Seq<char>)
    requires
        literals_of(toks, p),
        forall|i: int|
            0 <= i < p.len() ==> {
                let c = #[trigger] p[i];
                !(c == '.' || c == '^' || c == '$' || c == '*' || c == '+' || c == '?' || c == '('
                    || c == ')' || c == '[' || c == ']' || c == '{' || c == '}' || c == '|' || c
                    == '\\')
            },
    ensures
        tokens_regex(toks) == p,
    decreases p.len(),
{
    if p.len() == 0 {
        assert(tokens_regex(toks) =~= Seq::<char>::empty());
    } else {
        let tail = toks.drop_first();
        let pt = p.drop_first();
        assert forall|i: int| 0 <= i < pt.len() implies (#[trigger] tail[i] is Literal && tail[i]->0
            == pt[i]) by {
            assert(tail[i] == toks[i + 1]);
        }
        assert forall|i: int| 0 <= i < pt.len() implies {
            let c = #[trigger] pt[i];
            !(c == '.' || c == '^' || c == '$' || c == '*' || c == '+' || c == '?' || c == '('
                || c == ')' || c == '[' || c == ']' || c == '{' || c == '}' || c == '|' || c
                == '\\')
        } by {
            assert(pt[i] == p[i + 1]);
        }
        lemma_literals_regex(tail, pt);
        lemma_tokens_regex_front(toks);
        assert(toks[0] is Literal && toks[0]->0 == p[0]);
        assert(token_regex(toks[0]) == seq![p[0]]);
        assert(seq![p[0]] + pt =~= p);
    }
}

/// An escaped glob character matches itself, and the regex writes it
/// escaped just where a regex reads it as syntax.
pub proof fn law_escaped_glob_regex(c: char)
    ensures
        glob_regex(seq!['\\', c]) == if c == '.' || c == '^' || c == '$' || c == '*' || c == '+'
            || c == '?' || c == '(' || c == ')' || c == '[' || c == ']' || c == '{' || c == '}'
            || c == '|' || c == '\\' {
            seq!['^', '\\', c, '$']
        } else {
            seq!['^', c, '$']
        },
{
    let p = seq!['\\', c];
    assert(first_group(p, 2) is None);
    assert(first_group(p, 0) is None);
    assert(expand(p)[0] == p);
    let t = Token::Literal(c);
    assert(next_token(p) == (t, 2int));
    assert(p.skip(2) =~= Seq::<char>::empty());
    assert(tokenize(Seq::<char>::empty()) =~= Seq::<Token>::empty());
    assert(tokenize(p) =~= seq![t]);
    lemma_tokens_regex_front(seq![t]);
    assert(seq![t].drop_first() =~= Seq::<Token>::empty());
    assert(tokens_regex(Seq::<Token>::empty()) =~= Seq::<char>::empty());
    assert(alternative_regex(p) =~= token_regex(t));
}

// --------------------------------------------------- shifting brace scans

/// Positions moved `n` places on.
pub open spec fn shifted(b: Seq<int>, n: int) -> Seq<int> {
    b.map_values(|x: int| x + n)
}

pub open spec fn shifted_opt(o: Option<Seq<int>>, n: int) -> Option<Seq<int>> {
    match o {
        Some(b) => Some(shifted(b, n)),
        None => None,
    }
}

proof fn lemma_scan_group_shift(y: Seq<char>, g: Seq<char>, k: int, depth: nat, b: Seq<int>)
    requires
        0 <= k,
    ensures
        scan_group(y + g, y.len() + k, depth, shifted(b, y.len() as int)) == shifted_opt(
            scan_group(g, k, depth, b),
            y.len() as int,
        ),
    decreases g.len() - k,
{
    let p = y + g;
    let n = y.len() as int;
    if k < g.len() {
        assert(p[n + k] == g[k]);
        assert(shifted(b.push(k), n) =~= shifted(b, n).push(n + k));
        if g[k] == '\\' {
            if k + 1 < g.len() {
                lemma_scan_group_shift(y, g, k + 2, depth, b);
            }
        } else if g[k] == '{' {
            lemma_scan_group_shift(y, g, k + 1, depth + 1, b);
        } else if g[k] == '}' {
            if depth > 0 {
                lemma_scan_group_shift(y, g, k + 1, (depth - 1) as nat, b);
            }
        } else if g[k] == ',' && depth == 0 {
            lemma_scan_group_shift(y, g, k + 1, depth, b.push(k));
        } else {
            lemma_scan_group_shift(y, g, k + 1, depth, b);
        }
    }
}

proof fn lemma_first_group_shift(y: Seq<char>, g: Seq<char>, k: int)
    requires
        0 <= k,
    ensures
        first_group(y + g, y.len() + k) == shifted_opt(first_group(g, k), y.len() as int),
    decreases g.len() - k,
{
    let p = y + g;
    let n = y.len() as int;
    if k < g.len() {
        assert(p[n + k] == g[k]);
        if g[k] == '\\' {
            if k + 1 < g.len() {
                lemma_first_group_shift(y, g, k + 2);
            }
        } else {
            lemma_scan_group_shift(y, g, k + 1, 0, seq![k]);
            assert(shifted(seq![k], n) =~= seq![n + k]);
            assert(group_at(p, n + k) == shifted_opt(group_at(g, k), n));
            if !(g[k] == '{' && group_at(g, k) is Some) {
                lemma_first_group_shift(y, g, k + 1);
            }
        }
    }
}

// ---------------------------------------------------- glob escapes

proof fn lemma_expand_escaped(c: char, r: Seq<char>)
    ensures
        expand(seq!['\\', c] + r) == expand(r).map_values(|e: Seq<char>| seq!['\\', c] + e),
    decreases r.len(), 1int, 0int,
{
    let y = seq!['\\', c];
    let p = y + r;
    let f = |e: Seq<char>| seq!['\\', c] + e;
    assert(p[0] == '\\');
    lemma_first_group_shift(y, r, 0);
    assert(first_group(p, 0) == first_group(p, 2));
    match first_group(r, 0) {
        None => {
            assert(expand(r).map_values(f) =~= seq![p]);
        },
        Some(b) => {
            lemma_expand_group_escaped(c, r, b, 0);
        },
    }
}

proof fn lemma_expand_group_escaped(c: char, r: Seq<char>, b: Seq<int>, t: int)
    requires
        first_group(r, 0) == Some(b),
        0 <= t,
    ensures
        expand_group(seq!['\\', c] + r, shifted(b, 2), t) == expand_group(r, b, t).map_values(
            |e: Seq<char>| seq!['\\', c] + e,
        ),
    decreases r.len(), 0int, b.len() - t,
{
    let y = seq!['\\', c];
    let p = y + r;
    let f = |e: Seq<char>| seq!['\\', c] + e;
    let sb = shifted(b, 2);
    assert(p[0] == '\\');
    lemma_first_group_shift(y, r, 0);
    assert(first_group(p, 0) == Some(sb));
    lemma_first_group(r, 0);
    if t < b.len() - 1 {
        lemma_alternative_shorter(r, b, t);
        assert(b[0] <= b[t] && b[t] < b[t + 1] && b[t + 1] <= b.last());
        assert(alternative(p, sb, t) =~= y + alternative(r, b, t));
        lemma_expand_escaped(c, alternative(r, b, t));
        lemma_expand_group_escaped(c, r, b, t + 1);
        let a = expand(alternative(r, b, t));
        let rest = expand_group(r, b, t + 1);
        assert((a + rest).map_values(f) =~= a.map_values(f) + rest.map_values(f));
    } else {
        assert(expand_group(r, b, t).map_values(f) =~= Seq::<Seq<char>>::empty());
    }
}

proof fn lemma_tok_match_escaped(c: char, e: Seq<char>, s: Seq<char>)
    ensures
        tokenize(seq!['\\', c] + e) == seq![Token::Literal(c)] + tokenize(e),
        tok_match(tokenize(seq!['\\', c] + e), s) == (s.len() > 0 && s[0] == c && tok_match(
            tokenize(e),
            s.drop_first(),
        )),
{
    let p = seq!['\\', c] + e;
    assert(p[0] == '\\' && p[1] == c);
    assert(p.skip(2) =~= e);
    let toks = tokenize(p);
    assert(toks == seq![Token::Literal(c)] + tokenize(e));
    assert(toks.drop_first() =~= tokenize(e));
}

/// A backslash makes the character after it, whatever it is, a literal:
/// `\c` followed by the glob `r` reads as the literal `c` and then `r`, and
/// matches a text just when the text starts with `c` and `r` matches the
/// rest of it.
pub proof fn law_escaped_glob_char(c: char, r: Seq<char>, s: Seq<char>)
    ensures
        tokenize(seq!['\\', c] + r) == seq![Token::Literal(c)] + tokenize(r),
        expand(seq!['\\', c] + r) == expand(r).map_values(|e: Seq<char>| seq!['\\', c] + e),
        glob_accepts(seq!['\\', c] + r, s) == (s.len() > 0 && s[0] == c && glob_accepts(
            r,
            s.drop_first(),
        )),
{
    let y = seq!['\\', c];
    let p = y + r;
    lemma_tok_match_escaped(c, r, s);
    lemma_expand_escaped(c, r);
    let ep = expand(p);
    let er = expand(r);
    if glob_accepts(p, s) {
        let k = choose|k: int| 0 <= k < ep.len() && tok_match(tokenize(#[trigger] ep[k]), s);
        assert(ep[k] == y + er[k]);
        lemma_tok_match_escaped(c, er[k], s);
        assert(tok_match(tokenize(er[k]), s.drop_first()));
    }
    if s.len() > 0 && s[0] == c && glob_accepts(r, s.drop_first()) {
        let k = choose|k: int|
            0 <= k < er.len() && tok_match(tokenize(#[trigger] er[k]), s.drop_first());
        assert(ep[k] == y + er[k]);
        lemma_tok_match_escaped(c, er[k], s);
        assert(tok_match(tokenize(ep[k]), s));
    }
}

// ---------------------------------------------------- regex escapes

/// `regex_to_glob` never refuses an escaped character: wherever `^q$`
/// converts, `^\cq$` converts too, to `c` (escaped where a glob reads it as
/// syntax: `*`, `?`, `[`, `\`, `{`) followed by the glob of `^q$`.
pub proof fn law_escaped_regex_char(c: char, q: Seq<char>)
    requires
        regex_glob(seq!['^'] + q + seq!['$']) is Ok,
    ensures
        regex_glob(seq!['^', '\\', c] + q + seq!['$']) == Ok::<Seq<char>, Seq<char>>(
            (if c == '*' || c == '?' || c == '[' || c == '\\' || c == '{' {
                seq!['\\', c]
            } else {
                seq![c]
            }) + regex_glob(seq!['^'] + q + seq!['$'])->Ok_0,
        ),
{
    let r1 = seq!['^'] + q + seq!['$'];
    let r2 = seq!['^', '\\', c] + q + seq!['$'];
    let qq = seq!['\\', c] + q;
    assert(strip_anchors(r1) =~= q);
    assert(strip_anchors(r2) =~= qq);
    let g = regex_glob(r1)->Ok_0;
    assert(regex_body_glob(q) == Ok::<Seq<char>, Seq<char>>(g));
    assert(first_group(g, 0) is None);
    let e: Seq<char> = if c == '*' || c == '?' || c == '[' || c == '\\' || c == '{' {
        seq!['\\', c]
    } else {
        seq![c]
    };
    assert(qq[0] == '\\' && qq[1] == c);
    assert(star_element_len(qq, 0) == 0);
    assert(regex_step(qq) == Ok::<(Seq<char>, int), Seq<char>>((e, 2)));
    assert(qq.skip(2) =~= q);
    assert(regex_body_glob(qq) == Ok::<Seq<char>, Seq<char>>(e + g));
    lemma_first_group_shift(e, g, 0);
    let p = e + g;
    if e.len() == 2 {
        assert(p[0] == '\\');
        assert(first_group(p, 0) == first_group(p, 2));
    } else {
        assert(p[0] == c);
        lemma_first_group_shift(seq![c], g, 0);
        assert(first_group(p, 0) == first_group(p, 1));
    }
    assert(first_group(p, 0) is None);
}

// ---------------------------------------------------- brace pairs

proof fn lemma_first_group_plain(p: Seq<char>, k: int, m: int)
    requires
        0 <= k <= m <= p.len(),
        forall|j: int| k <= j < m ==> #[trigger] p[j] != '\\' && p[j] != '{',
    ensures
        first_group(p, k) == first_group(p, m),
    decreases m - k,
{
    if k < m {
        lemma_first_group_plain(p, k + 1, m);
    }
}

proof fn lemma_scan_group_plain(p: Seq<char>, k: int, m: int, depth: nat, bounds: Seq<int>)
    requires
        0 <= k <= m <= p.len(),
        forall|j: int|
            k <= j < m ==> #[trigger] p[j] != '\\' && p[j] != '{' && p[j] != '}' && p[j] != ',',
    ensures
        scan_group(p, k, depth, bounds) == scan_group(p, m, depth, bounds),
    decreases m - k,
{
    if k < m {
        lemma_scan_group_plain(p, k + 1, m, depth, bounds);
    }
}

/// A brace pair with a comma at its own level is a group whatever its two
/// alternatives hold, the empty text included: `x{a,b}y` stands for `xay`
/// and then `xby`.
pub proof fn law_brace_pair(x: Seq<char>, a: Seq<char>, b: Seq<char>, y: Seq<char>)
    requires
        forall|i: int|
            0 <= i < x.len() ==> #[trigger] x[i] != '{' && x[i] != '}' && x[i] != ',' && x[i]
                != '\\',
        forall|i: int|
            0 <= i < a.len() ==> #[trigger] a[i] != '{' && a[i] != '}' && a[i] != ',' && a[i]
                != '\\',
        forall|i: int|
            0 <= i < b.len() ==> #[trigger] b[i] != '{' && b[i] != '}' && b[i] != ',' && b[i]
                != '\\',
        !y.contains('{'),
    ensures
        expand(x + seq!['{'] + a + seq![','] + b + seq!['}'] + y) == seq![x + a + y, x + b + y],
{
    let p = x + seq!['{'] + a + seq![','] + b + seq!['}'] + y;
    let i = x.len() as int;
    let ic = i + 1 + a.len();
    let j = ic + 1 + b.len();
    assert forall|m: int| 0 <= m < i implies #[trigger] p[m] != '\\' && p[m] != '{' by {
        assert(p[m] == x[m]);
    }
    assert forall|m: int| i + 1 <= m < ic implies #[trigger] p[m] != '\\' && p[m] != '{' && p[m]
        != '}' && p[m] != ',' by {
        assert(p[m] == a[m - i - 1]);
    }
    assert forall|m: int| ic + 1 <= m < j implies #[trigger] p[m] != '\\' && p[m] != '{' && p[m]
        != '}' && p[m] != ',' by {
        assert(p[m] == b[m - ic - 1]);
    }
    assert(p[i] == '{' && p[ic] == ',' && p[j] == '}');
    lemma_first_group_plain(p, 0, i);
    lemma_scan_group_plain(p, i + 1, ic, 0, seq![i]);
    lemma_scan_group_plain(p, ic + 1, j, 0, seq![i, ic]);
    assert(seq![i].push(ic) =~= seq![i, ic]);
    assert(seq![i, ic].push(j) =~= seq![i, ic, j]);
    let bs = seq![i, ic, j];
    assert(scan_group(p, i + 1, 0, seq![i]) == Some(bs));
    assert(group_at(p, i) == Some(bs));
    assert(first_group(p, 0) == Some(bs));
    let a0 = alternative(p, bs, 0);
    let a1 = alternative(p, bs, 1);
    assert(a0 =~= x + a + y);
    assert(a1 =~= x + b + y);
    assert(!a0.contains('{')) by {
        if a0.contains('{') {
            let m = choose|m: int| 0 <= m < a0.len() && a0[m] == '{';
            if m < i {
                assert(a0[m] == x[m]);
            } else if m < i + a.len() {
                assert(a0[m] == a[m - i]);
            } else {
                assert(a0[m] == y[m - i - a.len()]);
                assert(y.contains(y[m - i - a.len()]));
            }
        }
    }
    assert(!a1.contains('{')) by {
        if a1.contains('{') {
            let m = choose|m: int| 0 <= m < a1.len() && a1[m] == '{';
            if m < i {
                assert(a1[m] == x[m]);
            } else if m < i + b.len() {
                assert(a1[m] == b[m - i]);
            } else {
                assert(a1[m] == y[m - i - b.len()]);
                assert(y.contains(y[m - i - b.len()]));
            }
        }
    }
    lemma_no_brace_expand(a0);
    lemma_no_brace_expand(a1);
    lemma_first_group(p, 0);
    lemma_alternative_shorter(p, bs, 0);
    lemma_alternative_shorter(p, bs, 1);
    assert(expand_group(p, bs, 2) =~= Seq::<Seq<char>>::empty());
    assert(expand_group(p, bs, 1) == expand(a1) + expand_group(p, bs, 2));
    assert(expand_group(p, bs, 0) == expand(a0) + expand_group(p, bs, 1));
    assert(expand(p) =~= seq![a0, a1]);
}

} // verus!
