//! What holds of the conversions taken together.
use vstd::prelude::*;

use crate::braces::{
    alternative, expand, expand_group, first_group, group_at, lemma_alternative_shorter,
    lemma_first_group, scan_group,
};
use crate::glob::{
    Token, class_negated, class_search_from, class_start, find_close, is_star_token, lemma_find_close,
    char_ok, class_has, lemma_next_token_len, lemma_star_run, next_token, run_match, slash_follows,
    star_run, tok_match, tokenize,
};
use crate::matcher::glob_accepts;
use crate::regex::{
    RxAtom, alt_accepts, alt_end, atom_ok, is_group, lemma_rx_atom_len, regex_accepts, rx_atom,
    rx_match, rx_pieces, rx_run, split_alts,
};
use crate::to_glob::{
    msg_no_glob_form, glob_class_head, glob_escaped, has_no_glob_form, is_glob_special, regex_body_glob, regex_class_negated,
    lemma_regex_step_len, lemma_star_elements_end, regex_class_search_from, regex_class_start,
    regex_glob, regex_step, star_element_len,
    star_elements_cross, star_elements_end, strip_anchors,
};
use crate::to_regex::{
    alternative_regex, alternatives_regex, class_body_regex, glob_regex, join_bars, is_regex_special, token_regex,
    tokens_regex,
};

verus! {

/// The glob text of one token, as `regex_to_glob` writes it.
pub open spec fn token_glob(t: Token) -> Seq<char> {
    match t {
        Token::Star => seq!['*'],
        Token::GlobStar => seq!['*', '*'],
        Token::AnyChar => seq!['?'],
        Token::Class { negate, items } => seq!['['] + (if negate {
            seq!['!']
        } else {
            Seq::empty()
        }) + items + seq![']'],
        Token::Literal(c) => glob_escaped(c),
    }
}

/// The glob text of a token sequence: the texts of its tokens, in order.
pub open spec fn tokens_glob(toks: Seq<Token>) -> Seq<char> {
    toks.map_values(|t: Token| token_glob(t)).flatten()
}

/// A class whose body holds neither a backslash nor a `{`.
pub open spec fn plain_class(t: Token) -> bool {
    t matches Token::Class { items, .. } ==> !items.contains('\\') && !items.contains('{')
}

/// What the tokens of a glob with plain classes are like.
pub open spec fn token_wf(t: Token) -> bool {
    match t {
        Token::Class { negate, items } => {
            &&& items.len() > 0
            &&& forall|j: int|
                0 <= j < items.len() ==> (j > 0 ==> #[trigger] items[j] != ']') && items[j] != '\\'
                    && items[j] != '{'
            &&& !negate ==> items[0] != '!' && items[0] != '^'
        },
        _ => true,
    }
}

pub open spec fn tokens_wf(toks: Seq<Token>) -> bool {
    &&& forall|i: int| 0 <= i < toks.len() ==> token_wf(#[trigger] toks[i])
    &&& forall|i: int|
        0 <= i < toks.len() - 1 ==> !(is_star_token(#[trigger] toks[i]) && is_star_token(
            toks[i + 1],
        ))
}

pub proof fn lemma_find_close_at(q: Seq<char>, k: int, e: int)
    requires
        0 <= k <= e < q.len(),
        q[e] == ']',
        forall|m: int| k <= m < e ==> q[m] != ']',
    ensures
        find_close(q, k) == e,
{
    lemma_find_close(q, k);
    let c = find_close(q, k);
    if c < e {
        assert(q[c] == ']');
    }
    if c > e {
        assert(q[e] != ']');
    }
}

/// Facts about the first token of a glob.
proof fn lemma_next_token_facts(q: Seq<char>)
    requires
        q.len() > 0,
    ensures
        ({
            let (t, n) = next_token(q);
            &&& 1 <= n <= q.len()
            &&& plain_class(t) ==> token_wf(t)
            &&& is_star_token(t) ==> (n < q.len() ==> q[n] != '*')
            &&& q[0] != '*' ==> !is_star_token(t)
        }),
{
    lemma_next_token_len(q);
    let (t, n) = next_token(q);
    if q[0] == '*' {
        lemma_star_run(q, 0);
    } else if q[0] == '[' {
        let from = class_search_from(q);
        lemma_find_close(q, from);
        let close = find_close(q, from);
        if close < q.len() {
            let items = q.subrange(class_start(q), close);
            if plain_class(t) {
                assert forall|j: int| 0 <= j < items.len() implies (j > 0 ==> #[trigger] items[j]
                    != ']') && items[j] != '\\' && items[j] != '{' by {
                    assert(items[j] == q[class_start(q) + j]);
                    if j > 0 {
                        assert(from <= class_start(q) + j);
                    }
                    assert(items.contains(items[j]));
                }
                assert(items.len() > 0) by {
                    if q[class_start(q)] != ']' {
                        assert(q[from] != ']');
                    }
                }
            }
        }
    }
}

/// The tokens of a glob whose classes are plain are well formed.
proof fn lemma_tokenize_wf(q: Seq<char>)
    requires
        forall|i: int| 0 <= i < tokenize(q).len() ==> plain_class(#[trigger] tokenize(q)[i]),
    ensures
        tokens_wf(tokenize(q)),
        tokenize(q).len() > 0 ==> (is_star_token(tokenize(q)[0]) <==> q[0] == '*'),
    decreases q.len(),
{
    if q.len() > 0 {
        lemma_next_token_facts(q);
        let (t, n) = next_token(q);
        let rest = q.skip(n);
        let toks = tokenize(q);
        let tail = tokenize(rest);
        assert(toks == seq![t] + tail);
        assert forall|i: int| 0 <= i < tail.len() implies plain_class(#[trigger] tail[i]) by {
            assert(toks[i + 1] == tail[i]);
        }
        lemma_tokenize_wf(rest);
        assert(toks[0] == t);
        assert(plain_class(toks[0]));
        assert forall|i: int| 0 <= i < toks.len() implies token_wf(#[trigger] toks[i]) by {
            if i > 0 {
                assert(toks[i] == tail[i - 1]);
            }
        }
        assert forall|i: int| 0 <= i < toks.len() - 1 implies !(is_star_token(#[trigger] toks[i])
            && is_star_token(toks[i + 1])) by {
            if i == 0 {
                if is_star_token(t) {
                    assert(rest[0] == q[n]);
                }
            } else {
                assert(toks[i] == tail[i - 1]);
                assert(toks[i + 1] == tail[i]);
            }
        }
    }
}

pub proof fn lemma_tokens_regex_front(toks: Seq<Token>)
    requires
        toks.len() > 0,
    ensures
        tokens_regex(toks) == token_regex(toks[0]) + tokens_regex(toks.drop_first()),
{
    let f = |t: Token| token_regex(t);
    assert(toks.map_values(f).drop_first() =~= toks.drop_first().map_values(f));
}

proof fn lemma_tokens_glob_front(toks: Seq<Token>)
    requires
        toks.len() > 0,
    ensures
        tokens_glob(toks) == token_glob(toks[0]) + tokens_glob(toks.drop_first()),
{
    let f = |t: Token| token_glob(t);
    assert(toks.map_values(f).drop_first() =~= toks.drop_first().map_values(f));
}

/// A class body without backslashes stands in a regex class as it is.
proof fn lemma_class_body_plain(items: Seq<char>)
    requires
        !items.contains('\\'),
    ensures
        class_body_regex(items) == items,
    decreases items.len(),
{
    if items.len() > 0 {
        let f = |c: char| crate::to_regex::class_char_regex(c);
        assert(items.map_values(f).drop_first() =~= items.drop_first().map_values(f));
        assert(items.contains(items[0]));
        assert(!items.drop_first().contains('\\')) by {
            if items.drop_first().contains('\\') {
                let j = choose|j: int| 0 <= j < items.drop_first().len() && items.drop_first()[j] == '\\';
                assert(items[j + 1] == '\\');
                assert(items.contains(items[j + 1]));
            }
        }
        lemma_class_body_plain(items.drop_first());
        assert(class_body_regex(items) =~= seq![items[0]] + items.drop_first());
        assert(seq![items[0]] + items.drop_first() =~= items);
    }
}

/// A class body with a `]` at most first stays so in a regex class, where
/// it starts as before (a backslash first becomes two).
proof fn lemma_class_body_regex_shape(items: Seq<char>)
    requires
        forall|i: int| 0 < i < items.len() ==> #[trigger] items[i] != ']',
    ensures
        class_body_regex(items).len() >= items.len(),
        items.len() > 0 ==> class_body_regex(items)[0] == items[0] || (items[0] == '\\'
            && class_body_regex(items)[0] == '\\'),
        forall|j: int|
            0 < j < class_body_regex(items).len() ==> #[trigger] class_body_regex(items)[j] != ']',
    decreases items.len(),
{
    if items.len() == 0 {
        assert(class_body_regex(items) =~= Seq::<char>::empty());
    } else {
        let f = |c: char| crate::to_regex::class_char_regex(c);
        let tail = items.drop_first();
        assert(items.map_values(f).drop_first() =~= tail.map_values(f));
        assert forall|i: int| 0 < i < tail.len() implies #[trigger] tail[i] != ']' by {
            assert(tail[i] == items[i + 1]);
        }
        lemma_class_body_regex_shape(tail);
        let h = f(items[0]);
        let d = class_body_regex(items);
        let dt = class_body_regex(tail);
        assert(d =~= h + dt);
        assert forall|j: int| 0 < j < d.len() implies #[trigger] d[j] != ']' by {
            if j >= h.len() {
                let k = j - h.len();
                assert(d[j] == dt[k]);
                if k == 0 {
                    assert(tail[0] == items[1]);
                }
            }
        }
    }
}

/// The regex of a class token, followed by anything, reads as one class
/// whose items are the class body as the regex writes it.
proof fn lemma_class_regex_close(negate: bool, items: Seq<char>, rest: Seq<char>)
    requires
        token_shape(Token::Class { negate, items }),
    ensures
        ({
            let x = token_regex(Token::Class { negate, items });
            let q = x + rest;
            &&& regex_class_negated(q) == negate
            &&& find_close(q, regex_class_search_from(q)) == x.len() - 1
            &&& q.subrange(regex_class_start(q), x.len() - 1) == class_body_regex(items)
        }),
{
    lemma_class_body_regex_shape(items);
    let x = token_regex(Token::Class { negate, items });
    let q = x + rest;
    let d = class_body_regex(items);
    let neg: Seq<char> = if negate { seq!['^'] } else { Seq::empty() };
    assert(x =~= seq!['['] + neg + d + seq![']']);
    let start: int = 1 + neg.len() as int;
    let close: int = start + d.len();
    assert(q[1] == x[1]);
    if negate {
        assert(q[1] == '^');
    } else {
        assert(q[1] == d[0]);
    }
    assert(regex_class_negated(q) == negate);
    assert(q[start] == d[0]);
    let from = regex_class_search_from(q);
    assert(q[close] == ']');
    assert forall|m: int| from <= m < close implies q[m] != ']' by {
        assert(q[m] == d[m - start]);
    }
    lemma_find_close_at(q, from, close);
    assert(q.subrange(start, close) =~= d);
}

/// The regex of a token is never empty and never starts with `*`.
proof fn lemma_token_regex_head(t: Token)
    ensures
        token_regex(t).len() > 0,
        token_regex(t)[0] != '*',
        token_regex(t)[0] != '(',
{
}

/// The glob text of a token is never empty, and starts with `*` just for `*` and `**`.
proof fn lemma_token_glob_head(t: Token)
    ensures
        token_glob(t).len() > 0,
        token_glob(t)[0] == '*' <==> is_star_token(t),
{
}

proof fn lemma_tokens_regex_head(toks: Seq<Token>)
    requires
        toks.len() > 0,
    ensures
        tokens_regex(toks).len() > 0,
        tokens_regex(toks)[0] == token_regex(toks[0])[0],
{
    lemma_tokens_regex_front(toks);
    lemma_token_regex_head(toks[0]);
}

proof fn lemma_tokens_glob_head(toks: Seq<Token>)
    requires
        toks.len() > 0,
    ensures
        tokens_glob(toks).len() > 0,
        tokens_glob(toks)[0] == token_glob(toks[0])[0],
{
    lemma_tokens_glob_front(toks);
    lemma_token_glob_head(toks[0]);
}

/// What `regex_to_glob` reads first in the regex of a token, followed by
/// anything that does not start with `*`.
proof fn lemma_regex_step_token(t: Token, rest: Seq<char>)
    requires
        token_wf(t),
        rest.len() > 0 ==> rest[0] != '*',
        is_star_token(t) ==> star_element_len(rest, 0) == 0,
    ensures
        regex_step(token_regex(t) + rest) == Ok::<(Seq<char>, int), Seq<char>>(
            (token_glob(t), token_regex(t).len() as int),
        ),
{
    let x = token_regex(t);
    let q = x + rest;
    match t {
        Token::Star => {
            assert(q[0] == '[' && q[1] == '^' && q[2] == '/' && q[3] == ']' && q[4] == '*');
            assert(star_element_len(q, 5) == star_element_len(rest, 0));
            assert(star_elements_end(q, 5) == 5);
            assert(!star_elements_cross(q, 5));
        },
        Token::GlobStar => {
            assert(q[0] == '.' && q[1] == '*');
            assert(star_element_len(q, 2) == star_element_len(rest, 0));
            assert(star_elements_end(q, 2) == 2);
        },
        Token::AnyChar => {
            assert(q[0] == '.');
            if q.len() > 1 {
                assert(q[1] == rest[0]);
            }
        },
        Token::Class { negate, items } => {
            assert(!items.contains('\\')) by {
                if items.contains('\\') {
                    let j = choose|j: int| 0 <= j < items.len() && items[j] == '\\';
                    assert(items[j] != '\\');
                }
            }
            lemma_class_body_plain(items);
            let neg: Seq<char> = if negate { seq!['^'] } else { Seq::empty() };
            assert(x =~= seq!['['] + neg + items + seq![']']);
            let start: int = 1 + neg.len() as int;
            let close: int = start + items.len();
            assert(q[0] == '[');
            if negate {
                assert(q[1] == '^');
            } else {
                assert(q[1] == items[0]);
            }
            assert(regex_class_negated(q) == negate);
            assert(regex_class_start(q) == start);
            assert(q[start] == items[0]);
            let from = regex_class_search_from(q);
            assert(q[close] == ']');
            assert forall|m: int| from <= m < close implies q[m] != ']' by {
                assert(q[m] == items[m - start]);
            }
            lemma_find_close_at(q, from, close);
            if close + 1 < q.len() {
                assert(q[close + 1] == rest[0]);
            }
            assert(q.subrange(start, close) =~= items);
            assert(!items.contains('{')) by {
                if items.contains('{') {
                    let j = choose|j: int| 0 <= j < items.len() && items[j] == '{';
                    assert(items[j] != '{');
                }
            }
            if star_element_len(q, 0) == 5 {
                assert(q[4] == '*');
                if items.len() == 1 {
                    assert(q[4] == rest[0]);
                } else {
                    assert(q[3] == items[1]);
                }
            }
        },
        Token::Literal(c) => {
            if is_regex_special(c) {
                assert(q[0] == '\\' && q[1] == c);
            } else {
                assert(q[0] == c);
                assert(!has_no_glob_form(c));
                assert(!is_glob_special(c));
            }
        },
    }
}

/// The regex of well-formed tokens that do not start with a star does not
/// start with a star element.
proof fn lemma_no_star_element_start(toks: Seq<Token>)
    requires
        tokens_wf(toks),
        toks.len() > 0,
        !is_star_token(toks[0]),
    ensures
        star_element_len(tokens_regex(toks), 0) == 0,
{
    lemma_tokens_regex_front(toks);
    let t = toks[0];
    let x = token_regex(t);
    let tail = toks.drop_first();
    let r = tokens_regex(tail);
    let q = x + r;
    assert(token_wf(t));
    if tail.len() > 0 {
        assert(tail[0] == toks[1]);
        assert(token_wf(tail[0]));
        lemma_tokens_regex_head(tail);
        lemma_token_regex_head(tail[0]);
    }
    match t {
        Token::AnyChar => {
            if q.len() > 1 {
                assert(q[1] == r[0]);
            }
        },
        Token::Class { negate, items } => {
            let neg: Seq<char> = if negate { seq!['^'] } else { Seq::empty() };
            assert(!items.contains('\\')) by {
                if items.contains('\\') {
                    let j = choose|j: int| 0 <= j < items.len() && items[j] == '\\';
                    assert(items[j] != '\\');
                }
            }
            lemma_class_body_plain(items);
            assert(x =~= seq!['['] + neg + items + seq![']']);
            if star_element_len(q, 0) == 5 {
                if negate {
                    assert(q[2] == items[0]);
                    if items.len() == 1 {
                        assert(q[4] == r[0]);
                    } else {
                        assert(q[3] == items[1]);
                    }
                } else {
                    assert(q[1] == items[0]);
                }
            }
        },
        Token::Literal(c) => {
            if !is_regex_special(c) {
                assert(q[0] == c);
            } else {
                assert(q[0] == '\\');
            }
        },
        _ => {},
    }
}

/// `regex_to_glob` reads the regex of well-formed tokens back as their glob text.
proof fn lemma_regex_body_glob_tokens(toks: Seq<Token>)
    requires
        tokens_wf(toks),
    ensures
        regex_body_glob(tokens_regex(toks)) == Ok::<Seq<char>, Seq<char>>(tokens_glob(toks)),
    decreases toks.len(),
{
    if toks.len() == 0 {
        assert(tokens_regex(toks) =~= Seq::<char>::empty());
        assert(tokens_glob(toks) =~= Seq::<char>::empty());
    } else {
        let tail = toks.drop_first();
        assert(tokens_wf(tail)) by {
            assert forall|i: int| 0 <= i < tail.len() implies token_wf(#[trigger] tail[i]) by {
                assert(tail[i] == toks[i + 1]);
            }
            assert forall|i: int| 0 <= i < tail.len() - 1 implies !(is_star_token(#[trigger] tail[i])
                && is_star_token(tail[i + 1])) by {
                assert(tail[i] == toks[i + 1]);
                assert(tail[i + 1] == toks[i + 2]);
            }
        }
        lemma_regex_body_glob_tokens(tail);
        lemma_tokens_regex_front(toks);
        lemma_tokens_glob_front(toks);
        let x = token_regex(toks[0]);
        let r = tokens_regex(tail);
        assert(toks[0] == toks[0]);
        assert(token_wf(toks[0]));
        if tail.len() > 0 {
            assert(token_wf(tail[0])) by {
                assert(tail[0] == toks[1]);
            }
            lemma_tokens_regex_head(tail);
            lemma_token_regex_head(tail[0]);
            if is_star_token(toks[0]) {
                assert(tail[0] == toks[1]);
                lemma_no_star_element_start(tail);
            }
        } else {
            assert(r =~= Seq::<char>::empty());
        }
        lemma_regex_step_token(toks[0], r);
        let q = x + r;
        lemma_token_regex_head(toks[0]);
        assert(q.skip(x.len() as int) =~= r);
    }
}

/// The glob text of a token, followed by text that does not start with `*`
/// where the token is a star, reads back as that token.
proof fn lemma_next_token_glob(t: Token, rest: Seq<char>)
    requires
        token_shape(t),
        is_star_token(t) && rest.len() > 0 ==> rest[0] != '*',
    ensures
        next_token(token_glob(t) + rest) == (t, token_glob(t).len() as int),
{
    let y = token_glob(t);
    let q = y + rest;
    match t {
        Token::Star => {
            assert(q[0] == '*');
            if q.len() > 1 {
                assert(q[1] == rest[0]);
            }
            assert(star_run(q, 1) == 1);
            assert(star_run(q, 0) == 1);
        },
        Token::GlobStar => {
            assert(q[0] == '*' && q[1] == '*');
            if q.len() > 2 {
                assert(q[2] == rest[0]);
            }
            assert(star_run(q, 2) == 2);
            assert(star_run(q, 1) == 2);
            assert(star_run(q, 0) == 2);
        },
        Token::AnyChar => {},
        Token::Class { negate, items } => {
            let neg: Seq<char> = if negate { seq!['!'] } else { Seq::empty() };
            assert(y =~= seq!['['] + neg + items + seq![']']);
            let start: int = 1 + neg.len() as int;
            let close: int = start + items.len();
            assert(q[0] == '[');
            if negate {
                assert(q[1] == '!');
            } else {
                assert(q[1] == items[0]);
            }
            assert(class_negated(q) == negate);
            assert(class_start(q) == start);
            assert(q[start] == items[0]);
            let from = class_search_from(q);
            assert(q[close] == ']');
            assert forall|m: int| from <= m < close implies q[m] != ']' by {
                assert(q[m] == items[m - start]);
            }
            lemma_find_close_at(q, from, close);
            assert(q.subrange(start, close) =~= items);
        },
        Token::Literal(c) => {
            if is_glob_special(c) {
                assert(q[0] == '\\' && q[1] == c);
            } else {
                assert(q[0] == c);
            }
        },
    }
}

/// The glob text of well-formed tokens reads back as those tokens.
proof fn lemma_tokenize_tokens_glob(toks: Seq<Token>)
    requires
        tokens_wf(toks),
    ensures
        tokenize(tokens_glob(toks)) == toks,
    decreases toks.len(),
{
    if toks.len() == 0 {
        assert(tokens_glob(toks) =~= Seq::<char>::empty());
        assert(tokenize(tokens_glob(toks)) =~= toks);
    } else {
        let tail = toks.drop_first();
        assert(tokens_wf(tail)) by {
            assert forall|i: int| 0 <= i < tail.len() implies token_wf(#[trigger] tail[i]) by {
                assert(tail[i] == toks[i + 1]);
            }
            assert forall|i: int| 0 <= i < tail.len() - 1 implies !(is_star_token(#[trigger] tail[i])
                && is_star_token(tail[i + 1])) by {
                assert(tail[i] == toks[i + 1]);
                assert(tail[i + 1] == toks[i + 2]);
            }
        }
        lemma_tokenize_tokens_glob(tail);
        lemma_tokens_glob_front(toks);
        let y = token_glob(toks[0]);
        let g = tokens_glob(tail);
        assert(token_wf(toks[0]));
        if tail.len() > 0 {
            lemma_tokens_glob_head(tail);
            assert(tail[0] == toks[1]);
            lemma_token_glob_head(tail[0]);
            if is_star_token(toks[0]) {
                assert(!is_star_token(toks[1]));
            }
        }
        assert(token_shape(toks[0]));
        lemma_next_token_glob(toks[0], g);
        let q = y + g;
        lemma_token_glob_head(toks[0]);
        assert(q.skip(y.len() as int) =~= g);
        assert(tokenize(q) =~= seq![toks[0]] + tail);
        assert(seq![toks[0]] + tail =~= toks);
    }
}

/// A glob without `{` has no brace group.
proof fn lemma_no_brace_no_group(p: Seq<char>, k: int)
    requires
        !p.contains('{'),
        0 <= k,
    ensures
        first_group(p, k) is None,
    decreases p.len() - k,
{
    if 0 <= k < p.len() {
        assert(p.contains(p[k]) ==> p[k] != '{');
        if p[k] == '\\' {
            if k + 1 < p.len() {
                lemma_no_brace_no_group(p, k + 2);
            }
        } else {
            lemma_no_brace_no_group(p, k + 1);
        }
    }
}

pub proof fn lemma_no_brace_expand(p: Seq<char>)
    requires
        !p.contains('{'),
    ensures
        expand(p) == seq![p],
{
    lemma_no_brace_no_group(p, 0);
}

/// Whether reading `q` from `k`, with a backslash escaping the character
/// after it, meets no `{`.
pub open spec fn no_open_brace(q: Seq<char>, k: int) -> bool
    decreases q.len() - k,
{
    if k < 0 || k >= q.len() {
        true
    } else if q[k] == '\\' {
        if k + 1 < q.len() {
            no_open_brace(q, k + 2)
        } else {
            true
        }
    } else {
        q[k] != '{' && no_open_brace(q, k + 1)
    }
}

/// Whether reading `q` from `k` meets no `{` and ends with no backslash
/// left waiting for the character it escapes.
pub open spec fn escapes_closed(q: Seq<char>, k: int) -> bool
    decreases q.len() - k,
{
    if k < 0 || k > q.len() {
        false
    } else if k == q.len() {
        true
    } else if q[k] == '\\' {
        k + 1 < q.len() && escapes_closed(q, k + 2)
    } else {
        q[k] != '{' && escapes_closed(q, k + 1)
    }
}

proof fn lemma_no_open_brace_no_group(q: Seq<char>, k: int)
    requires
        0 <= k,
        no_open_brace(q, k),
    ensures
        first_group(q, k) is None,
    decreases q.len() - k,
{
    if k < q.len() {
        if q[k] == '\\' {
            if k + 1 < q.len() {
                lemma_no_open_brace_no_group(q, k + 2);
            }
        } else {
            lemma_no_open_brace_no_group(q, k + 1);
        }
    }
}

proof fn lemma_no_open_brace_shift(y: Seq<char>, g: Seq<char>, j: int)
    requires
        0 <= j,
    ensures
        no_open_brace(y + g, y.len() + j) == no_open_brace(g, j),
    decreases g.len() - j,
{
    let q = y + g;
    if j < g.len() {
        assert(q[y.len() + j] == g[j]);
        if g[j] == '\\' {
            if j + 1 < g.len() {
                lemma_no_open_brace_shift(y, g, j + 2);
            }
        } else {
            lemma_no_open_brace_shift(y, g, j + 1);
        }
    }
}

proof fn lemma_escapes_closed_concat(y: Seq<char>, g: Seq<char>, k: int)
    requires
        escapes_closed(y, k),
        no_open_brace(g, 0),
    ensures
        no_open_brace(y + g, k),
    decreases y.len() - k,
{
    let q = y + g;
    if k == y.len() {
        lemma_no_open_brace_shift(y, g, 0);
    } else {
        assert(q[k] == y[k]);
        if y[k] == '\\' {
            assert(q[k + 1] == y[k + 1]);
            lemma_escapes_closed_concat(y, g, k + 2);
        } else {
            lemma_escapes_closed_concat(y, g, k + 1);
        }
    }
}

proof fn lemma_escapes_closed_plain(q: Seq<char>, k: int)
    requires
        0 <= k <= q.len(),
        forall|j: int| k <= j < q.len() ==> q[j] != '\\' && q[j] != '{',
    ensures
        escapes_closed(q, k),
    decreases q.len() - k,
{
    if k < q.len() {
        lemma_escapes_closed_plain(q, k + 1);
    }
}

/// A class token whose body holds no `{`.
pub open spec fn class_without_brace(t: Token) -> bool {
    t matches Token::Class { items, .. } ==> !items.contains('{')
}

proof fn lemma_escapes_closed_ends_plain(q: Seq<char>, k: int)
    requires
        0 <= k <= q.len(),
        forall|j: int| k <= j < q.len() ==> q[j] != '{',
        q.len() > 0 ==> q.last() != '\\',
    ensures
        escapes_closed(q, k),
    decreases q.len() - k,
{
    if k < q.len() {
        if q[k] == '\\' {
            if k + 2 <= q.len() {
                lemma_escapes_closed_ends_plain(q, k + 2);
            }
        } else {
            lemma_escapes_closed_ends_plain(q, k + 1);
        }
    }
}

/// The glob text of a token whose class body (if any) holds no `{` meets
/// no unescaped `{` and ends every escape it opens.
proof fn lemma_token_glob_escapes_closed(t: Token)
    requires
        class_without_brace(t),
    ensures
        escapes_closed(token_glob(t), 0),
{
    let y = token_glob(t);
    match t {
        Token::Class { negate, items } => {
            let neg: Seq<char> = if negate { seq!['!'] } else { Seq::empty() };
            assert(y =~= seq!['['] + neg + items + seq![']']);
            assert forall|j: int| 0 <= j < y.len() implies y[j] != '{' by {
                if 1 + neg.len() <= j < 1 + neg.len() + items.len() {
                    assert(y[j] == items[j - 1 - neg.len()]);
                    assert(items.contains(items[j - 1 - neg.len()]));
                }
            }
            lemma_escapes_closed_ends_plain(y, 0);
        },
        Token::Literal(c) => {
            if is_glob_special(c) {
                assert(escapes_closed(y, 2));
            } else {
                lemma_escapes_closed_plain(y, 0);
            }
        },
        _ => {
            lemma_escapes_closed_plain(y, 0);
        },
    }
}

/// The glob text of tokens whose class bodies hold no `{` has no brace
/// alternatives.
proof fn lemma_tokens_glob_no_open_brace(toks: Seq<Token>)
    requires
        forall|i: int| 0 <= i < toks.len() ==> class_without_brace(#[trigger] toks[i]),
    ensures
        no_open_brace(tokens_glob(toks), 0),
    decreases toks.len(),
{
    if toks.len() == 0 {
        assert(tokens_glob(toks) =~= Seq::<char>::empty());
    } else {
        let tail = toks.drop_first();
        assert forall|i: int| 0 <= i < tail.len() implies class_without_brace(#[trigger] tail[i]) by {
            assert(tail[i] == toks[i + 1]);
        }
        lemma_tokens_glob_no_open_brace(tail);
        lemma_tokens_glob_front(toks);
        assert(class_without_brace(toks[0]));
        lemma_token_glob_escapes_closed(toks[0]);
        lemma_escapes_closed_concat(token_glob(toks[0]), tokens_glob(tail), 0);
    }
}

/// glob -> regex -> glob round trip.
///
/// A glob without brace alternatives whose character classes hold neither
/// a backslash nor a `{` comes back from `regex_to_glob(glob_to_regex(..))`
/// as a glob: the one `tokens_glob` writes for its tokens, and so itself
/// when it is written that way already. That glob has the same tokens and
/// no brace alternatives either, so it matches exactly the same texts.
pub proof fn law_regex_round_trip(g: Seq<char>, s: Seq<char>)
    requires
        expand(g) == seq![g],
        forall|i: int| 0 <= i < tokenize(g).len() ==> plain_class(#[trigger] tokenize(g)[i]),
    ensures
        regex_glob(glob_regex(g)) == Ok::<Seq<char>, Seq<char>>(tokens_glob(tokenize(g))),
        tokens_glob(tokenize(g)) == g ==> regex_glob(glob_regex(g)) == Ok::<Seq<char>, Seq<char>>(g),
        tokenize(tokens_glob(tokenize(g))) == tokenize(g),
        expand(tokens_glob(tokenize(g))) == seq![tokens_glob(tokenize(g))],
        glob_accepts(tokens_glob(tokenize(g)), s) == glob_accepts(g, s),
{
    let toks = tokenize(g);
    lemma_tokenize_wf(g);
    let body = alternative_regex(g);
    assert(expand(g).len() == 1);
    assert(glob_regex(g) == seq!['^'] + body + seq!['$']);
    assert(strip_anchors(seq!['^'] + body + seq!['$']) =~= body);
    lemma_regex_body_glob_tokens(toks);
    lemma_tokenize_tokens_glob(toks);
    let g2 = tokens_glob(toks);
    assert forall|i: int| 0 <= i < toks.len() implies class_without_brace(#[trigger] toks[i]) by {
        assert(token_wf(toks[i]));
        if let Token::Class { items, .. } = toks[i] {
            if items.contains('{') {
                let j = choose|j: int| 0 <= j < items.len() && items[j] == '{';
                assert(items[j] != '{');
            }
        }
    }
    lemma_tokens_glob_no_open_brace(toks);
    lemma_no_open_brace_no_group(g2, 0);
    assert(expand(g)[0] == g);
    assert(expand(g2) == seq![g2]);
    assert(expand(g2)[0] == g2);
}

/// Whether `g`, read from the front, is written token by token as
/// `regex_to_glob` writes globs: no run of three or more `*`; a backslash
/// only before a character that a glob reads as syntax; and each `[`
/// opening a class `[..]` or `[!..]` (not `[^..]`) that a later `]` closes
/// and that holds no backslash.
pub open spec fn canonical_tokens(g: Seq<char>) -> bool
    decreases g.len(),
{
    if g.len() == 0 {
        true
    } else if g[0] == '*' {
        let n = star_run(g, 0);
        proof {
            lemma_star_run(g, 0);
        }
        n <= 2 && canonical_tokens(g.skip(n))
    } else if g[0] == '\\' {
        g.len() > 1 && is_glob_special(g[1]) && canonical_tokens(g.skip(2))
    } else if g[0] == '[' {
        let close = find_close(g, class_search_from(g));
        proof {
            lemma_find_close(g, class_search_from(g));
        }
        &&& close < g.len()
        &&& !(g.len() > 1 && g[1] == '^')
        &&& !g.subrange(class_start(g), close).contains('\\')
        &&& canonical_tokens(g.skip(close + 1))
    } else {
        canonical_tokens(g.skip(1))
    }
}

/// Whether `g` is a glob in the form `regex_to_glob` writes: without `{`,
/// and written token by token as `regex_to_glob` writes tokens.
pub open spec fn canonical_glob(g: Seq<char>) -> bool {
    !g.contains('{') && canonical_tokens(g)
}

proof fn lemma_canonical_tokens(g: Seq<char>)
    requires
        canonical_glob(g),
    ensures
        tokens_glob(tokenize(g)) == g,
        forall|i: int| 0 <= i < tokenize(g).len() ==> plain_class(#[trigger] tokenize(g)[i]),
    decreases g.len(),
{
    if g.len() == 0 {
        assert(tokenize(g) =~= Seq::<Token>::empty());
        assert(tokens_glob(tokenize(g)) =~= Seq::<char>::empty());
    } else {
        lemma_next_token_len(g);
        let (t, n) = next_token(g);
        let rest = g.skip(n);
        assert(!rest.contains('{')) by {
            if rest.contains('{') {
                let j = choose|j: int| 0 <= j < rest.len() && rest[j] == '{';
                assert(g[n + j] == '{');
                assert(g.contains(g[n + j]));
            }
        }
        if g[0] == '*' {
            lemma_star_run(g, 0);
        } else if g[0] == '\\' {
            assert(g[1] != '{') by {
                assert(g.contains(g[1]));
            }
        } else if g[0] == '[' {
            lemma_find_close(g, class_search_from(g));
        }
        assert(canonical_tokens(rest));
        lemma_canonical_tokens(rest);
        let toks = tokenize(g);
        assert(toks == seq![t] + tokenize(rest));
        assert(toks.drop_first() =~= tokenize(rest));
        lemma_tokens_glob_front(toks);
        assert(token_glob(t) =~= g.take(n)) by {
            if g[0] == '*' {
                if n == 2 {
                    assert(g[1] == '*');
                }
            } else if g[0] == '[' {
                let close = find_close(g, class_search_from(g));
                assert(g[close] == ']');
                if class_negated(g) {
                    assert(g[1] == '!');
                }
            } else if g[0] != '\\' && g[0] != '?' {
                assert(g[0] != '{') by {
                    assert(g.contains(g[0]));
                }
            }
        }
        assert(g.take(n) + rest =~= g);
        assert(plain_class(t)) by {
            if let Token::Class { items, .. } = t {
                if items.contains('{') {
                    let j = choose|j: int| 0 <= j < items.len() && items[j] == '{';
                    assert(g[class_start(g) + j] == '{');
                    assert(g.contains(g[class_start(g) + j]));
                }
            }
        }
        assert forall|i: int| 0 <= i < toks.len() implies plain_class(#[trigger] toks[i]) by {
            if i > 0 {
                assert(toks[i] == tokenize(rest)[i - 1]);
            }
        }
    }
}

/// A glob in the form `regex_to_glob` writes comes back from
/// `regex_to_glob(glob_to_regex(..))` as itself.
pub proof fn law_canonical_round_trip(g: Seq<char>)
    requires
        canonical_glob(g),
    ensures
        regex_glob(glob_regex(g)) == Ok::<Seq<char>, Seq<char>>(g),
{
    lemma_canonical_tokens(g);
    lemma_no_brace_expand(g);
    law_regex_round_trip(g, Seq::empty());
}

/// Whether the star `toks[0]` can take the first `k` characters of `s`
/// with the remaining tokens matching the rest.
pub open spec fn star_takes(toks: Seq<Token>, s: Seq<char>, k: int) -> bool {
    &&& 0 <= k <= s.len()
    &&& toks[0] is GlobStar || !s.take(k).contains('/')
    &&& tok_match(toks.drop_first(), s.skip(k))
}

/// What a star can take: a run at the front of `s` (without `/` for `*`)
/// after which the remaining tokens match the rest.
proof fn lemma_run_match(toks: Seq<Token>, s: Seq<char>)
    requires
        toks.len() > 0,
        is_star_token(toks[0]),
    ensures
        run_match(toks, s) <==> exists|k: int| star_takes(toks, s, k),
    decreases s.len(),
{
    let rest = toks.drop_first();
    assert(s.skip(0) =~= s);
    assert(s.take(0) =~= Seq::<char>::empty());
    if s.len() > 0 {
        let t = s.drop_first();
        lemma_run_match(toks, t);
        if run_match(toks, s) {
            if !tok_match(rest, s) {
                let k = choose|k: int| star_takes(toks, t, k);
                assert(t.skip(k) =~= s.skip(k + 1));
                if !(toks[0] is GlobStar) {
                    assert(!s.take(k + 1).contains('/')) by {
                        let u = s.take(k + 1);
                        if u.contains('/') {
                            let j = choose|j: int| 0 <= j < u.len() && u[j] == '/';
                            if j > 0 {
                                assert(t.take(k)[j - 1] == '/');
                                assert(t.take(k).contains(t.take(k)[j - 1]));
                            }
                        }
                    }
                }
                assert(star_takes(toks, s, k + 1));
            } else {
                assert(star_takes(toks, s, 0));
            }
        }
        if exists|k: int| star_takes(toks, s, k) {
            let k = choose|k: int| star_takes(toks, s, k);
            if k > 0 {
                assert(t.skip(k - 1) =~= s.skip(k));
                if !(toks[0] is GlobStar) {
                    assert(s.take(k).contains(s.take(k)[0]));
                    assert(!t.take(k - 1).contains('/')) by {
                        let u = t.take(k - 1);
                        if u.contains('/') {
                            let j = choose|j: int| 0 <= j < u.len() && u[j] == '/';
                            assert(s.take(k)[j + 1] == '/');
                            assert(s.take(k).contains(s.take(k)[j + 1]));
                        }
                    }
                }
                assert(star_takes(toks, t, k - 1));
            }
        }
    } else {
        if run_match(toks, s) {
            assert(star_takes(toks, s, 0));
        }
        if exists|k: int| star_takes(toks, s, k) {
            let k = choose|k: int| star_takes(toks, s, k);
            assert(k == 0);
        }
    }
}

/// `*` takes any run of characters other than `/`, the empty run included.
pub proof fn law_star(rest: Seq<Token>, s: Seq<char>)
    ensures
        tok_match(seq![Token::Star] + rest, s) <==> exists|k: int|
            0 <= k <= s.len() && !s.take(k).contains('/') && tok_match(rest, #[trigger] s.skip(k)),
{
    let toks = seq![Token::Star] + rest;
    assert(toks.drop_first() =~= rest);
    lemma_run_match(toks, s);
    if exists|k: int| star_takes(toks, s, k) {
        let k = choose|k: int| star_takes(toks, s, k);
        assert(s.skip(k) == s.skip(k));
    }
    if exists|k: int|
        0 <= k <= s.len() && !s.take(k).contains('/') && tok_match(rest, #[trigger] s.skip(k)) {
        let k = choose|k: int|
            0 <= k <= s.len() && !s.take(k).contains('/') && tok_match(rest, #[trigger] s.skip(k));
        assert(star_takes(toks, s, k));
    }
}

/// `**` takes any run of characters, `/` included, the empty run included.
pub proof fn law_globstar(rest: Seq<Token>, s: Seq<char>)
    requires
        !(rest.len() > 0 && rest[0] == Token::Literal('/')),
    ensures
        tok_match(seq![Token::GlobStar] + rest, s) <==> exists|k: int|
            0 <= k <= s.len() && tok_match(rest, #[trigger] s.skip(k)),
{
    let toks = seq![Token::GlobStar] + rest;
    assert(toks.drop_first() =~= rest);
    assert(!slash_follows(toks));
    lemma_run_match(toks, s);
    if exists|k: int| star_takes(toks, s, k) {
        let k = choose|k: int| star_takes(toks, s, k);
        assert(s.skip(k) == s.skip(k));
    }
    if exists|k: int| 0 <= k <= s.len() && tok_match(rest, #[trigger] s.skip(k)) {
        let k = choose|k: int| 0 <= k <= s.len() && tok_match(rest, #[trigger] s.skip(k));
        assert(star_takes(toks, s, k));
    }
}

/// `**/` takes no directory at all, or any run of characters that ends
/// with a `/`.
pub proof fn law_globstar_slash(rest: Seq<Token>, s: Seq<char>)
    ensures
        tok_match(seq![Token::GlobStar, Token::Literal('/')] + rest, s) <==> tok_match(rest, s)
            || exists|k: int| 0 <= k < s.len() && s[k] == '/' && tok_match(rest, #[trigger] s.skip(k + 1)),
{
    let toks = seq![Token::GlobStar, Token::Literal('/')] + rest;
    let tail = toks.drop_first();
    assert(tail =~= seq![Token::Literal('/')] + rest);
    assert(toks.skip(2) =~= rest);
    assert(tail.drop_first() =~= rest);
    assert(slash_follows(toks));
    lemma_run_match(toks, s);
    if exists|k: int| star_takes(toks, s, k) {
        let k = choose|k: int| star_takes(toks, s, k);
        assert(s.skip(k).drop_first() =~= s.skip(k + 1));
        assert(s.skip(k)[0] == s[k]);
    }
    if exists|k: int| 0 <= k < s.len() && s[k] == '/' && tok_match(rest, #[trigger] s.skip(k + 1)) {
        let k = choose|k: int| 0 <= k < s.len() && s[k] == '/' && tok_match(rest, #[trigger] s.skip(k + 1));
        assert(s.skip(k).drop_first() =~= s.skip(k + 1));
        assert(s.skip(k)[0] == s[k]);
        assert(tok_match(tail, s.skip(k)));
        assert(star_takes(toks, s, k));
    }
}

/// The characters that a glob reads as syntax.
pub open spec fn is_glob_syntax(c: char) -> bool {
    c == '*' || c == '?' || c == '[' || c == '\\' || c == '{'
}

/// Whether `toks` is the characters of `p`, each as a literal token.
pub open spec fn literals_of(toks: Seq<Token>, p: Seq<char>) -> bool {
    &&& toks.len() == p.len()
    &&& forall|i: int| 0 <= i < p.len() ==> (#[trigger] toks[i] is Literal && toks[i]->0 == p[i])
}

pub proof fn lemma_tokenize_plain(p: Seq<char>)
    requires
        forall|j: int| 0 <= j < p.len() ==> !is_glob_syntax(#[trigger] p[j]),
    ensures
        literals_of(tokenize(p), p),
    decreases p.len(),
{
    if p.len() > 0 {
        assert(!is_glob_syntax(p[0]));
        let rest = p.skip(1);
        assert forall|j: int| 0 <= j < rest.len() implies !is_glob_syntax(#[trigger] rest[j]) by {
            assert(rest[j] == p[j + 1]);
        }
        lemma_tokenize_plain(rest);
        let toks = tokenize(p);
        assert(toks == seq![next_token(p).0] + tokenize(rest));
        assert forall|i: int| 0 <= i < p.len() implies (#[trigger] toks[i] is Literal && toks[i]->0
            == p[i]) by {
            if i > 0 {
                assert(toks[i] == tokenize(rest)[i - 1]);
                assert(rest[i - 1] == p[i]);
            }
        }
    }
}

proof fn lemma_match_literals(toks: Seq<Token>, p: Seq<char>, s: Seq<char>)
    requires
        literals_of(toks, p),
    ensures
        tok_match(toks, s) <==> s == p,
    decreases p.len(),
{
    if p.len() > 0 {
        assert(toks[0] is Literal);
        let tail = toks.drop_first();
        assert forall|i: int| 0 <= i < p.drop_first().len() implies (#[trigger] tail[i] is Literal
            && tail[i]->0 == p.drop_first()[i]) by {
            assert(tail[i] == toks[i + 1]);
        }
        if s.len() > 0 {
            lemma_match_literals(tail, p.drop_first(), s.drop_first());
            if s[0] == p[0] && s.drop_first() == p.drop_first() {
                assert forall|i: int| 0 <= i < s.len() implies s[i] == p[i] by {
                    if i > 0 {
                        assert(s[i] == s.drop_first()[i - 1]);
                        assert(p[i] == p.drop_first()[i - 1]);
                    }
                }
                assert(s =~= p);
            }
        }
    } else {
        if s.len() == 0 {
            assert(s =~= p);
        }
    }
}

/// A glob without glob syntax (`*`, `?`, `[`, `\`, `{`) matches itself and
/// nothing else: a match takes the whole text.
pub proof fn law_plain_glob(p: Seq<char>, s: Seq<char>)
    requires
        forall|j: int| 0 <= j < p.len() ==> !is_glob_syntax(#[trigger] p[j]),
    ensures
        glob_accepts(p, s) <==> s == p,
{
    assert(!p.contains('{')) by {
        if p.contains('{') {
            let j = choose|j: int| 0 <= j < p.len() && p[j] == '{';
            assert(!is_glob_syntax(p[j]));
        }
    }
    lemma_no_brace_expand(p);
    lemma_tokenize_plain(p);
    lemma_match_literals(tokenize(p), p, s);
    assert(expand(p)[0] == p);
}

proof fn lemma_scan_group_no_comma(p: Seq<char>, k: int, depth: nat, bounds: Seq<int>)
    requires
        !p.contains(','),
    ensures
        scan_group(p, k, depth, bounds) matches Some(r) ==> r.len() == bounds.len() + 1,
    decreases p.len() - k,
{
    if k < 0 || k >= p.len() {
    } else {
        assert(p.contains(p[k]) ==> p[k] != ',');
        if p[k] == '\\' {
            if k + 1 < p.len() {
                lemma_scan_group_no_comma(p, k + 2, depth, bounds);
            }
        } else if p[k] == '{' {
            lemma_scan_group_no_comma(p, k + 1, depth + 1, bounds);
        } else if p[k] == '}' {
            if depth > 0 {
                lemma_scan_group_no_comma(p, k + 1, (depth - 1) as nat, bounds);
            }
        } else {
            lemma_scan_group_no_comma(p, k + 1, depth, bounds);
        }
    }
}

proof fn lemma_first_group_no_comma(p: Seq<char>, k: int)
    requires
        !p.contains(','),
    ensures
        first_group(p, k) is None,
    decreases p.len() - k,
{
    if 0 <= k < p.len() {
        if p[k] == '\\' {
            if k + 1 < p.len() {
                lemma_first_group_no_comma(p, k + 2);
            }
        } else {
            if p[k] == '{' {
                lemma_scan_group_no_comma(p, k + 1, 0, seq![k]);
                assert(group_at(p, k) is None);
            }
            lemma_first_group_no_comma(p, k + 1);
        }
    }
}

/// Braces are alternatives only where a comma separates them: a glob
/// without a comma (`{1}`, say) stands for itself, braces and all.
pub proof fn law_no_comma_no_alternatives(p: Seq<char>)
    requires
        !p.contains(','),
    ensures
        expand(p) == seq![p],
{
    lemma_first_group_no_comma(p, 0);
}

/// The regex for a glob is anchored at both ends.
pub proof fn law_regex_anchored(p: Seq<char>)
    ensures
        glob_regex(p).len() >= 2,
        glob_regex(p)[0] == '^',
        glob_regex(p).last() == '$',
{
}

/// The shape of every class token of a tokenized glob: a non-empty body,
/// a `]` only first in it, and no `!` or `^` first in a class that is not
/// negated.
pub open spec fn token_shape(t: Token) -> bool {
    match t {
        Token::Class { negate, items } => {
            &&& items.len() > 0
            &&& forall|j: int| 0 < j < items.len() ==> #[trigger] items[j] != ']'
            &&& !negate ==> items[0] != '!' && items[0] != '^'
        },
        _ => true,
    }
}

proof fn lemma_tokenize_shape(q: Seq<char>)
    ensures
        forall|i: int| 0 <= i < tokenize(q).len() ==> token_shape(#[trigger] tokenize(q)[i]),
    decreases q.len(),
{
    if q.len() > 0 {
        lemma_next_token_len(q);
        let (t, n) = next_token(q);
        let rest = q.skip(n);
        lemma_tokenize_shape(rest);
        let toks = tokenize(q);
        assert(toks == seq![t] + tokenize(rest));
        if q[0] == '[' {
            let from = class_search_from(q);
            lemma_find_close(q, from);
            let close = find_close(q, from);
            if close < q.len() {
                let items = q.subrange(class_start(q), close);
                assert forall|j: int| 0 < j < items.len() implies #[trigger] items[j] != ']' by {
                    assert(items[j] == q[class_start(q) + j]);
                    assert(from <= class_start(q) + j);
                }
                assert(items.len() > 0) by {
                    if q[class_start(q)] != ']' {
                        assert(q[from] != ']');
                    }
                }
            }
        }
        assert forall|i: int| 0 <= i < toks.len() implies token_shape(#[trigger] toks[i]) by {
            if i > 0 {
                assert(toks[i] == tokenize(rest)[i - 1]);
            }
        }
    }
}

/// Whether a class token accepts, character for character, what the class
/// of its regex accepts: the regex doubles each backslash of the body.
pub open spec fn class_alike(t: Token) -> bool {
    t matches Token::Class { items, .. } ==> forall|c: char|
        #[trigger] class_has(class_body_regex(items), c) == class_has(items, c)
}

/// Whether `**` is never followed by a `/` token: the one place where a
/// glob (`**/`, which may take no directory) and its regex (`.*/`, which
/// needs a `/`) part ways.
pub open spec fn no_dir_star(toks: Seq<Token>) -> bool {
    forall|i: int|
        0 <= i < toks.len() - 1 ==> !(#[trigger] toks[i] is GlobStar && toks[i + 1]
            == Token::Literal('/'))
}

/// The regex element that a glob token becomes.
pub open spec fn token_piece(t: Token) -> (RxAtom, bool) {
    match t {
        Token::Star => (not_slash(), true),
        Token::GlobStar => (RxAtom::Any, true),
        Token::AnyChar => (RxAtom::Any, false),
        Token::Class { negate, items } => (
            RxAtom::Class { negate, items: class_body_regex(items) },
            false,
        ),
        Token::Literal(c) => (RxAtom::Char(c), false),
    }
}

/// Whether the regex element `p` accepts one character as the token `t`
/// does, and repeats just where `t` is a star.
pub open spec fn piece_like(p: (RxAtom, bool), t: Token) -> bool {
    &&& p.1 == is_star_token(t)
    &&& forall|c: char|
        #[trigger] atom_ok(p.0, c) == if is_star_token(t) {
            t is GlobStar || c != '/'
        } else {
            char_ok(t, c)
        }
}

/// Whether `ps` are regex elements that match as the tokens `toks` do, one
/// for one.
pub open spec fn pieces_of(ps: Seq<(RxAtom, bool)>, toks: Seq<Token>) -> bool {
    &&& ps.len() == toks.len()
    &&& forall|i: int| 0 <= i < toks.len() ==> piece_like(#[trigger] ps[i], toks[i])
}

proof fn lemma_token_piece_like(t: Token)
    requires
        class_alike(t),
    ensures
        piece_like(token_piece(t), t),
{
    if t is Star {
        assert forall|c: char| #[trigger] atom_ok(not_slash(), c) == (c != '/') by {
            lemma_not_slash(c);
        }
    }
}

/// The regex of a token, followed by anything that does not start with
/// `*`, reads as that token's element.
proof fn lemma_rx_atom_token(t: Token, rest: Seq<char>)
    requires
        token_shape(t),
        rest.len() > 0 ==> rest[0] != '*',
    ensures
        ({
            let q = token_regex(t) + rest;
            let star = token_piece(t).1;
            let n = if star { token_regex(t).len() - 1 } else { token_regex(t).len() as int };
            &&& rx_atom(q) == Some((token_piece(t).0, n))
            &&& (n < q.len() && q[n] == '*') == star
        }),
{
    let x = token_regex(t);
    let q = x + rest;
    if x.len() < q.len() {
        assert(q[x.len() as int] == rest[0]);
    }
    match t {
        Token::Star => {
            assert(q[0] == '[' && q[1] == '^' && q[2] == '/' && q[3] == ']' && q[4] == '*');
            lemma_find_close_at(q, 2, 3);
            assert(q.subrange(2, 3) =~= seq!['/']);
        },
        Token::GlobStar => {
            assert(q[0] == '.' && q[1] == '*');
        },
        Token::AnyChar => {},
        Token::Class { negate, items } => {
            lemma_class_regex_close(negate, items, rest);
            assert(q[0] == '[');
        },
        Token::Literal(c) => {
            if is_regex_special(c) {
                assert(q[0] == '\\' && q[1] == c);
            } else {
                assert(q[0] == c);
            }
        },
    }
}

/// The regex of tokens of that shape reads as their elements.
proof fn lemma_rx_pieces_tokens(toks: Seq<Token>)
    requires
        forall|i: int|
            0 <= i < toks.len() ==> token_shape(#[trigger] toks[i]) && class_alike(toks[i]),
    ensures
        rx_pieces(tokens_regex(toks)) matches Some(ps) && pieces_of(ps, toks),
    decreases toks.len(),
{
    if toks.len() == 0 {
        assert(tokens_regex(toks) =~= Seq::<char>::empty());
    } else {
        let tail = toks.drop_first();
        assert forall|i: int| 0 <= i < tail.len() implies token_shape(#[trigger] tail[i])
            && class_alike(tail[i]) by {
            assert(tail[i] == toks[i + 1]);
        }
        lemma_rx_pieces_tokens(tail);
        lemma_tokens_regex_front(toks);
        let t = toks[0];
        let x = token_regex(t);
        let r = tokens_regex(tail);
        if tail.len() > 0 {
            lemma_tokens_regex_head(tail);
            lemma_token_regex_head(tail[0]);
        }
        assert(token_shape(t) && class_alike(t));
        lemma_rx_atom_token(t, r);
        lemma_token_regex_head(t);
        lemma_token_piece_like(t);
        let q = x + r;
        assert(q.skip(x.len() as int) =~= r);
        let ps = rx_pieces(r)->Some_0;
        let all = seq![token_piece(t)] + ps;
        assert(rx_pieces(q) == Some(all));
        assert forall|i: int| 0 <= i < toks.len() implies piece_like(#[trigger] all[i], toks[i]) by {
            if i > 0 {
                assert(all[i] == ps[i - 1]);
                assert(toks[i] == tail[i - 1]);
            }
        }
    }
}

/// Elements made from tokens without `**/` match as the tokens do.
proof fn lemma_match_pieces(toks: Seq<Token>, ps: Seq<(RxAtom, bool)>, s: Seq<char>)
    requires
        pieces_of(ps, toks),
        no_dir_star(toks),
    ensures
        rx_match(ps, s) == tok_match(toks, s),
        toks.len() > 0 && is_star_token(toks[0]) ==> rx_run(ps, s) == run_match(toks, s),
    decreases toks.len(), s.len(),
{
    if toks.len() > 0 {
        let t = toks[0];
        let tail = toks.drop_first();
        let pt = ps.drop_first();
        assert(piece_like(ps[0], t));
        assert(pieces_of(pt, tail)) by {
            assert forall|i: int| 0 <= i < tail.len() implies piece_like(#[trigger] pt[i], tail[i]) by {
                assert(pt[i] == ps[i + 1]);
                assert(tail[i] == toks[i + 1]);
            }
        }
        assert(no_dir_star(tail)) by {
            assert forall|i: int| 0 <= i < tail.len() - 1 implies !(#[trigger] tail[i] is GlobStar
                && tail[i + 1] == Token::Literal('/')) by {
                assert(tail[i] == toks[i + 1]);
                assert(tail[i + 1] == toks[i + 2]);
            }
        }
        lemma_match_pieces(tail, pt, s);
        if s.len() > 0 {
            let s1 = s.drop_first();
            lemma_match_pieces(toks, ps, s1);
            lemma_match_pieces(tail, pt, s1);
            assert(atom_ok(ps[0].0, s[0]) == if is_star_token(t) {
                t is GlobStar || s[0] != '/'
            } else {
                char_ok(t, s[0])
            });
        }
        if t is GlobStar {
            if toks.len() > 1 {
                assert(toks[1] != Token::Literal('/'));
            }
            assert(!slash_follows(toks));
        }
        if is_star_token(t) {
            assert(ps[0].1);
            assert(rx_match(ps, s) == rx_run(ps, s));
            assert(tok_match(toks, s) == run_match(toks, s));
        } else {
            assert(!ps[0].1);
            if s.len() > 0 {
                assert(atom_ok(ps[0].0, s[0]) == char_ok(t, s[0]));
            }
        }
    }
}

/// Whether a glob without brace alternatives has no `**/`, and each of its
/// character classes accepts what the class of its regex accepts.
pub open spec fn regex_alike(a: Seq<char>) -> bool {
    &&& no_dir_star(tokenize(a))
    &&& forall|i: int| 0 <= i < tokenize(a).len() ==> class_alike(#[trigger] tokenize(a)[i])
}

/// The regex of one alternative reads as elements that match as its tokens do.
proof fn lemma_alternative_regex_matches(a: Seq<char>, s: Seq<char>)
    requires
        regex_alike(a),
    ensures
        rx_pieces(alternative_regex(a)) is Some,
        alt_accepts(alternative_regex(a), s) == tok_match(tokenize(a), s),
{
    let toks = tokenize(a);
    lemma_tokenize_shape(a);
    lemma_rx_pieces_tokens(toks);
    let ps = rx_pieces(tokens_regex(toks))->Some_0;
    lemma_match_pieces(toks, ps, s);
}

proof fn lemma_alt_end_shift(y: Seq<char>, g: Seq<char>, j: int)
    requires
        0 <= j,
    ensures
        alt_end(y + g, y.len() + j) == y.len() + alt_end(g, j),
    decreases g.len() - j,
{
    let q = y + g;
    if j < g.len() {
        assert(q[y.len() + j] == g[j]);
        if g[j] == '\\' {
            if j + 1 < g.len() {
                lemma_alt_end_shift(y, g, j + 2);
            }
        } else if g[j] == '[' {
            assert(q.skip(y.len() + j) =~= g.skip(j));
            lemma_find_close(g.skip(j), regex_class_search_from(g.skip(j)));
            let c = find_close(g.skip(j), regex_class_search_from(g.skip(j)));
            if j + c < g.len() {
                lemma_alt_end_shift(y, g, j + c + 1);
            }
        } else if g[j] != '|' {
            lemma_alt_end_shift(y, g, j + 1);
        }
    }
}

/// Reading the alternative at the regex of a token passes over it whole.
proof fn lemma_alt_end_token(t: Token, rest: Seq<char>)
    requires
        token_shape(t),
    ensures
        alt_end(token_regex(t) + rest, 0) == token_regex(t).len() + alt_end(rest, 0),
{
    let y = token_regex(t);
    let q = y + rest;
    lemma_alt_end_shift(y, rest, 0);
    assert(q.skip(0) =~= q);
    match t {
        Token::Star => {
            assert(q[0] == '[' && q[1] == '^' && q[2] == '/' && q[3] == ']' && q[4] == '*');
            lemma_find_close_at(q, 2, 3);
            assert(alt_end(q, 4) == alt_end(q, 5));
        },
        Token::GlobStar => {
            assert(q[0] == '.' && q[1] == '*');
            assert(alt_end(q, 1) == alt_end(q, 2));
        },
        Token::AnyChar => {},
        Token::Class { negate, items } => {
            lemma_class_regex_close(negate, items, rest);
            assert(q[0] == '[');
        },
        Token::Literal(c) => {
            if is_regex_special(c) {
                assert(q[0] == '\\' && q[1] == c);
            } else {
                assert(q[0] == c);
            }
        },
    }
}

proof fn lemma_alt_end_tokens(toks: Seq<Token>, rest: Seq<char>)
    requires
        forall|i: int|
            0 <= i < toks.len() ==> token_shape(#[trigger] toks[i]),
    ensures
        alt_end(tokens_regex(toks) + rest, 0) == tokens_regex(toks).len() + alt_end(rest, 0),
    decreases toks.len(),
{
    if toks.len() == 0 {
        assert(tokens_regex(toks) =~= Seq::<char>::empty());
        assert(tokens_regex(toks) + rest =~= rest);
    } else {
        let tail = toks.drop_first();
        assert forall|i: int| 0 <= i < tail.len() implies token_shape(#[trigger] tail[i]) by {
            assert(tail[i] == toks[i + 1]);
        }
        lemma_tokens_regex_front(toks);
        let x = token_regex(toks[0]);
        let r = tokens_regex(tail);
        lemma_alt_end_tokens(tail, rest);
        assert(token_shape(toks[0]));
        lemma_alt_end_token(toks[0], r + rest);
        assert(x + r + rest =~= x + (r + rest));
    }
}

proof fn lemma_join_bars_front(xs: Seq<Seq<char>>)
    requires
        xs.len() >= 2,
    ensures
        join_bars(xs) == xs[0] + seq!['|'] + join_bars(xs.drop_first()),
    decreases xs.len(),
{
    let dl = xs.drop_last();
    if xs.len() == 2 {
        assert(dl.len() == 1 && dl[0] == xs[0]);
        assert(join_bars(dl) == xs[0]);
        assert(xs.drop_first().len() == 1 && xs.drop_first()[0] == xs[1]);
        assert(join_bars(xs.drop_first()) == xs[1]);
        assert(join_bars(xs) == join_bars(dl) + seq!['|'] + xs.last());
    } else {
        lemma_join_bars_front(dl);
        let df = xs.drop_first();
        assert(dl.drop_first() =~= df.drop_last());
        assert(df.last() == xs.last());
        assert(dl[0] == xs[0]);
        assert(join_bars(xs) == join_bars(dl) + seq!['|'] + xs.last());
        assert(join_bars(df) == join_bars(df.drop_last()) + seq!['|'] + df.last());
        assert(join_bars(xs) =~= xs[0] + seq!['|'] + join_bars(df));
    }
}

/// Joining alternatives that a reader passes over whole, and splitting the
/// result again, gives the alternatives back.
proof fn lemma_split_join(xs: Seq<Seq<char>>)
    requires
        xs.len() >= 1,
        forall|i: int, rest: Seq<char>|
            0 <= i < xs.len() ==> #[trigger] alt_end(xs[i] + rest, 0) == xs[i].len() + alt_end(
                rest,
                0,
            ),
    ensures
        split_alts(join_bars(xs)) == xs,
    decreases xs.len(),
{
    let x0 = xs[0];
    if xs.len() == 1 {
        assert(alt_end(x0 + Seq::<char>::empty(), 0) == x0.len() + alt_end(Seq::<char>::empty(), 0));
        assert(x0 + Seq::<char>::empty() =~= x0);
        assert(split_alts(x0) =~= seq![x0]);
        assert(xs =~= seq![x0]);
    } else {
        let tail = xs.drop_first();
        assert forall|i: int, rest: Seq<char>| 0 <= i < tail.len() implies #[trigger] alt_end(
            tail[i] + rest,
            0,
        ) == tail[i].len() + alt_end(rest, 0) by {
            assert(tail[i] == xs[i + 1]);
            assert(alt_end(xs[i + 1] + rest, 0) == xs[i + 1].len() + alt_end(rest, 0));
        }
        lemma_split_join(tail);
        lemma_join_bars_front(xs);
        let jt = join_bars(tail);
        let bar = seq!['|'] + jt;
        let j = join_bars(xs);
        assert(j =~= x0 + bar);
        assert(alt_end(x0 + bar, 0) == x0.len() + alt_end(bar, 0));
        assert(bar[0] == '|');
        assert(alt_end(bar, 0) == 0);
        assert(j.take(x0.len() as int) =~= x0);
        assert(j.skip(x0.len() as int + 1) =~= jt);
        assert(split_alts(j) =~= seq![x0] + tail);
        assert(seq![x0] + tail =~= xs);
    }
}

proof fn lemma_expand_nonempty(p: Seq<char>)
    ensures
        expand(p).len() >= 1,
    decreases p.len(),
{
    if let Some(b) = first_group(p, 0) {
        lemma_first_group(p, 0);
        lemma_alternative_shorter(p, b, 0);
        lemma_expand_nonempty(alternative(p, b, 0));
        assert(expand(p) == expand_group(p, b, 0));
        assert(expand_group(p, b, 0) == expand(alternative(p, b, 0)) + expand_group(p, b, 1));
    }
}

/// glob -> regex keeps the matches.
///
/// The regex `glob_to_regex` writes for a glob, with its brace
/// alternatives as a group of alternatives, matches exactly the texts that
/// the glob matches, as long as no alternative has `**/` (which may take
/// no directory where the regex's `.*/` needs one) or a character class
/// that the regex's doubled backslashes give another meaning (`[a-\]`).
pub proof fn law_regex_matches_as_glob(p: Seq<char>, s: Seq<char>)
    requires
        forall|k: int| 0 <= k < expand(p).len() ==> regex_alike(#[trigger] expand(p)[k]),
    ensures
        regex_accepts(glob_regex(p), s) == glob_accepts(p, s),
{
    let alts = expand(p);
    lemma_expand_nonempty(p);
    let r = glob_regex(p);
    assert forall|k: int| 0 <= k < alts.len() implies alt_accepts(
        alternative_regex(#[trigger] alts[k]),
        s,
    ) == tok_match(tokenize(alts[k]), s) by {
        lemma_alternative_regex_matches(alts[k], s);
    }
    if alts.len() == 1 {
        let body = alternative_regex(alts[0]);
        assert(r == seq!['^'] + body + seq!['$']);
        assert(r.subrange(1, r.len() - 1) =~= body);
        let toks = tokenize(alts[0]);
        if toks.len() > 0 {
            lemma_tokens_regex_head(toks);
            lemma_token_regex_head(toks[0]);
        } else {
            assert(body =~= Seq::<char>::empty());
        }
        assert(!is_group(body));
        if glob_accepts(p, s) {
            let k = choose|k: int| 0 <= k < alts.len() && tok_match(tokenize(#[trigger] alts[k]), s);
            assert(k == 0);
        }
        if tok_match(tokenize(alts[0]), s) {
            assert(0 <= 0 < alts.len() && tok_match(tokenize(alts[0]), s));
        }
    } else {
        let xs = alts.map_values(|a: Seq<char>| alternative_regex(a));
        let j = alternatives_regex(alts);
        assert(j == join_bars(xs));
        let body = seq!['(', '?', ':'] + j + seq![')'];
        assert(r =~= seq!['^'] + body + seq!['$']);
        assert(r.subrange(1, r.len() - 1) =~= body);
        assert(is_group(body));
        assert(body.subrange(3, body.len() - 1) =~= j);
        assert forall|i: int, rest: Seq<char>| 0 <= i < xs.len() implies #[trigger] alt_end(
            xs[i] + rest,
            0,
        ) == xs[i].len() + alt_end(rest, 0) by {
            assert(xs[i] == alternative_regex(alts[i]));
            assert(regex_alike(alts[i]));
            lemma_tokenize_shape(alts[i]);
            lemma_alt_end_tokens(tokenize(alts[i]), rest);
        }
        lemma_split_join(xs);
        let sp = split_alts(j);
        assert(sp == xs);
        if glob_accepts(p, s) {
            let k = choose|k: int| 0 <= k < alts.len() && tok_match(tokenize(#[trigger] alts[k]), s);
            assert(sp[k] == alternative_regex(alts[k]));
            assert(alt_accepts(sp[k], s));
        }
        if exists|k: int| 0 <= k < sp.len() && alt_accepts(#[trigger] sp[k], s) {
            let k = choose|k: int| 0 <= k < sp.len() && alt_accepts(#[trigger] sp[k], s);
            assert(sp[k] == alternative_regex(alts[k]));
            assert(tok_match(tokenize(alts[k]), s));
        }
    }
}

/// Whether the repeated element `ps[0]` can take the first `k` characters
/// of `s` with the other elements matching the rest.
pub open spec fn run_takes(ps: Seq<(RxAtom, bool)>, s: Seq<char>, k: int) -> bool {
    &&& 0 <= k <= s.len()
    &&& forall|j: int| 0 <= j < k ==> atom_ok(ps[0].0, #[trigger] s[j])
    &&& rx_match(ps.drop_first(), s.skip(k))
}

proof fn lemma_rx_run(ps: Seq<(RxAtom, bool)>, s: Seq<char>)
    requires
        ps.len() > 0,
    ensures
        rx_run(ps, s) <==> exists|k: int| run_takes(ps, s, k),
    decreases s.len(),
{
    assert(s.skip(0) =~= s);
    if s.len() > 0 {
        let t = s.drop_first();
        lemma_rx_run(ps, t);
        if rx_run(ps, s) {
            if !rx_match(ps.drop_first(), s) {
                let k = choose|k: int| run_takes(ps, t, k);
                assert(t.skip(k) =~= s.skip(k + 1));
                assert forall|j: int| 0 <= j < k + 1 implies atom_ok(ps[0].0, #[trigger] s[j]) by {
                    if j > 0 {
                        assert(s[j] == t[j - 1]);
                    }
                }
                assert(run_takes(ps, s, k + 1));
            } else {
                assert(run_takes(ps, s, 0));
            }
        }
        if exists|k: int| run_takes(ps, s, k) {
            let k = choose|k: int| run_takes(ps, s, k);
            if k > 0 {
                assert(t.skip(k - 1) =~= s.skip(k));
                assert(atom_ok(ps[0].0, s[0]));
                assert forall|j: int| 0 <= j < k - 1 implies atom_ok(ps[0].0, #[trigger] t[j]) by {
                    assert(t[j] == s[j + 1]);
                }
                assert(run_takes(ps, t, k - 1));
            }
        }
    } else {
        if rx_run(ps, s) {
            assert(run_takes(ps, s, 0));
        }
        if exists|k: int| run_takes(ps, s, k) {
            let k = choose|k: int| run_takes(ps, s, k);
            assert(k == 0);
        }
    }
}

/// Elements that match alike keep doing so behind the same element.
proof fn lemma_rx_congruent(
    p: (RxAtom, bool),
    x: Seq<(RxAtom, bool)>,
    y: Seq<(RxAtom, bool)>,
    s: Seq<char>,
)
    requires
        forall|t: Seq<char>| #[trigger] rx_match(x, t) == rx_match(y, t),
    ensures
        rx_match(seq![p] + x, s) == rx_match(seq![p] + y, s),
        rx_run(seq![p] + x, s) == rx_run(seq![p] + y, s),
    decreases s.len(),
{
    assert((seq![p] + x).drop_first() =~= x);
    assert((seq![p] + y).drop_first() =~= y);
    assert((seq![p] + x)[0] == p);
    assert((seq![p] + y)[0] == p);
    assert(rx_match(x, s) == rx_match(y, s));
    if s.len() > 0 {
        lemma_rx_congruent(p, x, y, s.drop_first());
        assert(rx_match(x, s.drop_first()) == rx_match(y, s.drop_first()));
    }
    if p.1 {
        assert(rx_match(seq![p] + x, s) == rx_run(seq![p] + x, s));
        assert(rx_match(seq![p] + y, s) == rx_run(seq![p] + y, s));
    } else if s.len() > 0 {
        assert(rx_match(seq![p] + x, s) == (atom_ok(p.0, s[0]) && rx_match(x, s.drop_first())));
        assert(rx_match(seq![p] + y, s) == (atom_ok(p.0, s[0]) && rx_match(y, s.drop_first())));
    }
}

/// The element of `[^/]`.
pub open spec fn not_slash() -> RxAtom {
    RxAtom::Class { negate: true, items: seq!['/'] }
}

proof fn lemma_not_slash(c: char)
    ensures
        atom_ok(not_slash(), c) == (c != '/'),
{
    let one = seq!['/'];
    assert(one.len() == 1 && one[0] == '/');
    let none = one.skip(1);
    assert(none.len() == 0);
    assert(!class_has(none, c));
}

/// Whether `a` is what a glob star can stand for: `.` or `[^/]`.
pub open spec fn star_atom(a: RxAtom) -> bool {
    a is Any || a == not_slash()
}

/// One repeated element for two repeated star elements in a row.
pub open spec fn merged(a: RxAtom, b: RxAtom) -> RxAtom {
    if a is Any || b is Any { RxAtom::Any } else { not_slash() }
}

/// Two repeated star elements in a row match as one.
proof fn lemma_collapse(a: RxAtom, b: RxAtom, rest: Seq<(RxAtom, bool)>, s: Seq<char>)
    requires
        star_atom(a),
        star_atom(b),
    ensures
        rx_match(seq![(a, true), (b, true)] + rest, s) == rx_match(
            seq![(merged(a, b), true)] + rest,
            s,
        ),
{
    let m = merged(a, b);
    let two = seq![(a, true), (b, true)] + rest;
    let brest = seq![(b, true)] + rest;
    let one = seq![(m, true)] + rest;
    assert(two.drop_first() =~= brest);
    assert(brest.drop_first() =~= rest);
    assert(one.drop_first() =~= rest);
    assert(two[0] == (a, true));
    assert(brest[0] == (b, true));
    assert(one[0] == (m, true));
    lemma_rx_run(two, s);
    lemma_rx_run(one, s);
    assert forall|c: char| atom_ok(a, c) implies atom_ok(m, c) by {
        lemma_not_slash(c);
    }
    assert forall|c: char| atom_ok(b, c) implies atom_ok(m, c) by {
        lemma_not_slash(c);
    }
    if rx_match(two, s) {
        let k1 = choose|k: int| run_takes(two, s, k);
        let t = s.skip(k1);
        lemma_rx_run(brest, t);
        let k2 = choose|k: int| run_takes(brest, t, k);
        assert(t.skip(k2) =~= s.skip(k1 + k2));
        assert forall|j: int| 0 <= j < k1 + k2 implies atom_ok(m, #[trigger] s[j]) by {
            if j >= k1 {
                assert(s[j] == t[j - k1]);
            }
        }
        assert(run_takes(one, s, k1 + k2));
    }
    if rx_match(one, s) {
        let k = choose|k: int| run_takes(one, s, k);
        if a is Any || m == not_slash() {
            let t = s.skip(k);
            lemma_rx_run(brest, t);
            assert(t.skip(0) =~= t);
            assert(run_takes(brest, t, 0));
            assert forall|j: int| 0 <= j < k implies atom_ok(a, #[trigger] s[j]) by {
                lemma_not_slash(s[j]);
            }
            assert(run_takes(two, s, k));
        } else {
            assert(b is Any);
            lemma_rx_run(brest, s);
            assert(run_takes(brest, s, k));
            assert(s.skip(0) =~= s);
            assert(run_takes(two, s, 0));
        }
    }
}

/// The element a star run of a regex stands for.
pub open spec fn run_atom(q: Seq<char>, k: int) -> RxAtom {
    if star_elements_cross(q, k) { RxAtom::Any } else { not_slash() }
}

/// A run of star elements reads as repeated star elements that match as
/// one.
proof fn lemma_star_run_pieces(q: Seq<char>, k: int)
    requires
        0 <= k < q.len(),
        star_element_len(q, k) > 0,
        rx_pieces(q.skip(star_elements_end(q, k))) is Some,
    ensures
        rx_pieces(q.skip(k)) is Some,
        forall|s: Seq<char>|
            #[trigger] rx_match(rx_pieces(q.skip(k))->Some_0, s) == rx_match(
                seq![(run_atom(q, k), true)] + rx_pieces(q.skip(star_elements_end(q, k)))->Some_0,
                s,
            ),
    decreases q.len() - k,
{
    let l = star_element_len(q, k);
    let next = k + l;
    let qk = q.skip(k);
    let a = if l == 2 { RxAtom::Any } else { not_slash() };
    lemma_star_elements_end(q, next);
    if l == 5 {
        assert(qk[0] == '[' && qk[1] == '^' && qk[2] == '/' && qk[3] == ']' && qk[4] == '*');
        lemma_find_close_at(qk, 2, 3);
        assert(qk.subrange(2, 3) =~= seq!['/']);
    } else {
        assert(qk[0] == '.' && qk[1] == '*');
    }
    lemma_rx_atom_len(qk);
    assert(rx_atom(qk) == Some((a, l - 1)));
    assert(qk.skip(l) =~= q.skip(next));
    let rest = rx_pieces(q.skip(star_elements_end(q, k)))->Some_0;
    if next < q.len() && star_element_len(q, next) > 0 {
        lemma_star_run_pieces(q, next);
        let ps1 = rx_pieces(q.skip(next))->Some_0;
        assert(rx_pieces(qk) == Some(seq![(a, true)] + ps1));
        let m = run_atom(q, next);
        assert(star_atom(m));
        assert(run_atom(q, k) == merged(a, m));
        assert forall|s: Seq<char>| #[trigger] rx_match(rx_pieces(qk)->Some_0, s) == rx_match(
            seq![(run_atom(q, k), true)] + rest,
            s,
        ) by {
            let y = seq![(m, true)] + rest;
            lemma_rx_congruent((a, true), ps1, y, s);
            lemma_collapse(a, m, rest, s);
            assert(seq![(a, true)] + y =~= seq![(a, true), (m, true)] + rest);
        }
    } else {
        assert(star_elements_end(q, next) == next);
        assert(star_elements_end(q, k) == next);
        assert(!star_elements_cross(q, next));
        assert(run_atom(q, k) == a);
    }
}

/// A class that starts with the range `]-!`, which holds nothing, accepts
/// what the rest of it accepts.
proof fn lemma_class_has_empty_range(items: Seq<char>, c: char)
    ensures
        class_has(seq![']', '-', '!'] + items, c) == class_has(items, c),
{
    let g = seq![']', '-', '!'] + items;
    assert(g[0] == ']' && g[1] == '-' && g[2] == '!');
    assert(g.skip(3) =~= items);
}

/// Whatever `regex_to_glob` turns a regex into is a glob whose tokens
/// match as the regex's elements do, star runs taken as one.
#[verifier::spinoff_prover]
#[verifier::rlimit(40)]
proof fn lemma_regex_glob_tokens(q: Seq<char>) -> (ps2: Seq<(RxAtom, bool)>)
    requires
        regex_body_glob(q) is Ok,
    ensures
        rx_pieces(q) is Some,
        pieces_of(ps2, tokenize(regex_body_glob(q)->Ok_0)),
        forall|s: Seq<char>| #[trigger] rx_match(rx_pieces(q)->Some_0, s) == rx_match(ps2, s),
        tokens_glob(tokenize(regex_body_glob(q)->Ok_0)) == regex_body_glob(q)->Ok_0,
        q.len() > 0 ==> regex_body_glob(q)->Ok_0.len() > 0 && (regex_body_glob(q)->Ok_0[0] == '*'
            <==> star_element_len(q, 0) > 0),
    decreases q.len(),
{
    let g = regex_body_glob(q)->Ok_0;
    if q.len() == 0 {
        assert(g =~= Seq::<char>::empty());
        assert(tokenize(g) =~= Seq::<Token>::empty());
        assert(tokens_glob(tokenize(g)) =~= Seq::<char>::empty());
        Seq::empty()
    } else {
        lemma_regex_step_len(q);
        let (piece, n) = regex_step(q)->Ok_0;
        let rq = q.skip(n);
        let g1 = regex_body_glob(rq)->Ok_0;
        assert(g == piece + g1);
        let ps1 = lemma_regex_glob_tokens(rq);
        let rest = rx_pieces(rq)->Some_0;
        let toks1 = tokenize(g1);
        let close = find_close(q, regex_class_search_from(q));
        let sub = q.subrange(regex_class_start(q), close);
        let tok = if star_element_len(q, 0) > 0 {
            if star_elements_cross(q, 0) { Token::GlobStar } else { Token::Star }
        } else if q[0] == '.' {
            Token::AnyChar
        } else if q[0] == '\\' {
            Token::Literal(q[1])
        } else if q[0] == '[' && close < q.len() {
            Token::Class {
                negate: regex_class_negated(q),
                items: if glob_class_head(q).len() == 3 { seq![']', '-', '!'] + sub } else { sub },
            }
        } else {
            Token::Literal(q[0])
        };
        let p0 = if star_element_len(q, 0) > 0 {
            (run_atom(q, 0), true)
        } else {
            (rx_atom(q)->Some_0.0, false)
        };
        if star_element_len(q, 0) > 0 {
            assert(token_glob(tok) == piece);
            lemma_star_elements_end(q, 0);
            assert(q.skip(0) =~= q);
            if rq.len() > 0 {
                assert(star_element_len(q, n) == 0);
                assert forall|i: int| 0 <= i < rq.len() implies rq[i] == q[n + i] by {}
                assert(star_element_len(rq, 0) == 0);
                assert(g1[0] != '*');
            }
            lemma_star_run_pieces(q, 0);
            assert forall|c: char| #[trigger] atom_ok(p0.0, c) == (tok is GlobStar || c != '/') by {
                lemma_not_slash(c);
            }
            assert forall|s: Seq<char>| #[trigger] rx_match(rx_pieces(q)->Some_0, s) == rx_match(
                seq![p0] + ps1,
                s,
            ) by {
                lemma_rx_congruent(p0, rest, ps1, s);
            }
        } else {
            // one element, which no `*` follows
            if n < q.len() {
                if rq[0] == '*' {
                    assert(star_element_len(rq, 0) == 0);
                    assert(regex_step(rq) == Err::<(Seq<char>, int), Seq<char>>(msg_no_glob_form('*')));
                    assert(false);
                }
                assert(q[n] == rq[0]);
            }
            if q[0] == '[' {
                let from = regex_class_search_from(q);
                lemma_find_close(q, from);
                assert forall|j: int| 0 < j < sub.len() implies #[trigger] sub[j] != ']' by {
                    assert(sub[j] == q[regex_class_start(q) + j]);
                    assert(from <= regex_class_start(q) + j);
                }
                assert(sub.len() > 0) by {
                    if q[regex_class_start(q)] != ']' {
                        assert(q[from] != ']');
                    }
                }
                assert(sub[0] == q[regex_class_start(q)]);
                if !regex_class_negated(q) {
                    assert(q[1] != '^');
                }
                if let Token::Class { negate, items } = tok {
                    assert forall|c: char| #[trigger] atom_ok(p0.0, c) == char_ok(tok, c) by {
                        lemma_class_has_empty_range(sub, c);
                    }
                    if glob_class_head(q).len() == 3 {
                        assert forall|j: int| 0 < j < items.len() implies #[trigger] items[j] != ']' by {
                            if j >= 3 {
                                assert(items[j] == sub[j - 3]);
                            }
                        }
                    }
                    assert(token_glob(tok) == piece);
                }
            } else {
                assert(token_glob(tok) == piece);
            }
            assert(rx_atom(q) == Some((p0.0, n)));
            assert(rx_pieces(q) == Some(seq![p0] + rest));
            assert forall|s: Seq<char>| #[trigger] rx_match(rx_pieces(q)->Some_0, s) == rx_match(
                seq![p0] + ps1,
                s,
            ) by {
                lemma_rx_congruent(p0, rest, ps1, s);
            }
        }
        assert(piece_like(p0, tok));
        assert(token_shape(tok));
        lemma_next_token_glob(tok, g1);
        assert((piece + g1).skip(piece.len() as int) =~= g1);
        assert(piece.len() > 0);
        let toks = tokenize(g);
        assert(toks == seq![tok] + toks1);
        assert(toks.drop_first() =~= toks1);
        lemma_tokens_glob_front(toks);
        let ps2 = seq![p0] + ps1;
        assert forall|i: int| 0 <= i < toks.len() implies piece_like(#[trigger] ps2[i], toks[i]) by {
            if i > 0 {
                assert(ps2[i] == ps1[i - 1]);
                assert(toks[i] == toks1[i - 1]);
            }
        }
        ps2
    }
}

/// regex -> glob keeps the matches.
///
/// Whenever `regex_to_glob` gives a glob for an anchored regex `^q$`, that
/// regex reads as a regex of elements, the glob has no brace alternatives,
/// and, unless the glob has a `**/` (which may take no directory where the
/// regex's `.*/` needs one), it matches exactly the texts that the regex
/// matches.
pub proof fn law_glob_matches_as_regex(q: Seq<char>, s: Seq<char>)
    requires
        regex_glob(seq!['^'] + q + seq!['$']) is Ok,
        no_dir_star(tokenize(regex_glob(seq!['^'] + q + seq!['$'])->Ok_0)),
    ensures
        rx_pieces(q) is Some,
        expand(regex_glob(seq!['^'] + q + seq!['$'])->Ok_0) == seq![
            regex_glob(seq!['^'] + q + seq!['$'])->Ok_0,
        ],
        glob_accepts(regex_glob(seq!['^'] + q + seq!['$'])->Ok_0, s) == regex_accepts(
            seq!['^'] + q + seq!['$'],
            s,
        ),
{
    let r = seq!['^'] + q + seq!['$'];
    assert(strip_anchors(r) =~= q);
    assert(r.subrange(1, r.len() - 1) =~= q);
    let g = regex_glob(r)->Ok_0;
    let ps2 = lemma_regex_glob_tokens(q);
    let toks = tokenize(g);
    assert(first_group(g, 0) is None);
    assert(expand(g) == seq![g]);
    assert(expand(g)[0] == g);
    lemma_match_pieces(toks, ps2, s);
    assert(rx_match(rx_pieces(q)->Some_0, s) == rx_match(ps2, s));
    if q.len() > 0 && q[0] == '(' {
        assert(star_element_len(q, 0) == 0);
        assert(regex_step(q) == Err::<(Seq<char>, int), Seq<char>>(msg_no_glob_form('(')));
        assert(false);
    }
    assert(!is_group(q));
}

} // verus!
