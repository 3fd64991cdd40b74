//! What a regex matches, for the regexes this library writes and reads:
//! anchored at both ends, made of elements (`.`, a character class
//! `[..]` or `[^..]`, an escaped character `\x`, a plain character) each
//! of which may be repeated with `*`, or a non-capturing group `(?:..|..)`
//! of alternatives made so. Inside a class a backslash stands
//! for itself, a `]` first in the class is an item, and `a-z` is a range,
//! as in a POSIX bracket expression.
use vstd::prelude::*;

use crate::glob::{class_has, find_close, lemma_find_close};
use crate::to_glob::{regex_class_negated, regex_class_search_from, regex_class_start};

verus! {

/// What one regex element accepts.
pub enum RxAtom {
    /// `.`: any character.
    Any,
    /// `[..]` or `[^..]`.
    Class { negate: bool, items: Seq<char> },
    /// A character matched as itself.
    Char(char),
}

/// The regex operators that are no element of their own.
pub open spec fn is_regex_operator(c: char) -> bool {
    c == '*' || c == '+' || c == '?' || c == '(' || c == ')' || c == '{' || c == '}' || c == '|'
        || c == '^' || c == '$'
}

/// Whether the element `a` accepts `c`.
pub open spec fn atom_ok(a: RxAtom, c: char) -> bool {
    match a {
        RxAtom::Any => true,
        RxAtom::Class { negate, items } => class_has(items, c) != negate,
        RxAtom::Char(d) => d == c,
    }
}

/// The first element of the non-empty regex `q` and how many characters
/// it takes, or `None` where `q` does not start with one.
pub open spec fn rx_atom(q: Seq<char>) -> Option<(RxAtom, int)>
    recommends
        q.len() > 0,
{
    let c = q[0];
    if c == '.' {
        Some((RxAtom::Any, 1))
    } else if c == '\\' {
        if q.len() < 2 {
            None
        } else {
            Some((RxAtom::Char(q[1]), 2))
        }
    } else if c == '[' {
        let close = find_close(q, regex_class_search_from(q));
        if close < q.len() {
            Some(
                (
                    RxAtom::Class {
                        negate: regex_class_negated(q),
                        items: q.subrange(regex_class_start(q), close),
                    },
                    close + 1,
                ),
            )
        } else {
            None
        }
    } else if is_regex_operator(c) {
        None
    } else {
        Some((RxAtom::Char(c), 1))
    }
}

pub proof fn lemma_rx_atom_len(q: Seq<char>)
    requires
        q.len() > 0,
    ensures
        rx_atom(q) matches Some((_, n)) ==> 1 <= n <= q.len(),
{
    if q[0] == '[' {
        lemma_find_close(q, regex_class_search_from(q));
    }
}

/// The elements of the unanchored regex `q`, each with whether it is
/// repeated by `*`; `None` where `q` is not a sequence of elements.
pub open spec fn rx_pieces(q: Seq<char>) -> Option<Seq<(RxAtom, bool)>>
    decreases q.len(),
{
    if q.len() == 0 {
        Some(Seq::empty())
    } else {
        proof {
            lemma_rx_atom_len(q);
        }
        match rx_atom(q) {
            None => None,
            Some((a, n)) => {
                let star = n < q.len() && q[n] == '*';
                let m = if star { n + 1 } else { n };
                match rx_pieces(q.skip(m)) {
                    Some(ps) => Some(seq![(a, star)] + ps),
                    None => None,
                }
            },
        }
    }
}

/// Whether the repeated element `ps[0]` can take a run at the front of `s`
/// after which the other elements match what is left.
pub open spec fn rx_run(ps: Seq<(RxAtom, bool)>, s: Seq<char>) -> bool
    decreases ps.len(), s.len(), 0int,
{
    if ps.len() == 0 {
        false
    } else {
        rx_match(ps.drop_first(), s) || (s.len() > 0 && atom_ok(ps[0].0, s[0]) && rx_run(
            ps,
            s.drop_first(),
        ))
    }
}

/// Whether the elements `ps` match the whole of `s`.
pub open spec fn rx_match(ps: Seq<(RxAtom, bool)>, s: Seq<char>) -> bool
    decreases ps.len(), s.len(), 1int,
{
    if ps.len() == 0 {
        s.len() == 0
    } else if ps[0].1 {
        rx_run(ps, s)
    } else {
        s.len() > 0 && atom_ok(ps[0].0, s[0]) && rx_match(ps.drop_first(), s.drop_first())
    }
}

/// Where the alternative of `q` that is being read at `k` ends: at the
/// next `|` outside an escape or a class, or at the end of `q`.
pub open spec fn alt_end(q: Seq<char>, k: int) -> int
    decreases q.len() - k,
{
    if k < 0 || k >= q.len() {
        q.len() as int
    } else if q[k] == '|' {
        k
    } else if q[k] == '\\' {
        if k + 1 < q.len() {
            alt_end(q, k + 2)
        } else {
            q.len() as int
        }
    } else if q[k] == '[' {
        let c = find_close(q.skip(k), regex_class_search_from(q.skip(k)));
        proof {
            lemma_find_close(q.skip(k), regex_class_search_from(q.skip(k)));
        }
        if k + c < q.len() {
            alt_end(q, k + c + 1)
        } else {
            q.len() as int
        }
    } else {
        alt_end(q, k + 1)
    }
}

pub proof fn lemma_alt_end(q: Seq<char>, k: int)
    requires
        0 <= k,
    ensures
        k <= alt_end(q, k) <= q.len() || alt_end(q, k) == q.len(),
        alt_end(q, k) <= q.len(),
    decreases q.len() - k,
{
    if 0 <= k < q.len() && q[k] != '|' {
        if q[k] == '\\' {
            if k + 1 < q.len() {
                lemma_alt_end(q, k + 2);
            }
        } else if q[k] == '[' {
            lemma_find_close(q.skip(k), regex_class_search_from(q.skip(k)));
            let c = find_close(q.skip(k), regex_class_search_from(q.skip(k)));
            if k + c < q.len() {
                lemma_alt_end(q, k + c + 1);
            }
        } else {
            lemma_alt_end(q, k + 1);
        }
    }
}

/// The alternatives of `q`, split at each `|` outside an escape or a class.
pub open spec fn split_alts(q: Seq<char>) -> Seq<Seq<char>>
    decreases q.len(),
{
    let e = alt_end(q, 0);
    proof {
        lemma_alt_end(q, 0);
    }
    if e >= q.len() {
        seq![q]
    } else {
        seq![q.take(e)] + split_alts(q.skip(e + 1))
    }
}

/// Whether the body of a regex is a group of alternatives `(?:..)`.
pub open spec fn is_group(body: Seq<char>) -> bool {
    body.len() >= 4 && body[0] == '(' && body[1] == '?' && body[2] == ':' && body.last() == ')'
}

/// Whether the elements of `alt` match the whole of `s`.
pub open spec fn alt_accepts(alt: Seq<char>, s: Seq<char>) -> bool {
    match rx_pieces(alt) {
        Some(ps) => rx_match(ps, s),
        None => false,
    }
}

/// Whether the regex `r`, anchored by `^` and `$`, made of elements or of
/// a group of alternatives made of elements (see the module's
/// description), matches the whole of `s`; false for any other `r`.
pub open spec fn regex_accepts(r: Seq<char>, s: Seq<char>) -> bool {
    &&& r.len() >= 2
    &&& r[0] == '^'
    &&& r.last() == '$'
    &&& {
        let body = r.subrange(1, r.len() - 1);
        if is_group(body) {
            let alts = split_alts(body.subrange(3, body.len() - 1));
            exists|k: int| 0 <= k < alts.len() && alt_accepts(#[trigger] alts[k], s)
        } else {
            alt_accepts(body, s)
        }
    }
}

} // verus!
