//! Brace alternatives: `{a,b,c}` in a glob stands for each of its
//! alternatives in turn, expanded as a shell does before the rest of the
//! pattern is read. Groups nest, a backslash keeps the next character from
//! being read as a brace or comma, and a brace pair without a comma at its
//! own level is no group.
use vstd::prelude::*;

verus! {

/// Scans the inside of a brace group from `k`, `depth` groups deeper than
/// the group itself, with `bounds` the positions of its opening brace and of
/// its commas seen so far. Gives the positions of the opening brace, of every
/// comma at the group's own level, and of the closing brace; `None` if the
/// group is never closed.
pub open spec fn scan_group(p: Seq<char>, k: int, depth: nat, bounds: Seq<int>) -> Option<Seq<int>>
    decreases p.len() - k,
{
    if k < 0 || k >= p.len() {
        None
    } else if p[k] == '\\' {
        if k + 1 < p.len() { scan_group(p, k + 2, depth, bounds) } else { None }
    } else if p[k] == '{' {
        scan_group(p, k + 1, depth + 1, bounds)
    } else if p[k] == '}' {
        if depth == 0 {
            Some(bounds.push(k))
        } else {
            scan_group(p, k + 1, (depth - 1) as nat, bounds)
        }
    } else if p[k] == ',' && depth == 0 {
        scan_group(p, k + 1, depth, bounds.push(k))
    } else {
        scan_group(p, k + 1, depth, bounds)
    }
}

/// The bounds of the brace group that opens at `i`, if it is closed and has
/// at least one comma at its own level.
pub open spec fn group_at(p: Seq<char>, i: int) -> Option<Seq<int>> {
    match scan_group(p, i + 1, 0, seq![i]) {
        Some(b) => if b.len() >= 3 { Some(b) } else { None },
        None => None,
    }
}

/// The first brace group at or after `k`, skipping escaped characters.
pub open spec fn first_group(p: Seq<char>, k: int) -> Option<Seq<int>>
    decreases p.len() - k,
{
    if k < 0 || k >= p.len() {
        None
    } else if p[k] == '\\' {
        if k + 1 < p.len() { first_group(p, k + 2) } else { None }
    } else if p[k] == '{' && group_at(p, k) is Some {
        group_at(p, k)
    } else {
        first_group(p, k + 1)
    }
}

pub open spec fn increasing(b: Seq<int>) -> bool {
    forall|x: int, y: int| 0 <= x < y < b.len() ==> b[x] < b[y]
}

/// The pattern with the group bounded by `b` replaced by its alternative `t`.
pub open spec fn alternative(p: Seq<char>, b: Seq<int>, t: int) -> Seq<char> {
    p.take(b[0]) + p.subrange(b[t] + 1, b[t + 1]) + p.skip(b.last() + 1)
}

pub proof fn lemma_scan_group(p: Seq<char>, k: int, depth: nat, bounds: Seq<int>)
    requires
        0 <= k,
        increasing(bounds),
        bounds.len() > 0,
        bounds.last() < k,
        0 <= bounds[0],
    ensures
        scan_group(p, k, depth, bounds) matches Some(r) ==> {
            &&& r.len() > bounds.len()
            &&& r.take(bounds.len() as int) == bounds
            &&& increasing(r)
            &&& r.last() < p.len()
            &&& p[r.last()] == '}'
        },
    decreases p.len() - k,
{
    if k < 0 || k >= p.len() {
    } else if p[k] == '\\' {
        if k + 1 < p.len() {
            lemma_scan_group(p, k + 2, depth, bounds);
        }
    } else if p[k] == '{' {
        lemma_scan_group(p, k + 1, depth + 1, bounds);
    } else if p[k] == '}' {
        if depth == 0 {
            assert(bounds.push(k).take(bounds.len() as int) =~= bounds);
        } else {
            lemma_scan_group(p, k + 1, (depth - 1) as nat, bounds);
        }
    } else if p[k] == ',' && depth == 0 {
        let nb = bounds.push(k);
        lemma_scan_group(p, k + 1, depth, nb);
        if let Some(r) = scan_group(p, k + 1, depth, nb) {
            assert(r.take(bounds.len() as int) =~= nb.take(bounds.len() as int));
            assert(nb.take(bounds.len() as int) =~= bounds);
        }
    } else {
        lemma_scan_group(p, k + 1, depth, bounds);
    }
}

pub proof fn lemma_first_group(p: Seq<char>, k: int)
    requires
        0 <= k,
    ensures
        first_group(p, k) matches Some(b) ==> {
            &&& b.len() >= 3
            &&& increasing(b)
            &&& 0 <= b[0]
            &&& b.last() < p.len()
            &&& p[b[0]] == '{'
            &&& p[b.last()] == '}'
        },
    decreases p.len() - k,
{
    if k < 0 || k >= p.len() {
    } else if p[k] == '\\' {
        if k + 1 < p.len() {
            lemma_first_group(p, k + 2);
        }
    } else if p[k] == '{' && group_at(p, k) is Some {
        lemma_scan_group(p, k + 1, 0, seq![k]);
        let b = group_at(p, k)->0;
        assert(b[0] == b.take(1)[0]);
    } else {
        lemma_first_group(p, k + 1);
    }
}

/// Each alternative of a group is shorter than the pattern it came from.
pub proof fn lemma_alternative_shorter(p: Seq<char>, b: Seq<int>, t: int)
    requires
        b.len() >= 3,
        increasing(b),
        0 <= b[0],
        b.last() < p.len(),
        0 <= t < b.len() - 1,
    ensures
        alternative(p, b, t).len() < p.len(),
{
    assert(b[0] <= b[t]);
    assert(b[t] < b[t + 1]);
    assert(b[t + 1] <= b.last());
}

/// The patterns that `p` stands for, in order.
pub open spec fn expand(p: Seq<char>) -> Seq<Seq<char>>
    decreases p.len(), 1int, 0int,
{
    match first_group(p, 0) {
        None => seq![p],
        Some(b) => expand_group(p, b, 0),
    }
}

/// The expansions of the alternatives `t..` of the group bounded by `b` in
/// `p`, where `b` bounds the first group of `p`.
pub open spec fn expand_group(p: Seq<char>, b: Seq<int>, t: int) -> Seq<Seq<char>>
    decreases p.len(), 0int, b.len() - t,
{
    if first_group(p, 0) == Some(b) && 0 <= t < b.len() - 1 {
        proof {
            lemma_first_group(p, 0);
            lemma_alternative_shorter(p, b, t);
        }
        expand(alternative(p, b, t)) + expand_group(p, b, t + 1)
    } else {
        Seq::empty()
    }
}

/// Positions held as machine integers, read as integers.
pub open spec fn ints(b: Seq<usize>) -> Seq<int> {
    b.map_values(|x: usize| x as int)
}

/// The views of a sequence of character vectors.
pub open spec fn char_views(vs: Seq<Vec<char>>) -> Seq<Seq<char>> {
    vs.map_values(|v: Vec<char>| v@)
}

proof fn lemma_ints_push(b: Seq<usize>, x: usize)
    ensures
        ints(b.push(x)) == ints(b).push(x as int),
{
    assert(ints(b.push(x)) =~= ints(b).push(x as int));
}

/// The bounds of the brace group whose opening brace is at `open`, if it is
/// ever closed: the opening brace, the commas at the group's own level, the
/// closing brace.
fn group_bounds(p: &Vec<char>, open: usize) -> (r: Option<Vec<usize>>)
    requires
        open < p.len(),
    ensures
        r matches Some(b) ==> scan_group(p@, open + 1, 0, seq![open as int]) == Some(ints(b@)),
        r is None ==> scan_group(p@, open + 1, 0, seq![open as int]) is None,
{
    let n = p.len();
    let mut bounds: Vec<usize> = Vec::new();
    bounds.push(open);
    assert(ints(bounds@) =~= seq![open as int]);
    let mut k = open + 1;
    let mut depth: usize = 0;
    while k < n
        invariant
            open < k <= n,
            n == p.len(),
            depth <= k,
            scan_group(p@, k as int, depth as nat, ints(bounds@)) == scan_group(
                p@,
                open + 1,
                0,
                seq![open as int],
            ),
        decreases n - k,
    {
        let c = p[k];
        if c == '\\' {
            if k + 1 < n {
                k += 2;
            } else {
                return None;
            }
        } else if c == '{' {
            depth += 1;
            k += 1;
        } else if c == '}' {
            if depth == 0 {
                proof {
                    lemma_ints_push(bounds@, k);
                }
                bounds.push(k);
                return Some(bounds);
            }
            depth -= 1;
            k += 1;
        } else if c == ',' && depth == 0 {
            proof {
                lemma_ints_push(bounds@, k);
            }
            bounds.push(k);
            k += 1;
        } else {
            k += 1;
        }
    }
    None
}

/// The bounds of the first brace group of `p`, if it has one.
pub fn find_group(p: &Vec<char>) -> (r: Option<Vec<usize>>)
    ensures
        r matches Some(b) ==> first_group(p@, 0) == Some(ints(b@)),
        r is None ==> first_group(p@, 0) is None,
{
    let n = p.len();
    let mut k: usize = 0;
    while k < n
        invariant
            k <= n,
            n == p.len(),
            first_group(p@, k as int) == first_group(p@, 0),
        decreases n - k,
    {
        let c = p[k];
        if c == '\\' {
            if k + 1 < n {
                k += 2;
            } else {
                return None;
            }
        } else if c == '{' {
            match group_bounds(p, k) {
                Some(b) => {
                    if b.len() >= 3 {
                        assert(ints(b@).len() == b@.len());
                        return Some(b);
                    }
                },
                None => {},
            }
            k += 1;
        } else {
            k += 1;
        }
    }
    None
}

/// The pattern `p` with its group bounded by `b` replaced by alternative `t`.
fn build_alternative(p: &Vec<char>, b: &Vec<usize>, t: usize) -> (r: Vec<char>)
    requires
        b.len() >= 3,
        increasing(ints(b@)),
        b@.last() < p.len(),
        t + 1 < b.len(),
    ensures
        r@ == alternative(p@, ints(b@), t as int),
{
    let ghost bi = ints(b@);
    assert(bi[0] <= bi[t as int] && bi[t as int] < bi[t + 1] && bi[t + 1] <= bi.last());
    let mut r: Vec<char> = Vec::new();
    let mut k: usize = 0;
    let first = b[0];
    let last = b[b.len() - 1];
    while k < first
        invariant
            k <= first,
            first < p.len(),
            r@ == p@.take(k as int),
        decreases first - k,
    {
        r.push(p[k]);
        k += 1;
        assert(r@ =~= p@.take(k as int));
    }
    let from = b[t] + 1;
    let to = b[t + 1];
    let ghost head = r@;
    k = from;
    while k < to
        invariant
            from <= k <= to,
            to < p.len(),
            head == p@.take(first as int),
            r@ == head + p@.subrange(from as int, k as int),
        decreases to - k,
    {
        r.push(p[k]);
        k += 1;
        assert(r@ =~= head + p@.subrange(from as int, k as int));
    }
    let ghost mid = r@;
    let n = p.len();
    k = last + 1;
    while k < n
        invariant
            last + 1 <= k <= n,
            n == p.len(),
            r@ == mid + p@.subrange(last + 1, k as int),
        decreases n - k,
    {
        r.push(p[k]);
        k += 1;
        assert(r@ =~= mid + p@.subrange(last + 1, k as int));
    }
    assert(p@.subrange(last + 1, n as int) =~= p@.skip(last + 1));
    r
}

/// The patterns that `p` stands for once its brace groups are expanded.
pub fn expand_braces(p: &Vec<char>) -> (r: Vec<Vec<char>>)
    ensures
        char_views(r@) == expand(p@),
    decreases p@.len(),
{
    match find_group(p) {
        None => {
            let mut r: Vec<Vec<char>> = Vec::new();
            let whole = crate::glob::copy_range(p, 0, p.len());
            assert(whole@ =~= p@);
            r.push(whole);
            assert(char_views(r@) =~= seq![p@]);
            r
        },
        Some(b) => {
            let ghost bi = ints(b@);
            proof {
                lemma_first_group(p@, 0);
            }
            let mut r: Vec<Vec<char>> = Vec::new();
            let mut t: usize = 0;
            assert(char_views(r@) =~= Seq::<Seq<char>>::empty());
            while t + 1 < b.len()
                invariant
                    bi == ints(b@),
                    first_group(p@, 0) == Some(bi),
                    bi.len() >= 3,
                    increasing(bi),
                    0 <= bi[0],
                    bi.last() < p@.len(),
                    t < b.len(),
                    char_views(r@) + expand_group(p@, bi, t as int) == expand(p@),
                decreases b.len() - t,
            {
                let alt = build_alternative(p, &b, t);
                proof {
                    lemma_alternative_shorter(p@, bi, t as int);
                }
                let mut sub = expand_braces(&alt);
                let ghost before = r@;
                r.append(&mut sub);
                assert(char_views(r@) =~= char_views(before) + expand(alt@));
                assert(expand_group(p@, bi, t as int) == expand(alt@) + expand_group(p@, bi, t + 1));
                assert(char_views(r@) + expand_group(p@, bi, t + 1) =~= char_views(before) + expand_group(p@, bi, t as int));
                t += 1;
            }
            assert(expand_group(p@, bi, t as int) == Seq::<Seq<char>>::empty());
            assert(char_views(r@) + Seq::<Seq<char>>::empty() =~= char_views(r@));
            r
        },
    }
}

} // verus!
