//! From a regex back to a glob, for the regexes that have one.
use vstd::prelude::*;

use crate::braces::{find_group, first_group};
use crate::glob::{copy_range, find_close, lemma_find_close};
use crate::text::{chars_of, push_char};

verus! {

/// The regex without one leading `^` and one trailing `$`, where it has them.
pub open spec fn strip_anchors(p: Seq<char>) -> Seq<char> {
    let p1 = if p.len() > 0 && p[0] == '^' { p.drop_first() } else { p };
    if p1.len() > 0 && p1.last() == '$' { p1.drop_last() } else { p1 }
}

/// The characters that a glob reads as syntax unless they are escaped
/// (a `{` may open brace alternatives).
pub open spec fn is_glob_special(c: char) -> bool {
    c == '*' || c == '?' || c == '[' || c == '\\' || c == '{'
}

/// `c` as a glob that matches just `c`.
pub open spec fn glob_escaped(c: char) -> Seq<char> {
    if is_glob_special(c) {
        seq!['\\', c]
    } else {
        seq![c]
    }
}

/// The regex characters that nothing in a glob can express.
pub open spec fn has_no_glob_form(c: char) -> bool {
    c == '*' || c == '+' || c == '?' || c == '(' || c == ')' || c == '{' || c == '}' || c == '|'
        || c == '^' || c == '$'
}

pub open spec fn msg_no_glob_form(c: char) -> Seq<char> {
    "no glob equivalent for '"@ + seq![c] + "'"@
}

pub open spec fn msg_trailing_backslash() -> Seq<char> {
    "trailing backslash"@
}

pub open spec fn msg_unterminated_class() -> Seq<char> {
    "unterminated character class"@
}

pub open spec fn msg_quantified_class() -> Seq<char> {
    "no glob equivalent for a quantified character class"@
}

/// Whether a regex class opened at the front of `q` is negated.
pub open spec fn regex_class_negated(q: Seq<char>) -> bool {
    q.len() > 1 && q[1] == '^'
}

/// Where the items of a regex class opened at the front of `q` start.
pub open spec fn regex_class_start(q: Seq<char>) -> int {
    if regex_class_negated(q) { 2 } else { 1 }
}

pub open spec fn msg_brace_in_class() -> Seq<char> {
    "no glob equivalent for '{' in a character class that would open alternatives"@
}

/// The length of the star element at `k` in `q`: 5 for `[^/]*`, 2 for
/// `.*`, 0 where there is none.
pub open spec fn star_element_len(q: Seq<char>, k: int) -> int {
    if 0 <= k && k + 5 <= q.len() && q[k] == '[' && q[k + 1] == '^' && q[k + 2] == '/' && q[k + 3]
        == ']' && q[k + 4] == '*' {
        5
    } else if 0 <= k && k + 2 <= q.len() && q[k] == '.' && q[k + 1] == '*' {
        2
    } else {
        0
    }
}

/// Where the run of star elements that starts at `k` ends.
pub open spec fn star_elements_end(q: Seq<char>, k: int) -> int
    decreases q.len() - k,
{
    if 0 <= k < q.len() && star_element_len(q, k) > 0 {
        star_elements_end(q, k + star_element_len(q, k))
    } else {
        k
    }
}

/// Whether the run of star elements that starts at `k` holds a `.*`, which
/// crosses `/`.
pub open spec fn star_elements_cross(q: Seq<char>, k: int) -> bool
    decreases q.len() - k,
{
    if 0 <= k < q.len() && star_element_len(q, k) > 0 {
        star_element_len(q, k) == 2 || star_elements_cross(q, k + star_element_len(q, k))
    } else {
        false
    }
}

/// Where the search for the `]` that closes a regex class opened at the
/// front of `q` starts: a `]` first in the class is an item.
pub open spec fn regex_class_search_from(q: Seq<char>) -> int {
    let start = regex_class_start(q);
    if start < q.len() && q[start] == ']' { start + 1 } else { start }
}

/// What a glob class for the regex class opened at the front of `q` starts
/// with: `!` where the regex class is negated. A `!` first in a class that
/// is not negated would negate the glob class, so there the glob class
/// starts with `]-!`, a range from `]` down to `!`, which holds nothing.
pub open spec fn glob_class_head(q: Seq<char>) -> Seq<char> {
    if regex_class_negated(q) {
        seq!['!']
    } else if q[regex_class_start(q)] == '!' {
        seq![']', '-', '!']
    } else {
        Seq::empty()
    }
}

/// The glob for the first element of the non-empty regex `q` and how many
/// characters of `q` it takes, or why there is none. A run of `[^/]*` and
/// `.*` elements becomes one `*` (none of them crosses `/`) or one `**`.
pub open spec fn regex_step(q: Seq<char>) -> Result<(Seq<char>, int), Seq<char>>
    recommends
        q.len() > 0,
{
    let c = q[0];
    if star_element_len(q, 0) > 0 {
        Ok((
            if star_elements_cross(q, 0) {
                seq!['*', '*']
            } else {
                seq!['*']
            },
            star_elements_end(q, 0),
        ))
    } else if c == '.' {
        Ok((seq!['?'], 1))
    } else if c == '\\' {
        if q.len() < 2 {
            Err(msg_trailing_backslash())
        } else {
            Ok((glob_escaped(q[1]), 2))
        }
    } else if c == '[' {
        let start = regex_class_start(q);
        let close = find_close(q, regex_class_search_from(q));
        if close >= q.len() {
            Err(msg_unterminated_class())
        } else if close + 1 < q.len() && q[close + 1] == '*' {
            Err(msg_quantified_class())
        } else {
            Ok((seq!['['] + glob_class_head(q) + q.subrange(start, close) + seq![']'], close + 1))
        }
    } else if has_no_glob_form(c) {
        Err(msg_no_glob_form(c))
    } else {
        Ok((seq![c], 1))
    }
}

pub proof fn lemma_star_elements_end(q: Seq<char>, k: int)
    requires
        0 <= k <= q.len(),
    ensures
        k <= star_elements_end(q, k) <= q.len(),
        k < q.len() && star_element_len(q, k) > 0 ==> star_elements_end(q, k) > k,
        star_elements_end(q, k) < q.len() ==> star_element_len(q, star_elements_end(q, k)) == 0,
    decreases q.len() - k,
{
    if k < q.len() && star_element_len(q, k) > 0 {
        lemma_star_elements_end(q, k + star_element_len(q, k));
    }
}

pub proof fn lemma_regex_step_len(q: Seq<char>)
    requires
        q.len() > 0,
    ensures
        regex_step(q) matches Ok((_, n)) ==> 1 <= n <= q.len(),
{
    lemma_star_elements_end(q, 0);
    if q[0] == '[' {
        lemma_find_close(q, regex_class_search_from(q));
    }
}

/// The glob for the unanchored regex `q`, or why there is none.
pub open spec fn regex_body_glob(q: Seq<char>) -> Result<Seq<char>, Seq<char>>
    decreases q.len(),
{
    if q.len() == 0 {
        Ok(Seq::empty())
    } else {
        proof {
            lemma_regex_step_len(q);
        }
        match regex_step(q) {
            Err(e) => Err(e),
            Ok((piece, n)) => match regex_body_glob(q.skip(n)) {
                Ok(rest) => Ok(piece + rest),
                Err(e) => Err(e),
            },
        }
    }
}

/// The glob for the regex `p`, or why there is none. Outside classes a `{`
/// is written `\{`, so it never opens brace alternatives; a `{` inside a
/// class may, together with a later `,` and `}`, and then the glob would
/// mean something else.
pub open spec fn regex_glob(p: Seq<char>) -> Result<Seq<char>, Seq<char>> {
    match regex_body_glob(strip_anchors(p)) {
        Ok(g) => if first_group(g, 0) is Some {
            Err(msg_brace_in_class())
        } else {
            Ok(g)
        },
        Err(e) => Err(e),
    }
}

/// What the whole regex gives, once `out` stands for the part before `rest`.
pub open spec fn prefixed(out: Seq<char>, r: Result<Seq<char>, Seq<char>>) -> Result<Seq<char>, Seq<char>> {
    match r {
        Ok(g) => Ok(out + g),
        Err(e) => Err(e),
    }
}

/// The length of the star element at `chars[j]`, reading from `chars[i]`.
fn star_element_at(chars: &Vec<char>, i: usize, j: usize) -> (r: usize)
    requires
        i <= j <= chars.len(),
    ensures
        r == star_element_len(chars@.skip(i as int), j - i),
{
    let n = chars.len();
    if n - j >= 5 && chars[j] == '[' && chars[j + 1] == '^' && chars[j + 2] == '/' && chars[j + 3]
        == ']' && chars[j + 4] == '*' {
        5
    } else if n - j >= 2 && chars[j] == '.' && chars[j + 1] == '*' {
        2
    } else {
        0
    }
}

/// Appends to `out` the glob for the element of the regex that starts at
/// `chars[i]`, and gives the index just after that element; or gives why
/// the element has no glob form.
fn glob_piece(chars: &Vec<char>, i: usize, out: &mut String) -> (r: Result<usize, String>)
    requires
        i < chars.len(),
    ensures
        r matches Ok(next) ==> regex_step(chars@.skip(i as int)) matches Ok((piece, m)) && next == i + m
            && final(out)@ == old(out)@ + piece,
        r matches Err(e) ==> regex_step(chars@.skip(i as int)) == Err::<(Seq<char>, int), Seq<char>>(e@),
{
    let ghost q = chars@.skip(i as int);
    let ghost body = chars@;
    let n = chars.len();
    let c = chars[i];
    let mut next = i + 1;
    if star_element_at(chars, i, i) > 0 {
        let mut j = i;
        let mut cross = false;
        loop
            invariant
                i <= j <= n,
                n == chars.len(),
                q == chars@.skip(i as int),
                star_elements_end(q, j - i) == star_elements_end(q, 0),
                star_elements_cross(q, 0) == (cross || star_elements_cross(q, j - i)),
            ensures
                star_elements_end(q, 0) == j - i,
                star_elements_cross(q, 0) == cross,
            decreases n - j,
        {
            if j >= n {
                break;
            }
            let l = star_element_at(chars, i, j);
            if l == 0 {
                break;
            }
            proof {
                lemma_star_elements_end(q, j - i);
            }
            if l == 2 {
                cross = true;
            }
            j += l;
        }
        push_char(out, '*');
        if cross {
            push_char(out, '*');
        }
        next = j;
    } else if c == '.' {
        push_char(out, '?');
    } else if c == '\\' {
        if i + 1 >= n {
            return Err(String::from_str("trailing backslash"));
        }
        let esc = chars[i + 1];
        if esc == '*' || esc == '?' || esc == '[' || esc == '\\' || esc == '{' {
            push_char(out, '\\');
        }
        push_char(out, esc);
        next = i + 2;
    } else if c == '[' {
        let mut j = i + 1;
        let mut negate = false;
        if j < n && chars[j] == '^' {
            negate = true;
            j += 1;
        }
        let start = j;
        assert(start - i == regex_class_start(q));
        if j < n && chars[j] == ']' {
            j += 1;
        }
        assert(j - i == regex_class_search_from(q));
        while j < n && chars[j] != ']'
            invariant
                i < start <= j <= n,
                n == chars.len(),
                body == chars@,
                q == body.skip(i as int),
                find_close(q, j - i) == find_close(q, regex_class_search_from(q)),
            decreases n - j,
        {
            j += 1;
        }
        if j >= n {
            return Err(String::from_str("unterminated character class"));
        }
        if j + 1 < n && chars[j + 1] == '*' {
            return Err(String::from_str("no glob equivalent for a quantified character class"));
        }
        push_char(out, '[');
        if negate {
            push_char(out, '!');
        } else if chars[start] == '!' {
            push_char(out, ']');
            push_char(out, '-');
            push_char(out, '!');
        }
        let ghost head = out@;
        let mut k = start;
        while k < j
            invariant
                start <= k <= j,
                j < n,
                n == chars.len(),
                out@ == head + chars@.subrange(start as int, k as int),
            decreases j - k,
        {
            push_char(out, chars[k]);
            k += 1;
            assert(out@ =~= head + chars@.subrange(start as int, k as int));
        }
        push_char(out, ']');
        assert(q.subrange(start - i, j - i) =~= chars@.subrange(start as int, j as int));
        next = j + 1;
    } else if c == '*' || c == '+' || c == '?' || c == '(' || c == ')' || c == '{' || c == '}'
        || c == '|' || c == '^' || c == '$' {
        let mut e = String::from_str("no glob equivalent for '");
        push_char(&mut e, c);
        e.append("'");
        assert(e@ =~= msg_no_glob_form(c));
        return Err(e);
    } else {
        push_char(out, c);
    }
    proof {
        let (piece, m) = regex_step(q)->Ok_0;
        assert(m == next - i);
        assert(out@ =~= old(out)@ + piece);
    }
    Ok(next)
}

/// Converts a regex back into a glob pattern, when possible.
///
/// Only the subset of regex syntax that glob can express is accepted:
/// `.` and `.*` (mapped to `**`, since a bare `*` in glob already
/// excludes `/`), `[^/]*` (mapped back to `*`), character classes
/// `[...]` / `[^...]`, escaped literals, and plain characters.
/// Quantifiers, groups, alternation and anchors other than a leading
/// `^` / trailing `$` are rejected rather than approximated.
///
/// A run of star elements becomes one star: `*` where every element of
/// the run is `[^/]*`, `**` where one of them is `.*`. An escaped
/// character that a glob reads as syntax (`*`, `?`, `[`, `\`, `{`) is
/// written escaped, so `\{` never opens brace alternatives. A class that
/// is not negated and starts with `!` is written with the empty range
/// `]-!` first, so that the glob class is not negated either. A `{` inside
/// a class is refused where, with a later `,` and `}`, it would open brace
/// alternatives in the glob.
pub fn regex_to_glob(pattern: &str) -> (r: Result<String, String>)
    ensures
        r matches Ok(g) ==> regex_glob(pattern@) == Ok::<Seq<char>, Seq<char>>(g@),
        r matches Err(e) ==> regex_glob(pattern@) == Err::<Seq<char>, Seq<char>>(e@),
{
    let all = chars_of(pattern);
    let n_all = all.len();
    let from: usize = if n_all > 0 && all[0] == '^' { 1 } else { 0 };
    let to: usize = if n_all > from && all[n_all - 1] == '$' { n_all - 1 } else { n_all };
    let chars = copy_range(&all, from, to);
    proof {
        let p1 = if all@.len() > 0 && all@[0] == '^' { all@.drop_first() } else { all@ };
        assert(p1 =~= all@.subrange(from as int, n_all as int));
        if p1.len() > 0 && p1.last() == '$' {
            assert(p1.drop_last() =~= chars@);
        } else {
            assert(p1 =~= chars@);
        }
    }
    let ghost body = chars@;
    assert(body == strip_anchors(pattern@));
    let n = chars.len();
    let mut out = String::new();
    let mut i: usize = 0;
    assert(body.skip(0) =~= body);
    assert(out@ + Seq::<char>::empty() =~= out@);
    while i < n
        invariant
            i <= n,
            n == chars.len(),
            body == chars@,
            body == strip_anchors(pattern@),
            regex_body_glob(body) == prefixed(out@, regex_body_glob(body.skip(i as int))),
        decreases n - i,
    {
        let ghost q = body.skip(i as int);
        proof {
            lemma_regex_step_len(q);
        }
        let ghost before = out@;
        let next = match glob_piece(&chars, i, &mut out) {
            Ok(next) => next,
            Err(e) => {
                return Err(e);
            },
        };
        proof {
            let (piece, m) = regex_step(q)->Ok_0;
            assert(q.skip(m) =~= body.skip(next as int));
            assert(regex_body_glob(q) == prefixed(piece, regex_body_glob(q.skip(m))));
            if let Ok(g) = regex_body_glob(q.skip(m)) {
                assert((before + piece) + g =~= before + (piece + g));
            }
        }
        i = next;
    }
    assert(body.skip(n as int) =~= Seq::<char>::empty());
    assert(out@ + Seq::<char>::empty() =~= out@);
    let glob_chars = chars_of(out.as_str());
    if find_group(&glob_chars).is_some() {
        return Err(String::from_str("no glob equivalent for '{' in a character class that would open alternatives"));
    }
    Ok(out)
}

} // verus!
