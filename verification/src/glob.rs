//! The glob language: its tokens, the tokenizer, and what it means for a
//! token sequence to match a text.
use vstd::prelude::*;

verus! {

/// One unit of glob syntax, as a mathematical value.
pub enum Token {
    /// `*`: any run of characters other than `/`, possibly empty.
    Star,
    /// `**` (two or more `*`): any run of characters, possibly empty.
    GlobStar,
    /// `?`: any single character.
    AnyChar,
    /// `[...]` or `[!...]` / `[^...]`: one character of (or not of) a class.
    Class { negate: bool, items: Seq<char> },
    /// A character matched as itself.
    Literal(char),
}

/// Index just past the run of `*` that starts at `k` in `q`.
pub open spec fn star_run(q: Seq<char>, k: int) -> int
    decreases q.len() - k,
{
    if 0 <= k < q.len() && q[k] == '*' {
        star_run(q, k + 1)
    } else {
        k
    }
}

/// Index of the first `]` at or after `k` in `q`, or `q.len()` if there is none.
pub open spec fn find_close(q: Seq<char>, k: int) -> int
    decreases q.len() - k,
{
    if k >= q.len() {
        q.len() as int
    } else if k >= 0 && q[k] == ']' {
        k
    } else {
        find_close(q, k + 1)
    }
}

/// Whether a `[` at the front of `q` opens a negated class.
pub open spec fn class_negated(q: Seq<char>) -> bool {
    q.len() > 1 && (q[1] == '!' || q[1] == '^')
}

/// Where the items of a class opened at the front of `q` start.
pub open spec fn class_start(q: Seq<char>) -> int {
    if class_negated(q) { 2 } else { 1 }
}

/// Where the search for the closing `]` starts: a `]` right after the
/// opening bracket (and its negation mark) is an item, not the end.
pub open spec fn class_search_from(q: Seq<char>) -> int {
    let cs = class_start(q);
    if cs < q.len() && q[cs] == ']' { cs + 1 } else { cs }
}

/// The first token of the non-empty glob `q`, and how many characters it takes.
pub open spec fn next_token(q: Seq<char>) -> (Token, int)
    recommends
        q.len() > 0,
{
    let c = q[0];
    if c == '*' {
        let n = star_run(q, 0);
        (if n >= 2 { Token::GlobStar } else { Token::Star }, n)
    } else if c == '?' {
        (Token::AnyChar, 1)
    } else if c == '[' {
        let close = find_close(q, class_search_from(q));
        if close < q.len() {
            (Token::Class { negate: class_negated(q), items: q.subrange(class_start(q), close) }, close + 1)
        } else {
            // an unterminated class: the bracket is a literal
            (Token::Literal('['), 1)
        }
    } else if c == '\\' {
        if q.len() > 1 {
            (Token::Literal(q[1]), 2)
        } else {
            (Token::Literal('\\'), 1)
        }
    } else {
        (Token::Literal(c), 1)
    }
}

pub proof fn lemma_star_run(q: Seq<char>, k: int)
    requires
        0 <= k <= q.len(),
    ensures
        k <= star_run(q, k) <= q.len(),
        k < q.len() && q[k] == '*' ==> star_run(q, k) > k,
        forall|m: int| k <= m < star_run(q, k) ==> q[m] == '*',
        star_run(q, k) < q.len() ==> q[star_run(q, k)] != '*',
    decreases q.len() - k,
{
    if k < q.len() && q[k] == '*' {
        lemma_star_run(q, k + 1);
    }
}

pub proof fn lemma_find_close(q: Seq<char>, k: int)
    requires
        0 <= k,
    ensures
        k <= find_close(q, k) || find_close(q, k) == q.len(),
        find_close(q, k) <= q.len(),
        find_close(q, k) < q.len() ==> q[find_close(q, k)] == ']',
        forall|m: int| k <= m < find_close(q, k) ==> q[m] != ']',
    decreases q.len() - k,
{
    if k < q.len() && q[k] != ']' {
        lemma_find_close(q, k + 1);
    }
}

/// The first token of a non-empty glob takes at least one character and no
/// more than there are.
pub proof fn lemma_next_token_len(q: Seq<char>)
    requires
        q.len() > 0,
    ensures
        1 <= next_token(q).1 <= q.len(),
{
    if q[0] == '*' {
        lemma_star_run(q, 0);
    } else if q[0] == '[' {
        lemma_find_close(q, class_search_from(q));
    }
}

/// The token sequence of a glob pattern.
pub open spec fn tokenize(q: Seq<char>) -> Seq<Token>
    decreases q.len(),
{
    if q.len() == 0 {
        Seq::empty()
    } else {
        proof {
            lemma_next_token_len(q);
        }
        seq![next_token(q).0] + tokenize(q.skip(next_token(q).1))
    }
}

/// Whether `c` is one of the characters listed in a class body: `a-z` is a
/// range when a `-` stands between two characters, anything else stands for
/// itself.
pub open spec fn class_has(items: Seq<char>, c: char) -> bool
    decreases items.len(),
{
    if items.len() == 0 {
        false
    } else if items.len() >= 3 && items[1] == '-' {
        (items[0] <= c && c <= items[2]) || class_has(items.skip(3), c)
    } else {
        items[0] == c || class_has(items.skip(1), c)
    }
}

/// Whether a single-character token accepts `c`.
pub open spec fn char_ok(t: Token, c: char) -> bool {
    match t {
        Token::AnyChar => true,
        Token::Literal(l) => l == c,
        Token::Class { negate, items } => class_has(items, c) != negate,
        Token::Star | Token::GlobStar => false,
    }
}

pub open spec fn is_star_token(t: Token) -> bool {
    t is Star || t is GlobStar
}

/// Whether the second token is a `/`: `**/` also matches no directory at all.
pub open spec fn slash_follows(toks: Seq<Token>) -> bool {
    toks.len() > 1 && toks[1] == Token::Literal('/')
}

/// Whether the star `toks[0]` can take a run at the front of `s` after
/// which the rest of the tokens match what is left: `*` takes characters
/// other than `/`, `**` takes any.
pub open spec fn run_match(toks: Seq<Token>, s: Seq<char>) -> bool
    decreases toks.len(), s.len(), 0int,
{
    if toks.len() == 0 {
        false
    } else {
        tok_match(toks.drop_first(), s) || (s.len() > 0 && (toks[0] is GlobStar || s[0] != '/')
            && run_match(toks, s.drop_first()))
    }
}

/// Whether the token sequence `toks` matches the whole of `s`: `*` takes
/// any run without `/`, `**` any run at all, and `**/` may also take
/// nothing, its `/` included.
pub open spec fn tok_match(toks: Seq<Token>, s: Seq<char>) -> bool
    decreases toks.len(), s.len(), 1int,
{
    if toks.len() == 0 {
        s.len() == 0
    } else {
        match toks[0] {
            Token::Star => run_match(toks, s),
            Token::GlobStar => run_match(toks, s) || (slash_follows(toks) && tok_match(
                toks.skip(2),
                s,
            )),
            _ => s.len() > 0 && char_ok(toks[0], s[0]) && tok_match(
                toks.drop_first(),
                s.drop_first(),
            ),
        }
    }
}

/// A glob token as the matcher holds it.
pub enum GlobToken {
    Star,
    GlobStar,
    AnyChar,
    Class { negate: bool, items: Vec<char> },
    Literal(char),
}

impl View for GlobToken {
    type V = Token;

    open spec fn view(&self) -> Token {
        match self {
            GlobToken::Star => Token::Star,
            GlobToken::GlobStar => Token::GlobStar,
            GlobToken::AnyChar => Token::AnyChar,
            GlobToken::Class { negate, items } => Token::Class { negate: *negate, items: items@ },
            GlobToken::Literal(c) => Token::Literal(*c),
        }
    }
}

/// The views of a sequence of tokens.
pub open spec fn token_views(ts: Seq<GlobToken>) -> Seq<Token> {
    ts.map_values(|t: GlobToken| t@)
}

/// A copy of `v[from..to]`.
pub fn copy_range(v: &Vec<char>, from: usize, to: usize) -> (r: Vec<char>)
    requires
        from <= to <= v.len(),
    ensures
        r@ == v@.subrange(from as int, to as int),
{
    let mut r: Vec<char> = Vec::new();
    let mut k = from;
    while k < to
        invariant
            from <= k <= to <= v.len(),
            r@ == v@.subrange(from as int, k as int),
        decreases to - k,
    {
        r.push(v[k]);
        k += 1;
        assert(r@ =~= v@.subrange(from as int, k as int));
    }
    r
}

/// The first token of `chars[i..]` and the index just after it.
fn lex_one(chars: &Vec<char>, i: usize) -> (r: (GlobToken, usize))
    requires
        i < chars.len(),
    ensures
        r.0@ == next_token(chars@.skip(i as int)).0,
        r.1 == i + next_token(chars@.skip(i as int)).1,
{
    let ghost q = chars@.skip(i as int);
    let n = chars.len();
    let c = chars[i];
    if c == '*' {
        let mut j = i;
        while j < n && chars[j] == '*'
            invariant
                i <= j <= n,
                n == chars.len(),
                q == chars@.skip(i as int),
                star_run(q, j - i) == star_run(q, 0),
            decreases n - j,
        {
            j += 1;
        }
        if j - i >= 2 {
            (GlobToken::GlobStar, j)
        } else {
            (GlobToken::Star, j)
        }
    } else if c == '?' {
        (GlobToken::AnyChar, i + 1)
    } else if c == '[' {
        let mut j = i + 1;
        let mut negate = false;
        if j < n && (chars[j] == '!' || chars[j] == '^') {
            negate = true;
            j += 1;
        }
        let items_from = j;
        if j < n && chars[j] == ']' {
            j += 1;
        }
        assert(j - i == class_search_from(q));
        while j < n && chars[j] != ']'
            invariant
                i < j <= n,
                n == chars.len(),
                q == chars@.skip(i as int),
                find_close(q, j - i) == find_close(q, class_search_from(q)),
            decreases n - j,
        {
            j += 1;
        }
        if j < n {
            let items = copy_range(chars, items_from, j);
            assert(items@ =~= q.subrange(class_start(q), j - i));
            (GlobToken::Class { negate, items }, j + 1)
        } else {
            (GlobToken::Literal('['), i + 1)
        }
    } else if c == '\\' {
        if i + 1 < n {
            (GlobToken::Literal(chars[i + 1]), i + 2)
        } else {
            (GlobToken::Literal('\\'), i + 1)
        }
    } else {
        (GlobToken::Literal(c), i + 1)
    }
}

/// Splits a glob pattern into its tokens.
pub fn parse_glob(chars: &Vec<char>) -> (tokens: Vec<GlobToken>)
    ensures
        token_views(tokens@) == tokenize(chars@),
{
    let mut tokens: Vec<GlobToken> = Vec::new();
    let n = chars.len();
    let mut i: usize = 0;
    assert(chars@.skip(0) =~= chars@);
    while i < n
        invariant
            i <= n,
            n == chars.len(),
            token_views(tokens@) + tokenize(chars@.skip(i as int)) == tokenize(chars@),
        decreases n - i,
    {
        let ghost q = chars@.skip(i as int);
        proof {
            lemma_next_token_len(q);
        }
        let (t, next) = lex_one(chars, i);
        assert(q.skip(next - i) =~= chars@.skip(next as int));
        let ghost old_tokens = tokens@;
        tokens.push(t);
        assert(token_views(tokens@) =~= token_views(old_tokens).push(t@));
        i = next;
    }
    assert(chars@.skip(n as int) =~= Seq::<char>::empty());
    assert(token_views(tokens@) + Seq::<Token>::empty() =~= token_views(tokens@));
    tokens
}

} // verus!
