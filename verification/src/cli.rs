//! The command-line surface: the usage text, the conversion named by a mode, and batch mode.
use vstd::prelude::*;

use crate::text::{chars_of, push_char};
use crate::to_glob::{regex_glob, regex_to_glob};
use crate::to_regex::{glob_regex, glob_to_regex};

verus! {

/// The usage text for a program called `prog`.
pub open spec fn usage_text(prog: Seq<char>) -> Seq<char> {
    "usage:\n  "@ + prog + " to-regex <glob-pattern>\n  "@ + prog + " to-glob <regex-pattern>\n  "@
        + prog + " test <glob-pattern> <text>\n  "@ + prog
        + " to-regex  (reads patterns from stdin, one per line)\n  "@ + prog
        + " to-glob   (reads patterns from stdin, one per line)\n\nexamples:\n  "@ + prog
        + " to-regex '*.txt'\n  "@ + prog + " to-glob '^.*\\.txt$'"@
}

/// What converting `pattern` in `mode` gives: a regex for `to-regex`, a
/// glob or an error for `to-glob`, an error for any other mode.
pub open spec fn conversion(mode: Seq<char>, pattern: Seq<char>) -> Result<Seq<char>, Seq<char>> {
    if mode == "to-regex"@ {
        Ok(glob_regex(pattern))
    } else if mode == "to-glob"@ {
        regex_glob(pattern)
    } else {
        Err("unknown mode '"@ + mode + "'"@)
    }
}

/// The usage text, naming the program `prog`.
pub fn usage(prog: &str) -> (r: String)
    ensures
        r@ == usage_text(prog@),
{
    let mut s = String::from_str("usage:\n  ");
    s.append(prog);
    s.append(" to-regex <glob-pattern>\n  ");
    s.append(prog);
    s.append(" to-glob <regex-pattern>\n  ");
    s.append(prog);
    s.append(" test <glob-pattern> <text>\n  ");
    s.append(prog);
    s.append(" to-regex  (reads patterns from stdin, one per line)\n  ");
    s.append(prog);
    s.append(" to-glob   (reads patterns from stdin, one per line)\n\nexamples:\n  ");
    s.append(prog);
    s.append(" to-regex '*.txt'\n  ");
    s.append(prog);
    s.append(" to-glob '^.*\\.txt$'");
    s
}

/// Whether `a` and `b` hold the same characters.
pub fn same_text(a: &str, b: &str) -> (r: bool)
    ensures
        r == (a@ == b@),
{
    let x = chars_of(a);
    let y = chars_of(b);
    if x.len() != y.len() {
        return false;
    }
    let mut k: usize = 0;
    while k < x.len()
        invariant
            k <= x.len(),
            x.len() == y.len(),
            x@ == a@,
            y@ == b@,
            forall|m: int| 0 <= m < k ==> x@[m] == y@[m],
        decreases x.len() - k,
    {
        if x[k] != y[k] {
            assert(a@[k as int] != b@[k as int]);
            return false;
        }
        k += 1;
    }
    assert(x@ =~= y@);
    true
}

/// Converts one pattern in the direction that `mode` names.
pub fn convert_one(mode: &str, pattern: &str) -> (r: Result<String, String>)
    ensures
        r matches Ok(g) ==> conversion(mode@, pattern@) == Ok::<Seq<char>, Seq<char>>(g@),
        r matches Err(e) ==> conversion(mode@, pattern@) == Err::<Seq<char>, Seq<char>>(e@),
{
    if same_text(mode, "to-regex") {
        Ok(glob_to_regex(pattern))
    } else if same_text(mode, "to-glob") {
        regex_to_glob(pattern)
    } else {
        let mut e = String::from_str("unknown mode '");
        e.append(mode);
        e.append("'");
        Err(e)
    }
}

/// What batch mode does with one line of input.
pub enum BatchAction {
    /// An empty line: nothing to convert.
    Skip,
    /// The conversion, for standard output.
    Print(String),
    /// The error, with the line it came from, for standard error.
    Report(String),
}

/// Decides what batch mode does with one line: skip it when it is empty,
/// print its conversion, or report why it has none.
pub fn batch_step(mode: &str, line: &str) -> (r: BatchAction)
    ensures
        line@.len() == 0 ==> r is Skip,
        line@.len() > 0 ==> match conversion(mode@, line@) {
            Ok(g) => r matches BatchAction::Print(o) && o@ == g,
            Err(e) => r matches BatchAction::Report(o) && o@ == "error: "@ + line@ + ": "@ + e,
        },
{
    let chars = chars_of(line);
    if chars.len() == 0 {
        return BatchAction::Skip;
    }
    match convert_one(mode, line) {
        Ok(g) => BatchAction::Print(g),
        Err(e) => {
            let mut o = String::from_str("error: ");
            o.append(line);
            o.append(": ");
            o.append(e.as_str());
            BatchAction::Report(o)
        },
    }
}

/// Whether a batch has failed once this line's action is known: it fails
/// when any line is reported, and goes on to the end all the same.
pub fn batch_failed(failed: bool, r: &BatchAction) -> (f: bool)
    ensures
        f == (failed || r is Report),
{
    match r {
        BatchAction::Report(_) => true,
        _ => failed,
    }
}

/// Whether batch mode in `mode` reports the line `l`: it is not empty and
/// has no conversion.
pub open spec fn line_fails(mode: Seq<char>, l: Seq<char>) -> bool {
    l.len() > 0 && conversion(mode, l) is Err
}

/// The failure flag once batch mode in `mode` has stepped through `lines`
/// from a flag that is not set: each reported line sets it, and nothing
/// clears it.
pub open spec fn batch_flag(mode: Seq<char>, lines: Seq<Seq<char>>) -> bool
    decreases lines.len(),
{
    if lines.len() == 0 {
        false
    } else {
        batch_flag(mode, lines.drop_last()) || line_fails(mode, lines.last())
    }
}

/// What batch mode in `mode` prints for `lines`, in order: the conversion
/// of each non-empty line that has one.
pub open spec fn batch_printed(mode: Seq<char>, lines: Seq<Seq<char>>) -> Seq<Seq<char>>
    decreases lines.len(),
{
    if lines.len() == 0 {
        Seq::empty()
    } else {
        let before = batch_printed(mode, lines.drop_last());
        let l = lines.last();
        if l.len() > 0 && conversion(mode, l) is Ok {
            before.push(conversion(mode, l)->Ok_0)
        } else {
            before
        }
    }
}

/// What batch mode in `mode` reports for `lines`, in order: for each
/// non-empty line without a conversion, the line and why.
pub open spec fn batch_reported(mode: Seq<char>, lines: Seq<Seq<char>>) -> Seq<Seq<char>>
    decreases lines.len(),
{
    if lines.len() == 0 {
        Seq::empty()
    } else {
        let before = batch_reported(mode, lines.drop_last());
        let l = lines.last();
        if line_fails(mode, l) {
            before.push("error: "@ + l + ": "@ + conversion(mode, l)->Err_0)
        } else {
            before
        }
    }
}

/// A batch fails just when one of its lines is reported, wherever that line
/// stands; and the lines of a batch are printed and reported one after the
/// other, each as on its own, so a reported line stops nothing that
/// follows it.
pub proof fn law_batch_run(mode: Seq<char>, a: Seq<Seq<char>>, b: Seq<Seq<char>>)
    ensures
        batch_flag(mode, a) <==> exists|i: int| 0 <= i < a.len() && #[trigger] line_fails(mode, a[i]),
        batch_printed(mode, a + b) == batch_printed(mode, a) + batch_printed(mode, b),
        batch_reported(mode, a + b) == batch_reported(mode, a) + batch_reported(mode, b),
    decreases a.len() + b.len(),
{
    if a.len() > 0 {
        let init = a.drop_last();
        law_batch_run(mode, init, b);
        if batch_flag(mode, a) && !line_fails(mode, a.last()) {
            let i = choose|i: int| 0 <= i < init.len() && #[trigger] line_fails(mode, init[i]);
            assert(a[i] == init[i]);
        }
        if exists|i: int| 0 <= i < a.len() && #[trigger] line_fails(mode, a[i]) {
            let i = choose|i: int| 0 <= i < a.len() && #[trigger] line_fails(mode, a[i]);
            if i < a.len() - 1 {
                assert(init[i] == a[i]);
            }
        }
    }
    if b.len() == 0 {
        assert(a + b =~= a);
        assert(batch_printed(mode, a) + batch_printed(mode, b) =~= batch_printed(mode, a));
        assert(batch_reported(mode, a) + batch_reported(mode, b) =~= batch_reported(mode, a));
    } else {
        let bi = b.drop_last();
        law_batch_run(mode, a, bi);
        assert((a + b).drop_last() =~= a + bi);
        assert((a + b).last() == b.last());
    }
}

/// A batch run in progress: its mode, and the lines it has been given so
/// far together with whether one of them has been reported.
pub struct Batch {
    mode: String,
    progress: (bool, Ghost<Seq<Seq<char>>>),
}

impl Batch {
    /// The mode the batch converts in.
    pub closed spec fn mode(&self) -> Seq<char> {
        self.mode@
    }

    /// The lines the batch has been given, in order.
    pub closed spec fn lines(&self) -> Seq<Seq<char>> {
        self.progress.1@
    }

    /// The failure flag is the one stepping through the lines gives.
    #[verifier::type_invariant]
    spec fn flag_follows_lines(&self) -> bool {
        self.progress.0 == batch_flag(self.mode@, self.progress.1@)
    }

    /// A batch in `mode` that has been given no line yet.
    pub fn new(mode: &str) -> (b: Batch)
        ensures
            b.mode() == mode@,
            b.lines() == Seq::<Seq<char>>::empty(),
    {
        Batch { mode: String::from_str(mode), progress: (false, Ghost(Seq::empty())) }
    }

    /// Takes the next line: says what to do with it (as `batch_step` does)
    /// and notes whether it is reported.
    pub fn feed(&mut self, line: &str) -> (r: BatchAction)
        ensures
            final(self).mode() == old(self).mode(),
            final(self).lines() == old(self).lines().push(line@),
            line@.len() == 0 ==> r is Skip,
            line@.len() > 0 ==> match conversion(old(self).mode(), line@) {
                Ok(g) => r matches BatchAction::Print(o) && o@ == g,
                Err(e) => r matches BatchAction::Report(o) && o@ == "error: "@ + line@ + ": "@ + e,
            },
            batch_printed(final(self).mode(), final(self).lines()) == batch_printed(
                old(self).mode(),
                old(self).lines(),
            ) + match r {
                BatchAction::Print(o) => seq![o@],
                _ => Seq::empty(),
            },
            batch_reported(final(self).mode(), final(self).lines()) == batch_reported(
                old(self).mode(),
                old(self).lines(),
            ) + match r {
                BatchAction::Report(o) => seq![o@],
                _ => Seq::empty(),
            },
    {
        proof {
            use_type_invariant(&*self);
        }
        let r = batch_step(self.mode.as_str(), line);
        let ghost before = self.progress.1@;
        let ghost after = before.push(line@);
        let ghost m = self.mode@;
        proof {
            assert(after.drop_last() =~= before);
            assert(after.last() == line@);
        }
        let failed = batch_failed(self.progress.0, &r);
        self.progress = (failed, Ghost(after));
        proof {
            if line@.len() > 0 {
                match conversion(m, line@) {
                    Ok(g) => {
                        assert(batch_printed(m, after) =~= batch_printed(m, before).push(g));
                        assert(batch_reported(m, after) =~= batch_reported(m, before) + Seq::empty());
                    },
                    Err(e) => {
                        assert(batch_printed(m, after) =~= batch_printed(m, before) + Seq::empty());
                        assert(batch_reported(m, after) =~= batch_reported(m, before).push(
                            "error: "@ + line@ + ": "@ + e,
                        ));
                    },
                }
            } else {
                assert(batch_printed(m, after) =~= batch_printed(m, before) + Seq::empty());
                assert(batch_reported(m, after) =~= batch_reported(m, before) + Seq::empty());
            }
        }
        r
    }

    /// Whether the batch has failed: whether one of its lines so far has
    /// been reported.
    pub fn failed(&self) -> (f: bool)
        ensures
            f == batch_flag(self.mode(), self.lines()),
            f <==> exists|i: int|
                0 <= i < self.lines().len() && #[trigger] line_fails(self.mode(), self.lines()[i]),
    {
        proof {
            use_type_invariant(self);
            law_batch_run(self.mode(), self.lines(), Seq::empty());
        }
        self.progress.0
    }
}

} // verus!
