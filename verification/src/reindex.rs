//! The persistent index of a library: where it is kept, and what a pass over it changed.
use vstd::prelude::*;
use vstd::string::*;

use crate::paths::{join, joined};
use crate::scan::{notes_of, ScannedFile};
use crate::text::{dec, dec_text, join_text, opt_view, owned};

verus! {

/// What one pass changed.
#[derive(Debug, Clone, Copy, PartialEq, Eq, Structural)]
pub struct ReindexReport {
    pub new: usize,
    pub modified: usize,
    pub moved: usize,
    pub tombstoned: usize,
    pub unchanged: usize,
    pub failed: usize,
}

/// Where a library's index is kept: in a hidden file at its root.
pub fn default_index_path(root: &str) -> (r: String)
    ensures
        r@ == joined(root@, ".lumen-index"@),
{
    join(root, ".lumen-index")
}

/// Why a file needs a look; `None` when nothing is amiss.
pub fn needs_review(f: &ScannedFile) -> (r: Option<String>)
    requires
        f.content().wf(),
    ensures
        opt_view(r) == (if notes_of(f.content()).len() == 0 {
            None
        } else {
            Some(crate::text::join(notes_of(f.content()), "; "@))
        }),
{
    let notes = f.notes();
    assert(notes_of(f.content()).len() == notes@.len());
    if notes.len() == 0 {
        None
    } else {
        Some(join_text(&notes, "; "))
    }
}

/// What one pass changed, for the console.
pub open spec fn index_shown(version: u64, files: usize, r: ReindexReport) -> Seq<char> {
    "index v"@ + dec(version as nat) + ": "@ + dec(files as nat) + " files ("@ + dec(r.new as nat)
        + " new, "@ + dec(r.modified as nat) + " modified, "@ + dec(r.moved as nat) + " moved, "@
        + dec(r.tombstoned as nat) + " tombstoned, "@ + dec(r.unchanged as nat) + " unchanged"@ + (
    if r.failed > 0 {
        ", "@ + dec(r.failed as nat) + " need review"@
    } else {
        Seq::empty()
    }) + ")"@
}

/// What one pass changed, for the console: the index's version, how many files it holds, and what
/// became of them.
pub fn summarize(version: u64, files: usize, report: &ReindexReport) -> (r: String)
    ensures
        r@ == index_shown(version, files, *report),
{
    let mut s = owned("index v");
    s.append(dec_text(version as u128).as_str());
    s.append(": ");
    s.append(dec_text(files as u128).as_str());
    s.append(" files (");
    s.append(dec_text(report.new as u128).as_str());
    s.append(" new, ");
    s.append(dec_text(report.modified as u128).as_str());
    s.append(" modified, ");
    s.append(dec_text(report.moved as u128).as_str());
    s.append(" moved, ");
    s.append(dec_text(report.tombstoned as u128).as_str());
    s.append(" tombstoned, ");
    s.append(dec_text(report.unchanged as u128).as_str());
    s.append(" unchanged");
    let mut review = String::new();
    if report.failed > 0 {
        review = owned(", ");
        review.append(dec_text(report.failed as u128).as_str());
        review.append(" need review");
    }
    s.append(review.as_str());
    s.append(")");
    s
}

/// A pass is told with its numbers, each before what it counts; what needs review is only named where
/// there is any.
pub proof fn passes_are_told(version: u64, files: usize, r: ReindexReport)
    ensures
        ("index v"@ + dec(version as nat) + ": "@ + dec(files as nat) + " files ("@ + dec(r.new as nat)
            + " new, "@).is_prefix_of(index_shown(version, files, r)),
        r.failed == 0 ==> (dec(r.modified as nat) + " modified, "@ + dec(r.moved as nat) + " moved, "@
            + dec(r.tombstoned as nat) + " tombstoned, "@ + dec(r.unchanged as nat)
            + " unchanged)"@).is_suffix_of(index_shown(version, files, r)),
        r.failed > 0 ==> (dec(r.unchanged as nat) + " unchanged, "@ + dec(r.failed as nat)
            + " need review)"@).is_suffix_of(index_shown(version, files, r)),
{
    reveal_strlit(" unchanged");
    reveal_strlit(" unchanged)");
    reveal_strlit(" unchanged, ");
    reveal_strlit(", ");
    reveal_strlit(")");
    reveal_strlit(" need review");
    reveal_strlit(" need review)");
    let l = index_shown(version, files, r);
    assert(" unchanged"@ + ")"@ =~= " unchanged)"@);
    assert(" unchanged"@ + ", "@ =~= " unchanged, "@);
    assert(" need review"@ + ")"@ =~= " need review)"@);
    let head = "index v"@ + dec(version as nat) + ": "@ + dec(files as nat) + " files ("@ + dec(
        r.new as nat,
    ) + " new, "@;
    assert(l.subrange(0, head.len() as int) =~= head);
    if r.failed == 0 {
        let tail = dec(r.modified as nat) + " modified, "@ + dec(r.moved as nat) + " moved, "@ + dec(
            r.tombstoned as nat,
        ) + " tombstoned, "@ + dec(r.unchanged as nat) + " unchanged)"@;
        assert(l.subrange(l.len() - tail.len(), l.len() as int) =~= tail);
    } else {
        let tail = dec(r.unchanged as nat) + " unchanged, "@ + dec(r.failed as nat)
            + " need review)"@;
        assert(l.subrange(l.len() - tail.len(), l.len() as int) =~= tail);
    }
}

} // verus!
