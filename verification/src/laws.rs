//! What holds of every pass over a script.

use vstd::prelude::*;
use crate::error::ErrorView;
use crate::expand::{begin, current, kind_of, opens, run, step, Job, LineKind, Pass};
use crate::store::Files;

verus! {

/// How many of `lines` are of the given kind.
pub open spec fn count_kind(lines: Seq<Seq<char>>, kind: LineKind) -> nat
    decreases lines.len(),
{
    if lines.len() == 0 {
        0
    } else {
        count_kind(lines.drop_last(), kind) + if kind_of(lines.last()) == kind {
            1nat
        } else {
            0nat
        }
    }
}

/// How many of `lines` open a fragment: cell breaks, block openers and
/// block re-entries.
pub open spec fn count_opening(lines: Seq<Seq<char>>) -> nat {
    count_kind(lines, LineKind::CellBreak) + count_kind(lines, LineKind::Opener) + count_kind(
        lines,
        LineKind::Reentry,
    )
}

/// No block is ended that was not opened: in each first part of `lines`
/// there are at most as many terminators as openers.
pub open spec fn well_nested(lines: Seq<Seq<char>>) -> bool {
    forall|k: int|
        0 <= k <= lines.len() ==> count_kind(#[trigger] lines.take(k), LineKind::Terminator)
            <= count_kind(lines.take(k), LineKind::Opener)
}

/// Each line that opens a fragment makes exactly one: after a pass that did
/// not fail, the fragments made besides the root are as many as the cell
/// breaks, block openers and block re-entries among the lines.
pub proof fn law_fragment_count(job: Job, files: Files, lines: Seq<Seq<char>>)
    requires
        run(job, begin(job, files), lines).failure is None,
    ensures
        run(job, begin(job, files), lines).made == 1 + count_opening(lines),
    decreases lines.len(),
{
    if lines.len() > 0 {
        let prior = run(job, begin(job, files), lines.drop_last());
        law_fragment_count(job, files, lines.drop_last());
    }
}

/// While blocks are well nested, the open fragments are one more than the
/// blocks that were opened and not yet ended.
pub proof fn law_stack_depth(job: Job, files: Files, lines: Seq<Seq<char>>)
    requires
        run(job, begin(job, files), lines).failure is None,
        well_nested(lines),
    ensures
        run(job, begin(job, files), lines).stack.len() == 1 + count_kind(lines, LineKind::Opener)
            - count_kind(lines, LineKind::Terminator),
    decreases lines.len(),
{
    assert(lines.take(lines.len() as int) =~= lines);
    if lines.len() > 0 {
        let head = lines.drop_last();
        assert forall|k: int| 0 <= k <= head.len() implies count_kind(
            #[trigger] head.take(k),
            LineKind::Terminator,
        ) <= count_kind(head.take(k), LineKind::Opener) by {
            assert(head.take(k) =~= lines.take(k));
        }
        assert(head.take(head.len() as int) =~= head);
        law_stack_depth(job, files, head);
    }
}

/// A `switch` stops the pass: it fails as unsupported, and nothing is
/// written from that line on.
pub proof fn law_unsupported(job: Job, pass: Pass, lines: Seq<Seq<char>>, k: int)
    requires
        0 <= k < lines.len(),
        kind_of(lines[k]) == LineKind::Unsupported,
        run(job, pass, lines.take(k)).failure is None,
    ensures
        run(job, pass, lines).failure == Some(ErrorView::UnsupportedConstruct),
        run(job, pass, lines).files == run(job, pass, lines.take(k)).files,
        run(job, pass, lines).stack == run(job, pass, lines.take(k)).stack,
{
    let upto = lines.take(k + 1);
    assert(upto.drop_last() =~= lines.take(k));
    assert(upto.last() == lines[k]);
    crate::expand::lemma_run_split(job, pass, lines, k + 1);
    crate::expand::lemma_run_failed(job, run(job, pass, upto), lines.skip(k + 1));
}

/// Where files may be replaced, nothing but a `switch` stops a pass.
pub proof fn law_pass_succeeds(job: Job, files: Files, lines: Seq<Seq<char>>)
    requires
        job.overwrite,
        forall|i: int| 0 <= i < lines.len() ==> kind_of(#[trigger] lines[i]) != LineKind::Unsupported,
    ensures
        run(job, begin(job, files), lines).failure is None,
    decreases lines.len(),
{
    if lines.len() > 0 {
        let head = lines.drop_last();
        assert forall|i: int| 0 <= i < head.len() implies kind_of(#[trigger] head[i])
            != LineKind::Unsupported by {
            assert(head[i] == lines[i]);
        }
        law_pass_succeeds(job, files, head);
        assert(lines.last() == lines[lines.len() - 1]);
    }
}

/// A plain line goes, as it is, to one file: the current fragment. No
/// other file changes, and no fragment is opened or closed.
pub proof fn law_plain_line(job: Job, pass: Pass, line: Seq<char>)
    requires
        pass.failure is None,
        kind_of(line) == LineKind::Plain,
    ensures
        step(job, pass, line).files == pass.files.insert(
            current(job, pass),
            pass.files[current(job, pass)].writeln(line),
        ),
        step(job, pass, line).stack == pass.stack,
        step(job, pass, line).made == pass.made,
        step(job, pass, line).failure is None,
{
}

} // verus!
