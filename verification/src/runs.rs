//! What a run leaves where nothing is in its way, and what it leaves
//! whatever it finds.

use vstd::prelude::*;
use crate::expand::{
    begin, closed_top, closes, current, expanded, job_of, kind_of, opens, run, stem_for, step,
    Job, LineKind, Pass,
};
use crate::laws::{count_opening, law_fragment_count};
use crate::layout::{fragment_stem, names_file, sibling};
use crate::naming::title_slug;
use crate::roundtrip::{
    is_fragment_name, lemma_siblings_apart, lemma_stems_apart,
};
use crate::store::{Files, SinkView};
use crate::sweep::{fragment_names, lemma_run_names};
use crate::text::body_of;

verus! {

/// Each fragment that lines open has a number from 1 up to the number of
/// lines that open one.
pub proof fn lemma_names_numbered(job: Job, lines: Seq<Seq<char>>, m: Seq<char>) -> (k: nat)
    requires
        fragment_names(job, lines).contains(m),
    ensures
        1 <= k <= count_opening(lines),
        is_fragment_name(job.place, m, k),
    decreases lines.len(),
{
    let head = lines.drop_last();
    let next = 1 + count_opening(head);
    if opens(kind_of(lines.last())) && m == sibling(
        job.place,
        stem_for(job, lines.last(), next),
    ) {
        assert(stem_for(job, lines.last(), next) == fragment_stem(
            job.place,
            title_slug(body_of(lines.last())),
            next,
        ));
        next
    } else {
        lemma_names_numbered(job, head, m)
    }
}

/// A fragment with a number beyond those of the lines is none of theirs.
proof fn lemma_name_new(job: Job, lines: Seq<Seq<char>>, slug: Seq<char>, k: nat)
    requires
        k > count_opening(lines),
    ensures
        !fragment_names(job, lines).contains(sibling(job.place, fragment_stem(job.place, slug, k))),
{
    let name = sibling(job.place, fragment_stem(job.place, slug, k));
    if fragment_names(job, lines).contains(name) {
        let j = lemma_names_numbered(job, lines, name);
        let s = choose|s: Seq<char>| name == sibling(job.place, #[trigger] fragment_stem(job.place, s, j));
        lemma_siblings_apart(job.place, fragment_stem(job.place, slug, k), fragment_stem(job.place, s, j));
        lemma_stems_apart(job.place, slug, k, s, j);
    }
}

/// Each number from 1 up to the number of lines that open a fragment is
/// that of a fragment that the lines open.
pub proof fn law_fragment_numbers(job: Job, lines: Seq<Seq<char>>, k: nat)
    requires
        1 <= k <= count_opening(lines),
    ensures
        exists|m: Seq<char>| #[trigger]
            fragment_names(job, lines).contains(m) && is_fragment_name(job.place, m, k),
    decreases lines.len(),
{
    let head = lines.drop_last();
    let next = 1 + count_opening(head);
    if lines.len() > 0 {
        if opens(kind_of(lines.last())) && k == next {
            let stem = fragment_stem(job.place, title_slug(body_of(lines.last())), next);
            let m = sibling(job.place, stem);
            assert(stem_for(job, lines.last(), next) == stem);
            assert(fragment_names(job, lines).contains(m) && is_fragment_name(job.place, m, k));
        } else {
            law_fragment_numbers(job, head, k);
            let m = choose|m: Seq<char>| #[trigger]
                fragment_names(job, head).contains(m) && is_fragment_name(job.place, m, k);
            assert(fragment_names(job, lines).contains(m) && is_fragment_name(job.place, m, k));
        }
    }
}

/// Each line that opens a fragment names a file of its own: the fragments
/// that lines open are as many files as there are cell breaks, block
/// openers and block re-entries among the lines. The line that is the k-th
/// of these opens the fragment with the number k.
pub proof fn law_fragment_files(job: Job, lines: Seq<Seq<char>>)
    ensures
        fragment_names(job, lines).finite(),
        fragment_names(job, lines).len() == count_opening(lines),
    decreases lines.len(),
{
    if lines.len() > 0 {
        let head = lines.drop_last();
        law_fragment_files(job, head);
        if opens(kind_of(lines.last())) {
            lemma_name_new(job, head, title_slug(body_of(lines.last())), 1 + count_opening(head));
        }
    }
}

/// Where neither the root nor a fragment of the script is there already,
/// nothing but a `switch` stops a pass, whether files may be replaced or not.
pub proof fn law_fresh_pass(job: Job, files: Files, lines: Seq<Seq<char>>)
    requires
        !files.contains_key(job.root()),
        forall|m: Seq<char>| fragment_names(job, lines).contains(m) ==> !files.contains_key(m),
        forall|i: int| 0 <= i < lines.len() ==> kind_of(#[trigger] lines[i]) != LineKind::Unsupported,
    ensures
        run(job, begin(job, files), lines).failure is None,
    decreases lines.len(),
{
    if lines.len() > 0 {
        let head = lines.drop_last();
        let line = lines.last();
        assert forall|i: int| 0 <= i < head.len() implies kind_of(#[trigger] head[i])
            != LineKind::Unsupported by {
            assert(head[i] == lines[i]);
        }
        law_fresh_pass(job, files, head);
        assert(line == lines[lines.len() - 1]);
        let prior = run(job, begin(job, files), head);
        lemma_run_names(job, files, head);
        law_fragment_count(job, files, head);
        if opens(kind_of(line)) {
            let name = sibling(job.place, stem_for(job, line, prior.made));
            assert(fragment_names(job, lines).contains(name));
            lemma_name_new(job, head, title_slug(body_of(line)), prior.made);
            crate::sweep::lemma_names_not_root(job, lines);
            let base = if closes(kind_of(line)) { closed_top(prior) } else { prior };
            let cur = current(job, base);
            assert(prior.files.contains_key(job.root()));
            assert(prior.files.contains_key(cur)) by {
                if base.stack.len() > 0 {
                    assert(cur == base.stack[base.stack.len() - 1]);
                    assert(cur == prior.stack[base.stack.len() - 1]);
                }
            }
            let f1 = crate::expand::put_text(
                crate::expand::put_line(prior.files, cur, line),
                cur,
                crate::text::indent_of(line) + if kind_of(line) == LineKind::CellBreak {
                    Seq::<char>::empty()
                } else {
                    "    "@
                },
            );
            assert(f1.dom() =~= prior.files.dom());
            assert(!prior.files.contains_key(name));
        }
    }
}

/// In a directory that holds no root and no fragment of the script, a
/// script without `switch` is expanded without leave to replace files, and
/// the run adds the root and one file for each line that opens a fragment.
pub proof fn law_expand_fresh(files: Files, path: Seq<char>)
    requires
        names_file(path),
        files.contains_key(path),
        !files.contains_key(job_of(path, false).root()),
        forall|m: Seq<char>|
            fragment_names(job_of(path, false), files[path].read()).contains(m)
                ==> !files.contains_key(m),
        forall|i: int|
            0 <= i < files[path].read().len() ==> kind_of(#[trigger] files[path].read()[i])
                != LineKind::Unsupported,
    ensures
        expanded(files, path, false).failure is None,
        expanded(files, path, false).files.dom() == files.dom().insert(
            job_of(path, false).root(),
        ).union(fragment_names(job_of(path, false), files[path].read())),
        fragment_names(job_of(path, false), files[path].read()).len() == count_opening(
            files[path].read(),
        ),
{
    let job = job_of(path, false);
    let lines = files[path].read();
    law_fresh_pass(job, files, lines);
    lemma_run_names(job, files, lines);
    law_fragment_files(job, lines);
}

/// The files of a run: its root and the fragments that its lines open.
pub open spec fn own_files(job: Job, lines: Seq<Seq<char>>) -> Set<Seq<char>> {
    fragment_names(job, lines).insert(job.root())
}

/// What a pass writes to its own files depends on the script alone: two
/// passes over the same lines, for the same script, leave the same in the
/// root and in each fragment, whatever else the two stores hold and whether
/// files may be replaced or not.
pub proof fn lemma_run_same(a: Job, b: Job, fa: Files, fb: Files, lines: Seq<Seq<char>>)
    requires
        a.place == b.place,
        a.origin == b.origin,
        run(a, begin(a, fa), lines).failure is None,
        run(b, begin(b, fb), lines).failure is None,
    ensures
        fragment_names(a, lines) == fragment_names(b, lines),
        run(a, begin(a, fa), lines).stack == run(b, begin(b, fb), lines).stack,
        run(a, begin(a, fa), lines).made == run(b, begin(b, fb), lines).made,
        forall|m: Seq<char>|
            own_files(a, lines).contains(m) ==> #[trigger] run(a, begin(a, fa), lines).files[m]
                == run(b, begin(b, fb), lines).files[m],
        forall|i: int|
            0 <= i < run(a, begin(a, fa), lines).stack.len() ==> own_files(a, lines).contains(
                #[trigger] run(a, begin(a, fa), lines).stack[i],
            ),
    decreases lines.len(),
{
    let root = a.root();
    if lines.len() > 0 {
        let head = lines.drop_last();
        let line = lines.last();
        let pa = run(a, begin(a, fa), head);
        let pb = run(b, begin(b, fb), head);
        if pa.failure is Some {
            crate::expand::lemma_run_failed(a, pa, seq![line]);
        }
        if pb.failure is Some {
            crate::expand::lemma_run_failed(b, pb, seq![line]);
        }
        lemma_run_same(a, b, fa, fb, head);
        law_fragment_count(a, fa, head);
        let la = step(a, pa, line);
        let lb = step(b, pb, line);
        let ba = if closes(kind_of(line)) { closed_top(pa) } else { pa };
        let bb = if closes(kind_of(line)) { closed_top(pb) } else { pb };
        assert(ba.stack == bb.stack);
        assert forall|i: int| 0 <= i < ba.stack.len() implies own_files(a, head).contains(
            #[trigger] ba.stack[i],
        ) by {
            assert(ba.stack[i] == pa.stack[i]);
        }
        let cur = current(a, ba);
        assert(cur == current(b, bb));
        assert(own_files(a, head).contains(cur)) by {
            if ba.stack.len() > 0 {
                assert(cur == ba.stack[ba.stack.len() - 1]);
            }
        }
        assert(ba.files[cur] == bb.files[cur]);
        assert forall|m: Seq<char>| own_files(a, lines).contains(m) implies #[trigger] la.files[m]
            == lb.files[m] by {
            if own_files(a, head).contains(m) {
                assert(pa.files[m] == pb.files[m]);
            }
        }
        assert forall|i: int| 0 <= i < la.stack.len() implies own_files(a, lines).contains(
            #[trigger] la.stack[i],
        ) by {
            if i < ba.stack.len() {
                assert(la.stack[i] == ba.stack[i]);
                assert(own_files(a, head).contains(ba.stack[i]));
            }
        }
    }
}

/// A pass that did not fail met no `switch`.
pub proof fn lemma_no_switch(job: Job, pass: Pass, lines: Seq<Seq<char>>)
    requires
        run(job, pass, lines).failure is None,
    ensures
        forall|i: int| 0 <= i < lines.len() ==> kind_of(#[trigger] lines[i]) != LineKind::Unsupported,
    decreases lines.len(),
{
    if lines.len() > 0 {
        let head = lines.drop_last();
        let prior = run(job, pass, head);
        if prior.failure is Some {
            crate::expand::lemma_run_failed(job, prior, seq![lines.last()]);
        }
        lemma_no_switch(job, pass, head);
        assert forall|i: int| 0 <= i < lines.len() implies kind_of(#[trigger] lines[i])
            != LineKind::Unsupported by {
            if i < head.len() {
                assert(head[i] == lines[i]);
            } else {
                assert(lines[i] == lines.last());
            }
        }
    }
}

/// The script is none of the files of its run.
proof fn lemma_script_not_own(path: Seq<char>, job: Job, lines: Seq<Seq<char>>)
    requires
        names_file(path),
        job.place == crate::layout::place_of(path),
    ensures
        !own_files(job, lines).contains(path),
{
    crate::roundtrip::lemma_script_apart(path, Seq::empty(), 0);
    if fragment_names(job, lines).contains(path) {
        let k = lemma_names_numbered(job, lines, path);
        let s = choose|s: Seq<char>| path == sibling(job.place, #[trigger] fragment_stem(job.place, s, k));
        crate::roundtrip::lemma_script_apart(path, s, k);
    }
}

/// Expanding twice, with leave to replace files, leaves in the root and in
/// each fragment what expanding once, without such leave, leaves in a
/// directory that holds the script alone: the second run succeeds there,
/// makes files of the same names, and writes the same to each.
pub proof fn law_overwrite_as_fresh(files: Files, path: Seq<char>, edited: SinkView)
    requires
        files.dom().finite(),
        expanded(files, path, true).failure is None,
        expanded(expanded(files, path, true).files.insert(path, edited), path, true).failure
            is None,
        crate::text::no_space(crate::layout::place_of(path).stem),
        forall|i: int|
            0 <= i < files[path].read().len() ==> #[trigger] crate::layout::marker_target(
                files[path].read()[i],
            ) is None,
    ensures
        ({
            let alone = Map::<Seq<char>, SinkView>::empty().insert(path, edited);
            let fresh = expanded(alone, path, false);
            let again = expanded(expanded(files, path, true).files.insert(path, edited), path, true);
            let mine = own_files(job_of(path, false), edited.read());
            &&& fresh.failure is None
            &&& fresh.files.dom() == mine.insert(path)
            &&& mine.subset_of(again.files.dom())
            &&& forall|m: Seq<char>| mine.contains(m) ==> #[trigger] again.files[m] == fresh.files[m]
        }),
{
    let jt = job_of(path, true);
    let jf = job_of(path, false);
    let lines = edited.read();
    let first = expanded(files, path, true).files;
    let second = first.insert(path, edited);
    crate::sweep::law_overwrite_clears(files, path, edited);
    let frags = fragment_names(jt, files[path].read());
    let start = second.remove_keys(frags);
    assert(start.contains_key(path));
    assert(start[path] == edited);
    let last = run(jt, begin(jt, start), lines);
    lemma_no_switch(jt, begin(jt, start), lines);
    let alone = Map::<Seq<char>, SinkView>::empty().insert(path, edited);
    lemma_script_not_own(path, jf, lines);
    assert forall|m: Seq<char>| fragment_names(jf, lines).contains(m) implies !alone.contains_key(
        m,
    ) by {}
    law_fresh_pass(jf, alone, lines);
    lemma_run_names(jf, alone, lines);
    lemma_run_names(jt, start, lines);
    lemma_run_same(jt, jf, start, alone, lines);
    assert(alone.dom() =~= Set::empty().insert(path));
    assert(expanded(alone, path, false).files.dom() =~= own_files(jf, lines).insert(path));
}

} // verus!
