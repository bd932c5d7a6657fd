//! Joining fragments back into one script, and clearing them away.
//!
//! Both walks follow markers from file to file. A walk is given a depth: the
//! number of files of the store is enough for any tree of fragments, and a
//! file that lies deeper cannot be opened. Files that refer to each other
//! in a circle therefore end a walk with a failure.

use vstd::prelude::*;
use crate::actor::Actor;
use crate::error::{io_failed, Error, ErrorView};
use crate::layout::{
    marker_target, names_root, parts_of, place_of, read_marker, root_stem, script_of,
    script_path, sibling, sibling_path,
};
use crate::store::{sink_of, views, Files, Sink, SinkView, Store};

verus! {

/// The lines that a walk gave, and the failure that stopped it.
pub ghost struct Flow {
    pub out: Seq<Seq<char>>,
    pub failure: Option<ErrorView>,
}

/// The lines of a fragment after its header.
pub open spec fn body_lines(lines: Seq<Seq<char>>) -> Seq<Seq<char>> {
    if lines.len() > 0 {
        lines.skip(1)
    } else {
        lines
    }
}

/// The file that the file at `from` refers to by `stem`.
pub open spec fn child_of(from: Seq<char>, stem: Seq<char>) -> Seq<char> {
    sibling(place_of(from), stem)
}

/// The text of the fragment at `from`: its lines after the header, each
/// marker replaced by the text of the fragment it refers to. A fragment
/// that is missing cannot be opened, nor can one that lies `depth` or more
/// references deep.
pub open spec fn inline_file(files: Files, from: Seq<char>, depth: nat) -> Flow
    decreases depth, 0nat,
{
    if depth == 0 || !files.contains_key(from) {
        Flow { out: Seq::empty(), failure: Some(io_failed("open"@, from)) }
    } else {
        inline_lines(files, from, body_lines(files[from].read()), (depth - 1) as nat)
    }
}

/// The text that the given lines of the file at `from` stand for.
pub open spec fn inline_lines(
    files: Files,
    from: Seq<char>,
    lines: Seq<Seq<char>>,
    depth: nat,
) -> Flow
    decreases depth, lines.len() + 1,
{
    if lines.len() == 0 {
        Flow { out: Seq::empty(), failure: None }
    } else {
        let head = inline_lines(files, from, lines.drop_last(), depth);
        if head.failure is Some {
            head
        } else {
            match marker_target(lines.last()) {
                Some(stem) => {
                    let sub = inline_file(files, child_of(from, stem), depth);
                    Flow { out: head.out + sub.out, failure: sub.failure }
                },
                None => Flow { out: head.out.push(lines.last()), failure: None },
            }
        }
    }
}

/// A sink after each of `lines` was written to it.
pub open spec fn written(sink: SinkView, lines: Seq<Seq<char>>) -> SinkView
    decreases lines.len(),
{
    if lines.len() == 0 {
        sink
    } else {
        written(sink, lines.drop_last()).writeln(lines.last())
    }
}

pub proof fn lemma_written_add(sink: SinkView, a: Seq<Seq<char>>, b: Seq<Seq<char>>)
    ensures
        written(sink, a + b) == written(written(sink, a), b),
    decreases b.len(),
{
    if b.len() == 0 {
        assert(a + b =~= a);
    } else {
        lemma_written_add(sink, a, b.drop_last());
        assert((a + b).drop_last() =~= a + b.drop_last());
    }
}

/// The path of the file that the file at `from` refers to by `stem`.
pub fn child_path(from: &str, stem: &str) -> (p: String)
    ensures
        p@ == child_of(from@, stem@),
{
    let parts = parts_of(from);
    sibling_path(&parts, stem)
}

/// Writes to `to` the text of the fragment at `from`, going at most `depth`
/// references deep.
pub fn collapse_into(actor: &Actor, store: &Store, from: &str, to: &mut Sink, depth: usize) -> (r:
    Result<(), Error>)
    requires
        store.wf(),
    ensures
        final(to)@ == written(old(to)@, inline_file(store@, from@, depth as nat).out),
        r is Ok <==> inline_file(store@, from@, depth as nat).failure is None,
        r matches Err(e) ==> inline_file(store@, from@, depth as nat).failure == Some(e@),
    decreases depth,
{
    if depth == 0 {
        return Err(Error::IoFailed { action: "open", target: from.to_string() });
    }
    let lines = actor.open(store, from)?;
    let ghost all = store@[from@].read();
    let ghost body = body_lines(all);
    let mut i: usize = 1;
    let n = lines.len();
    if n == 0 {
        return Ok(());
    }
    while i < n
        invariant
            store.wf(),
            depth > 0,
            store@.contains_key(from@),
            all == store@[from@].read(),
            1 <= i <= n,
            n == lines@.len(),
            views(lines@) == all,
            body == all.skip(1),
            to@ == written(
                old(to)@,
                inline_lines(store@, from@, body.take(i - 1), (depth - 1) as nat).out,
            ),
            inline_lines(store@, from@, body.take(i - 1), (depth - 1) as nat).failure is None,
        decreases n - i,
    {
        let line = lines[i].as_str();
        let ghost head = inline_lines(store@, from@, body.take(i - 1), (depth - 1) as nat);
        proof {
            assert(body.take(i as int).drop_last() =~= body.take(i - 1));
            assert(body.take(i as int).last() == line@);
        }
        match read_marker(line) {
            Some(stem) => {
                let ghost now = inline_lines(store@, from@, body.take(i as int), (depth - 1) as nat);
                let path = child_path(from, stem.as_str());
                let sub = collapse_into(actor, store, path.as_str(), to, depth - 1);
                proof {
                    let flow = inline_file(store@, path@, (depth - 1) as nat);
                    assert(now.out == head.out + flow.out);
                    lemma_written_add(old(to)@, head.out, flow.out);
                    if flow.failure is Some {
                        assert(now.failure is Some);
                        lemma_inline_stop(store@, from@, body, i as int, (depth - 1) as nat);
                    }
                }
                if let Err(e) = sub {
                    return Err(e);
                }
            },
            None => {
                actor.writeln(to, line, from)?;
                proof {
                    let out = head.out.push(line@);
                    assert(out.drop_last() =~= head.out);
                    assert(out.last() == line@);
                }
            },
        }
        i = i + 1;
    }
    proof {
        assert(body.take(n - 1) =~= body);
    }
    Ok(())
}

/// A walk that failed after the first `i` lines has failed after all of
/// them, with the same output.
pub proof fn lemma_inline_stop(
    files: Files,
    from: Seq<char>,
    lines: Seq<Seq<char>>,
    i: int,
    depth: nat,
)
    requires
        0 <= i <= lines.len(),
        inline_lines(files, from, lines.take(i), depth).failure is Some,
    ensures
        inline_lines(files, from, lines, depth) == inline_lines(files, from, lines.take(i), depth),
    decreases lines.len(),
{
    if i == lines.len() {
        assert(lines.take(i) =~= lines);
    } else {
        assert(lines.drop_last().take(i) =~= lines.take(i));
        lemma_inline_stop(files, from, lines.drop_last(), i, depth);
    }
}

/// The files that a sweep left, and the failure that stopped it.
pub ghost struct Swept {
    pub files: Files,
    pub failure: Option<ErrorView>,
}

/// The files after every fragment that the file at `from` refers to, directly
/// or through other fragments, was deleted: for each marker in turn, first
/// what the fragment refers to, then the fragment. The file at `from` stays.
pub open spec fn sweep_file(files: Files, from: Seq<char>, depth: nat) -> Swept
    decreases depth, 0nat,
{
    if depth == 0 || !files.contains_key(from) {
        Swept { files, failure: Some(io_failed("open"@, from)) }
    } else {
        sweep_lines(files, from, files[from].read(), (depth - 1) as nat)
    }
}

/// The files after the fragments that the given lines of the file at `from`
/// refer to were deleted.
pub open spec fn sweep_lines(
    files: Files,
    from: Seq<char>,
    lines: Seq<Seq<char>>,
    depth: nat,
) -> Swept
    decreases depth, lines.len() + 1,
{
    if lines.len() == 0 {
        Swept { files, failure: None }
    } else {
        let head = sweep_lines(files, from, lines.drop_last(), depth);
        if head.failure is Some {
            head
        } else {
            match marker_target(lines.last()) {
                Some(stem) => {
                    let child = child_of(from, stem);
                    let sub = sweep_file(head.files, child, depth);
                    if sub.failure is Some {
                        sub
                    } else if !sub.files.contains_key(child) {
                        Swept { files: sub.files, failure: Some(io_failed("delete"@, child)) }
                    } else {
                        Swept { files: sub.files.remove(child), failure: None }
                    }
                },
                None => head,
            }
        }
    }
}

/// A sweep that failed after the first `i` lines has failed after all of
/// them, with the same files left.
pub proof fn lemma_sweep_stop(
    files: Files,
    from: Seq<char>,
    lines: Seq<Seq<char>>,
    i: int,
    depth: nat,
)
    requires
        0 <= i <= lines.len(),
        sweep_lines(files, from, lines.take(i), depth).failure is Some,
    ensures
        sweep_lines(files, from, lines, depth) == sweep_lines(files, from, lines.take(i), depth),
    decreases lines.len(),
{
    if i == lines.len() {
        assert(lines.take(i) =~= lines);
    } else {
        assert(lines.drop_last().take(i) =~= lines.take(i));
        lemma_sweep_stop(files, from, lines.drop_last(), i, depth);
    }
}

/// Deletes every fragment that the file at `file` refers to, directly or
/// through other fragments, going at most `depth` references deep.
pub fn delete_from(actor: &Actor, store: &mut Store, file: &str, depth: usize) -> (r: Result<
    (),
    Error,
>)
    requires
        old(store).wf(),
    ensures
        final(store).wf(),
        final(store)@ == sweep_file(old(store)@, file@, depth as nat).files,
        r is Ok <==> sweep_file(old(store)@, file@, depth as nat).failure is None,
        r matches Err(e) ==> sweep_file(old(store)@, file@, depth as nat).failure == Some(e@),
    decreases depth,
{
    if depth == 0 {
        return Err(Error::IoFailed { action: "open", target: file.to_string() });
    }
    let lines = actor.open(store, file)?;
    let ghost all = old(store)@[file@].read();
    let mut i: usize = 0;
    let n = lines.len();
    while i < n
        invariant
            store.wf(),
            depth > 0,
            old(store)@.contains_key(file@),
            all == old(store)@[file@].read(),
            0 <= i <= n,
            n == lines@.len(),
            views(lines@) == all,
            store@ == sweep_lines(old(store)@, file@, all.take(i as int), (depth - 1) as nat).files,
            sweep_lines(old(store)@, file@, all.take(i as int), (depth - 1) as nat).failure is None,
        decreases n - i,
    {
        let line = lines[i].as_str();
        proof {
            assert(all.take(i + 1).drop_last() =~= all.take(i as int));
            assert(all.take(i + 1).last() == line@);
        }
        let ghost now = sweep_lines(old(store)@, file@, all.take(i + 1), (depth - 1) as nat);
        match read_marker(line) {
            Some(stem) => {
                let path = child_path(file, stem.as_str());
                let sub = delete_from(actor, store, path.as_str(), depth - 1);
                if let Err(e) = sub {
                    proof {
                        assert(now.failure == Some(e@));
                        lemma_sweep_stop(old(store)@, file@, all, i + 1, (depth - 1) as nat);
                    }
                    return Err(e);
                }
                let gone = actor.delete(store, path.as_str());
                if let Err(e) = gone {
                    proof {
                        assert(store@ =~= now.files);
                        assert(now.failure == Some(e@));
                        lemma_sweep_stop(old(store)@, file@, all, i + 1, (depth - 1) as nat);
                    }
                    return Err(e);
                }
            },
            None => {},
        }
        i = i + 1;
    }
    proof {
        assert(all.take(n as int) =~= all);
    }
    Ok(())
}

/// Lines written to a sink whose last line is not open come after its lines.
pub proof fn lemma_written_lines(a: Seq<Seq<char>>, b: Seq<Seq<char>>)
    ensures
        written(sink_of(a), b) == sink_of(a + b),
    decreases b.len(),
{
    if b.len() == 0 {
        assert(a + b =~= a);
    } else {
        lemma_written_lines(a, b.drop_last());
        let prior = sink_of(a + b.drop_last());
        assert(prior.partial + b.last() =~= b.last());
        assert((a + b.drop_last()).push(b.last()) =~= a + b);
    }
}

/// The name of the root fragment of the script at `path`.
pub open spec fn root_of(path: Seq<char>) -> Seq<char> {
    sibling(place_of(path), root_stem(place_of(path)))
}

/// What `collapse` leaves, given the path of a root fragment: the script
/// that the root belongs to holds the text of the root, as far as it could
/// be read. No other file changes.
pub open spec fn collapsed(files: Files, path: Seq<char>) -> Swept {
    if !names_root(path) {
        Swept { files, failure: Some(ErrorView::InvalidPath) }
    } else {
        let flow = inline_file(files, path, files.dom().len());
        Swept { files: files.insert(script_of(path), sink_of(flow.out)), failure: flow.failure }
    }
}

/// Rebuilds a script from the root fragment at `path`: the text of the
/// root is read, each marker replaced by the text of the fragment it refers
/// to, and the script beside the root is made anew with that text.
pub fn collapse(actor: Actor, store: &mut Store, path: &str) -> (r: Result<(), Error>)
    requires
        old(store).wf(),
    ensures
        final(store).wf(),
        final(store)@ == collapsed(old(store)@, path@).files,
        r is Ok <==> collapsed(old(store)@, path@).failure is None,
        r matches Err(e) ==> collapsed(old(store)@, path@).failure == Some(e@),
{
    let script = script_path(path)?;
    let depth = store.len();
    let mut sink = Sink::new();
    let r = collapse_into(&actor, store, path, &mut sink, depth);
    proof {
        let flow = inline_file(store@, path@, depth as nat);
        lemma_written_lines(Seq::empty(), flow.out);
        assert(Seq::<Seq<char>>::empty() + flow.out =~= flow.out);
    }
    let made = actor.create(store, script.as_str());
    let out: usize = match made {
        Ok(h) => h,
        Err(e) => {
            return Err(e);
        },
    };
    store.set_sink(out, sink);
    proof {
        let flow = inline_file(old(store)@, path@, depth as nat);
        assert(store@ =~= old(store)@.insert(script@, sink_of(flow.out)));
    }
    r
}

} // verus!
