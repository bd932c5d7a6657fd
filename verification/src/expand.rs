//! Splitting a script into fragments.
//!
//! The root fragment is fragment 0. It holds what comes before the first
//! cell or block, and the markers of the fragments that are opened while no
//! other fragment is open. Every fragment begins with a header line.
//!
//! Blocks need not be balanced. A terminator that ends no block closes the
//! innermost open fragment if there is one; its text, like any text that
//! comes while no fragment is open, goes to the root. Blocks that are never
//! ended are left open when the lines run out.

use vstd::prelude::*;
use crate::actor::Actor;
use crate::collapse::{delete_from, sweep_file, Swept};
use crate::error::{io_failed, Error, ErrorView};
use crate::layout::{
    fragment_stem, fragment_stem_of, header_line, header_of, marker_line, marker_of, place_of,
    names_file, root_stem, root_stem_of, sibling, sibling_path, split_path, PathParts, Place,
};
use crate::naming::{slugify, title_slug};
use crate::store::{empty_sink, views, Files, Store};
use crate::text::{body_of, chars_of, count_indent, has_prefix_at, indent_of, string_of};

verus! {

/// What a line of a script does to the fragments.
#[derive(Debug, Clone, Copy, PartialEq, Eq, Structural)]
pub enum LineKind {
    /// `%%`: ends the current fragment and opens the next beside it.
    CellBreak,
    /// `end`: ends the current fragment.
    Terminator,
    /// `for`, `while`, `parfor`, `if`, `try`: opens a fragment one level
    /// deeper.
    Opener,
    /// `else`, `elseif`, `catch`: ends the current fragment and opens the
    /// fragment of the next branch.
    Reentry,
    /// `switch`: not supported.
    Unsupported,
    /// Any other line: text of the current fragment.
    Plain,
}

/// The kind of a line. Only the text after the leading white space counts,
/// and the first kind that fits is taken.
pub open spec fn kind_of(line: Seq<char>) -> LineKind {
    let t = body_of(line);
    if "%%"@.is_prefix_of(t) {
        LineKind::CellBreak
    } else if t == "end"@ {
        LineKind::Terminator
    } else if "for"@.is_prefix_of(t) || "while"@.is_prefix_of(t) || "parfor"@.is_prefix_of(t)
        || "if"@.is_prefix_of(t) || "try"@.is_prefix_of(t) {
        LineKind::Opener
    } else if "else"@.is_prefix_of(t) || "elseif"@.is_prefix_of(t) || "catch"@.is_prefix_of(t) {
        LineKind::Reentry
    } else if "switch"@.is_prefix_of(t) {
        LineKind::Unsupported
    } else {
        LineKind::Plain
    }
}

/// Whether a line of this kind opens a fragment.
pub open spec fn opens(k: LineKind) -> bool {
    k == LineKind::CellBreak || k == LineKind::Opener || k == LineKind::Reentry
}

/// Whether a line of this kind ends the current fragment first.
pub open spec fn closes(k: LineKind) -> bool {
    k == LineKind::CellBreak || k == LineKind::Terminator || k == LineKind::Reentry
}

/// Tells the kind of a line.
pub fn classify(line: &str) -> (k: LineKind)
    ensures
        k == kind_of(line@),
{
    let v = chars_of(line);
    let n = count_indent(&v);
    assert(body_of(line@) =~= v@.skip(n as int));
    proof {
        reveal_strlit("end");
    }
    if has_prefix_at(&v, n, "%%") {
        LineKind::CellBreak
    } else if v.len() - n == 3 && has_prefix_at(&v, n, "end") {
        proof {
            let t = body_of(line@);
            assert(t.subrange(0, 3) =~= t);
        }
        LineKind::Terminator
    } else if has_prefix_at(&v, n, "for") || has_prefix_at(&v, n, "while") || has_prefix_at(
        &v,
        n,
        "parfor",
    ) || has_prefix_at(&v, n, "if") || has_prefix_at(&v, n, "try") {
        LineKind::Opener
    } else if has_prefix_at(&v, n, "else") || has_prefix_at(&v, n, "elseif") || has_prefix_at(
        &v,
        n,
        "catch",
    ) {
        LineKind::Reentry
    } else if has_prefix_at(&v, n, "switch") {
        LineKind::Unsupported
    } else {
        LineKind::Plain
    }
}

/// What one run of `expand` works on: the parts of the script's path, the
/// path itself, and whether files in the way may be replaced.
pub ghost struct Job {
    pub place: Place,
    pub origin: Seq<char>,
    pub overwrite: bool,
}

impl Job {
    /// The name of the root fragment.
    pub open spec fn root(self) -> Seq<char> {
        sibling(self.place, root_stem(self.place))
    }
}

/// The state of a pass over the lines of a script: the files, the names of
/// the open fragments (innermost last), how many fragments were made (the
/// root counts), and the failure that stopped the pass.
pub ghost struct Pass {
    pub files: Files,
    pub stack: Seq<Seq<char>>,
    pub made: nat,
    pub failure: Option<ErrorView>,
}

/// The fragment that takes the next line: the innermost open one, or the
/// root when none is open.
pub open spec fn current(job: Job, pass: Pass) -> Seq<char> {
    if pass.stack.len() > 0 {
        pass.stack.last()
    } else {
        job.root()
    }
}

/// The pass after the innermost open fragment, if any, was closed.
pub open spec fn closed_top(pass: Pass) -> Pass {
    Pass { stack: if pass.stack.len() > 0 { pass.stack.drop_last() } else { pass.stack }, ..pass }
}

/// The files after `line` was written to the file called `name`.
pub open spec fn put_line(files: Files, name: Seq<char>, line: Seq<char>) -> Files {
    files.insert(name, files[name].writeln(line))
}

/// The files after `text` was written to the file called `name`, the line
/// left open.
pub open spec fn put_text(files: Files, name: Seq<char>, text: Seq<char>) -> Files {
    files.insert(name, files[name].write(text))
}

/// The pass after `line` went to the current fragment.
pub open spec fn with_line(job: Job, pass: Pass, line: Seq<char>) -> Pass {
    Pass { files: put_line(pass.files, current(job, pass), line), ..pass }
}

/// The stem of the fragment that `line` opens as number `k`.
pub open spec fn stem_for(job: Job, line: Seq<char>, k: nat) -> Seq<char> {
    fragment_stem(job.place, title_slug(body_of(line)), k)
}

/// The pass after `line` opened a fragment below the current one: the line
/// goes to the current fragment, then the new file gets its header and the
/// current fragment a marker, indented as the line and by `extra`. A file in
/// the way stops the pass when it may not be replaced.
pub open spec fn with_fragment(job: Job, pass: Pass, line: Seq<char>, extra: Seq<char>) -> Pass {
    let parent = current(job, pass);
    let stem = stem_for(job, line, pass.made);
    let name = sibling(job.place, stem);
    let f1 = put_text(put_line(pass.files, parent, line), parent, indent_of(line) + extra);
    if f1.contains_key(name) && !job.overwrite {
        Pass { files: f1, failure: Some(io_failed("open"@, name)), ..pass }
    } else {
        let f2 = put_line(f1.insert(name, empty_sink()), name, header_line(pass.made, job.origin));
        let f3 = put_line(f2, parent, marker_line(Seq::empty(), stem, pass.made));
        Pass { files: f3, stack: pass.stack.push(name), made: pass.made + 1, failure: None }
    }
}

/// The pass after one more line. A pass that failed stays as it is.
pub open spec fn step(job: Job, pass: Pass, line: Seq<char>) -> Pass {
    if pass.failure is Some {
        pass
    } else {
        match kind_of(line) {
            LineKind::CellBreak => with_fragment(job, closed_top(pass), line, Seq::empty()),
            LineKind::Terminator => with_line(job, closed_top(pass), line),
            LineKind::Opener => with_fragment(job, pass, line, "    "@),
            LineKind::Reentry => with_fragment(job, closed_top(pass), line, "    "@),
            LineKind::Unsupported => Pass {
                failure: Some(ErrorView::UnsupportedConstruct),
                ..pass
            },
            LineKind::Plain => with_line(job, pass, line),
        }
    }
}

/// The pass after all of `lines`.
pub open spec fn run(job: Job, pass: Pass, lines: Seq<Seq<char>>) -> Pass
    decreases lines.len(),
{
    if lines.len() == 0 {
        pass
    } else {
        step(job, run(job, pass, lines.drop_last()), lines.last())
    }
}

/// The pass before the first line: the root fragment is made, holds its
/// header and is open.
pub open spec fn begin(job: Job, files: Files) -> Pass {
    let root = job.root();
    if files.contains_key(root) && !job.overwrite {
        Pass { files, stack: Seq::empty(), made: 0, failure: Some(io_failed("open"@, root)) }
    } else {
        Pass {
            files: put_line(files.insert(root, empty_sink()), root, header_line(0, job.origin)),
            stack: seq![root],
            made: 1,
            failure: None,
        }
    }
}

/// A pass that failed is not changed by more lines.
pub proof fn lemma_run_failed(job: Job, pass: Pass, lines: Seq<Seq<char>>)
    requires
        pass.failure is Some,
    ensures
        run(job, pass, lines) == pass,
    decreases lines.len(),
{
    if lines.len() > 0 {
        lemma_run_failed(job, pass, lines.drop_last());
    }
}

/// Running over `lines` is running over a first part and then over the rest.
pub proof fn lemma_run_split(job: Job, pass: Pass, lines: Seq<Seq<char>>, n: int)
    requires
        0 <= n <= lines.len(),
    ensures
        run(job, pass, lines) == run(job, run(job, pass, lines.take(n)), lines.skip(n)),
    decreases lines.len(),
{
    if n == lines.len() {
        assert(lines.take(n) =~= lines);
    } else {
        lemma_run_split(job, pass, lines.drop_last(), n);
        assert(lines.drop_last().take(n) =~= lines.take(n));
        assert(lines.drop_last().skip(n) =~= lines.skip(n).drop_last());
    }
}

/// What one run of `expand` works on.
pub struct Context {
    pub parts: PathParts,
    pub origin: String,
    pub overwrite: bool,
}

impl View for Context {
    type V = Job;

    open spec fn view(&self) -> Job {
        Job { place: self.parts@, origin: self.origin@, overwrite: self.overwrite }
    }
}

/// The names of the files in the given slots.
pub open spec fn names_at(store: Store, cells: Seq<usize>) -> Seq<Seq<char>> {
    Seq::new(cells.len(), |i: int| store.name_at(cells[i] as int))
}

/// The pass that a store, the slots of the open fragments and the number
/// of fragments made stand for.
pub open spec fn pass_of(store: Store, cells: Seq<usize>, made: nat) -> Pass {
    Pass { files: store@, stack: names_at(store, cells), made, failure: None }
}

/// The slots are those of files of the store, and `root` is the slot of the
/// root fragment.
pub open spec fn slots_fit(store: Store, job: Job, root: usize, cells: Seq<usize>) -> bool {
    &&& store.wf()
    &&& root < store.count()
    &&& store.name_at(root as int) == job.root()
    &&& forall|i: int| 0 <= i < cells.len() ==> #[trigger] cells[i] < store.count()
}

/// Makes the file at `path` anew and returns its slot. A file in the way is
/// emptied if `overwrite` is set; if not, the call fails.
pub fn try_create(actor: &Actor, store: &mut Store, path: &str, overwrite: bool) -> (r: Result<
    usize,
    Error,
>)
    requires
        old(store).wf(),
    ensures
        final(store).wf(),
        forall|k: int|
            0 <= k < old(store).count() ==> final(store).name_at(k) == old(store).name_at(k),
        final(store).count() >= old(store).count(),
        r is Err <==> old(store)@.contains_key(path@) && !overwrite,
        r matches Err(e) ==> e@ == io_failed("open"@, path@) && final(store)@ == old(store)@,
        r matches Ok(h) ==> h < final(store).count() && final(store).name_at(h as int) == path@
            && final(store)@ == old(store)@.insert(path@, empty_sink()),
{
    actor.open_options(store, overwrite, path)
}

/// Opens fragment `n` for the line with the given text after its leading
/// white space: makes the file, writes its header, and writes the marker to
/// the file in slot `parent`. Returns the slot of the new file.
pub fn start_cell(
    actor: &Actor,
    store: &mut Store,
    ctx: &Context,
    parent: usize,
    n: u128,
    title: &str,
) -> (r: Result<usize, Error>)
    requires
        old(store).wf(),
        parent < old(store).count(),
    ensures
        final(store).wf(),
        forall|k: int|
            0 <= k < old(store).count() ==> final(store).name_at(k) == old(store).name_at(k),
        final(store).count() >= old(store).count(),
        ({
            let stem = fragment_stem(ctx@.place, title_slug(title@), n as nat);
            let name = sibling(ctx@.place, stem);
            let held = old(store)@.contains_key(name) && !ctx.overwrite;
            &&& r is Err <==> held
            &&& r matches Err(e) ==> e@ == io_failed("open"@, name) && final(store)@ == old(
                store,
            )@
            &&& r matches Ok(h) ==> h < final(store).count() && final(store).name_at(h as int)
                == name && final(store)@ == put_line(
                put_line(
                    old(store)@.insert(name, empty_sink()),
                    name,
                    header_line(n as nat, ctx@.origin),
                ),
                old(store).name_at(parent as int),
                marker_line(Seq::empty(), stem, n as nat),
            )
        }),
{
    let v = chars_of(title);
    let mut from: usize = 0;
    while from < v.len() && v[from] == '%'
        invariant
            from <= v.len(),
            forall|i: int| 0 <= i < from ==> #[trigger] v@[i] == '%',
        decreases v.len() - from,
    {
        from = from + 1;
    }
    proof {
        crate::naming::lemma_strip_leading(v@, '%', from as int);
    }
    let bare = string_of(&v, from, v.len());
    let slug = slugify(bare.as_str(), 20);
    let stem = fragment_stem_of(&ctx.parts, slug.as_str(), n);
    let name = sibling_path(&ctx.parts, stem.as_str());
    let cell = try_create(actor, store, name.as_str(), ctx.overwrite)?;
    let header = header_of(n, ctx.origin.as_str());
    store.write_at(actor, cell, header.as_str(), true)?;
    let marker = marker_of("", stem.as_str(), n);
    proof {
        reveal_strlit("");
        assert(""@ =~= Seq::<char>::empty());
    }
    store.write_at(actor, parent, marker.as_str(), true)?;
    Ok(cell)
}

/// Has `line` open fragment `n` below the current fragment: the line goes
/// to the current fragment, and the marker of the new fragment follows it,
/// indented as the line and by `indent`. The new fragment becomes the
/// innermost open one.
pub fn write_cell(
    actor: &Actor,
    store: &mut Store,
    ctx: &Context,
    cells: &mut Vec<usize>,
    root: usize,
    n: u128,
    indent: &str,
    line: &str,
) -> (r: Result<(), Error>)
    requires
        slots_fit(*old(store), ctx@, root, old(cells)@),
    ensures
        slots_fit(*final(store), ctx@, root, final(cells)@),
        ({
            let before = pass_of(*old(store), old(cells)@, n as nat);
            let after = with_fragment(ctx@, before, line@, indent@);
            &&& final(store)@ == after.files
            &&& r is Ok ==> pass_of(*final(store), final(cells)@, n as nat + 1) == after
            &&& r matches Err(e) ==> after.failure == Some(e@) && final(cells)@ == old(cells)@
        }),
{
    let parent: usize = if cells.len() > 0 {
        cells[cells.len() - 1]
    } else {
        root
    };
    let ghost before = pass_of(*old(store), old(cells)@, n as nat);
    assert(store.name_at(parent as int) == current(ctx@, before));
    let v = chars_of(line);
    let k = count_indent(&v);
    let lead = string_of(&v, 0, k);
    let prefix = crate::text::join2(lead.as_str(), indent);
    let title = string_of(&v, k, v.len());
    assert(lead@ =~= indent_of(line@));
    assert(title@ =~= body_of(line@));
    store.write_at(actor, parent, line, true)?;
    store.write_at(actor, parent, prefix.as_str(), false)?;
    let cell = start_cell(actor, store, ctx, parent, n, title.as_str())?;
    cells.push(cell);
    proof {
        let stem = stem_for(ctx@, line@, n as nat);
        let name = sibling(ctx@.place, stem);
        assert(names_at(*store, cells@) =~= before.stack.push(name));
    }
    Ok(())
}

/// Takes one line of the script: classifies it and does what its kind asks.
pub fn feed(
    actor: &Actor,
    store: &mut Store,
    ctx: &Context,
    cells: &mut Vec<usize>,
    root: usize,
    made: &mut u128,
    line: &str,
) -> (r: Result<(), Error>)
    requires
        slots_fit(*old(store), ctx@, root, old(cells)@),
        *old(made) < u128::MAX,
    ensures
        slots_fit(*final(store), ctx@, root, final(cells)@),
        ({
            let before = pass_of(*old(store), old(cells)@, *old(made) as nat);
            let after = step(ctx@, before, line@);
            &&& final(store)@ == after.files
            &&& r is Ok ==> pass_of(*final(store), final(cells)@, *final(made) as nat) == after
            &&& r matches Err(e) ==> after.failure == Some(e@)
        }),
{
    let ghost before = pass_of(*old(store), old(cells)@, *old(made) as nat);
    let kind = classify(line);
    match kind {
        LineKind::Unsupported => {
            return Err(Error::UnsupportedConstruct);
        },
        LineKind::Plain => {},
        LineKind::Opener => {},
        _ => {
            if cells.len() > 0 {
                let _ = cells.pop();
            }
            assert(names_at(*store, cells@) =~= closed_top(before).stack);
        },
    }
    match kind {
        LineKind::CellBreak => {
            proof {
                reveal_strlit("");
                assert(""@ =~= Seq::<char>::empty());
            }
            write_cell(actor, store, ctx, cells, root, *made, "", line)?;
            *made = *made + 1;
        },
        LineKind::Opener | LineKind::Reentry => {
            write_cell(actor, store, ctx, cells, root, *made, "    ", line)?;
            *made = *made + 1;
        },
        _ => {
            let target: usize = if cells.len() > 0 {
                cells[cells.len() - 1]
            } else {
                root
            };
            let ghost mid = pass_of(*store, cells@, *made as nat);
            assert(store.name_at(target as int) == current(ctx@, mid));
            store.write_at(actor, target, line, true)?;
            assert(names_at(*store, cells@) =~= mid.stack);
        },
    }
    Ok(())
}

/// The job that `expand` does on the script at `path`.
pub open spec fn job_of(path: Seq<char>, overwrite: bool) -> Job {
    Job { place: place_of(path), origin: path, overwrite }
}

/// The files before the pass: where files may be replaced and there is a
/// root fragment already, the fragments it refers to are deleted.
pub open spec fn cleared(files: Files, path: Seq<char>, overwrite: bool) -> Swept {
    let root = job_of(path, overwrite).root();
    if overwrite && files.contains_key(root) {
        sweep_file(files, root, files.dom().len())
    } else {
        Swept { files, failure: None }
    }
}

/// What `expand` leaves. The path must name a file; old fragments are
/// cleared away; the script is read; then the pass runs over its lines.
/// Whatever fails stops the work, and what was written until then stays.
pub open spec fn expanded(files: Files, path: Seq<char>, overwrite: bool) -> Swept {
    if !names_file(path) {
        Swept { files, failure: Some(ErrorView::InvalidPath) }
    } else {
        let swept = cleared(files, path, overwrite);
        if swept.failure is Some {
            swept
        } else if !swept.files.contains_key(path) {
            Swept { files: swept.files, failure: Some(io_failed("open"@, path)) }
        } else {
            let job = job_of(path, overwrite);
            let last = run(job, begin(job, swept.files), swept.files[path].read());
            Swept { files: last.files, failure: last.failure }
        }
    }
}

/// Splits the script at `path` into fragments: a root fragment beside it,
/// and one numbered fragment for each cell and each block.
pub fn expand(actor: Actor, store: &mut Store, path: &str, overwrite: bool) -> (r: Result<
    (),
    Error,
>)
    requires
        old(store).wf(),
    ensures
        final(store).wf(),
        final(store)@ == expanded(old(store)@, path@, overwrite).files,
        r is Ok <==> expanded(old(store)@, path@, overwrite).failure is None,
        r matches Err(e) ==> expanded(old(store)@, path@, overwrite).failure == Some(e@),
{
    let parts = split_path(path)?;
    let ctx = Context { parts, origin: path.to_string(), overwrite };
    assert(ctx@ == job_of(path@, overwrite));
    let stem = root_stem_of(&ctx.parts);
    let root_name = sibling_path(&ctx.parts, stem.as_str());
    if overwrite && store.contains(root_name.as_str()) {
        let depth = store.len();
        delete_from(&actor, store, root_name.as_str(), depth)?;
    }
    let ghost swept = store@;
    let lines = actor.open(store, path)?;
    let ghost text = views(lines@);
    assert(cleared(old(store)@, path@, overwrite) == Swept { files: swept, failure: None });
    let root = match try_create(&actor, store, root_name.as_str(), overwrite) {
        Ok(h) => h,
        Err(e) => {
            proof {
                lemma_run_failed(ctx@, begin(ctx@, swept), text);
            }
            return Err(e);
        },
    };
    let header = header_of(0, path);
    store.write_at(&actor, root, header.as_str(), true)?;
    let mut cells: Vec<usize> = Vec::new();
    cells.push(root);
    let mut made: u128 = 1;
    assert(names_at(*store, cells@) =~= seq![root_name@]);
    let mut i: usize = 0;
    while i < lines.len()
        invariant
            i <= lines@.len(),
            text == views(lines@),
            made <= i + 1,
            names_file(path@),
            ctx@ == job_of(path@, overwrite),
            cleared(old(store)@, path@, overwrite) == (Swept { files: swept, failure: None }),
            swept.contains_key(path@),
            text == swept[path@].read(),
            slots_fit(*store, ctx@, root, cells@),
            pass_of(*store, cells@, made as nat) == run(
                ctx@,
                begin(ctx@, swept),
                text.take(i as int),
            ),
        decreases lines.len() - i,
    {
        let ghost before = pass_of(*store, cells@, made as nat);
        proof {
            assert(text.take(i + 1).drop_last() =~= text.take(i as int));
            assert(text.take(i + 1).last() == lines@[i as int]@);
        }
        let fed = feed(&actor, store, &ctx, &mut cells, root, &mut made, lines[i].as_str());
        if let Err(e) = fed {
            proof {
                let failed = run(ctx@, begin(ctx@, swept), text.take(i + 1));
                lemma_run_split(ctx@, begin(ctx@, swept), text, i + 1);
                lemma_run_failed(ctx@, failed, text.skip(i + 1));
            }
            return Err(e);
        }
        assert(made <= i + 2) by {
            assert(step(ctx@, before, lines@[i as int]@).made <= before.made + 1);
        }
        i = i + 1;
    }
    proof {
        assert(text.take(i as int) =~= text);
    }
    Ok(())
}

} // verus!
