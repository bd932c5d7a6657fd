//! Expanding again clears away the fragments of the run before.

use vstd::prelude::*;
use crate::collapse::{body_lines, child_of, sweep_file, sweep_lines, Swept};
use crate::expand::{
    begin, cleared, closed_top, closes, current, expanded, job_of, kind_of, opens, put_line, run,
    stem_for, step, Job, LineKind, Pass,
};
use crate::laws::{count_opening, law_fragment_count};
use crate::store::SinkView;
use crate::layout::{header_line, marker_target, sibling, token_len, Place};
use crate::roundtrip::{
    agree, holds, lemma_ends, lemma_step, next_shape, opened, popped, shape_of,
    targets_in, Shape,
};
use crate::store::Files;
use crate::text::{body_of, indent_len};

verus! {

/// Where the numbers of a fragment and of all below it end: for a closed
/// fragment the number that was next when it was closed, for an open one
/// the number that is next now.
pub open spec fn end_of(g: Shape, upto: Map<Seq<char>, nat>, made: nat, m: Seq<char>) -> nat {
    if g.closed.contains(m) {
        upto[m]
    } else {
        made
    }
}

/// The number that the next fragment below `m` has, after the given lines
/// of `m`.
pub open spec fn front(
    g: Shape,
    upto: Map<Seq<char>, nat>,
    made: nat,
    m: Seq<char>,
    lines: Seq<Seq<char>>,
) -> nat
    decreases lines.len(),
{
    if lines.len() == 0 {
        g.rank[m] + 1
    } else {
        match marker_target(lines.last()) {
            Some(t) => end_of(g, upto, made, child_of(m, t)),
            None => front(g, upto, made, m, lines.drop_last()),
        }
    }
}

/// The files of the run with a number from `lo` up to, not including, `hi`.
pub open spec fn between(g: Shape, lo: nat, hi: nat) -> Set<Seq<char>> {
    Set::new(|n: Seq<char>| g.mine().contains(n) && lo <= g.rank[n] < hi)
}

/// The header of `m` is no marker, and each marker of `m` refers to the
/// fragment whose number comes next after all that lies below the markers
/// before it.
pub open spec fn spanned_at(
    g: Shape,
    upto: Map<Seq<char>, nat>,
    files: Files,
    made: nat,
    m: Seq<char>,
) -> bool {
    let body = body_lines(files[m].lines);
    &&& marker_target(files[m].lines[0]) is None
    &&& front(g, upto, made, m, body) == end_of(g, upto, made, m)
    &&& forall|i: int|
        0 <= i < body.len() ==> (#[trigger] marker_target(body[i]) matches Some(t)
            ==> g.mine().contains(child_of(m, t)) && g.rank[child_of(m, t)] == front(
            g,
            upto,
            made,
            m,
            body.take(i),
        ))
}

/// The fragments are numbered in the order in which a walk from the root
/// meets them, and no two have the same number.
#[verifier::opaque]
pub open spec fn spanned(g: Shape, upto: Map<Seq<char>, nat>, files: Files, made: nat) -> bool {
    &&& forall|m: Seq<char>, n: Seq<char>|
        g.mine().contains(m) && g.mine().contains(n) && g.rank[m] == g.rank[n] ==> m == n
    &&& forall|m: Seq<char>| #[trigger] g.closed.contains(m) ==> g.rank[m] < upto[m] <= made
    &&& g.rank[g.chain[0]] == 0
    &&& forall|m: Seq<char>| #[trigger]
        g.mine().contains(m) ==> spanned_at(g, upto, files, made, m)
}

/// The front after lines does not depend on what is known of files that
/// the lines do not refer to.
pub proof fn lemma_front_same(
    g1: Shape,
    upto1: Map<Seq<char>, nat>,
    made1: nat,
    g2: Shape,
    upto2: Map<Seq<char>, nat>,
    made2: nat,
    m: Seq<char>,
    lines: Seq<Seq<char>>,
)
    requires
        g1.rank[m] == g2.rank[m],
        forall|i: int|
            0 <= i < lines.len() ==> (#[trigger] marker_target(lines[i]) matches Some(t) ==> end_of(
                g1,
                upto1,
                made1,
                child_of(m, t),
            ) == end_of(g2, upto2, made2, child_of(m, t))),
    ensures
        front(g1, upto1, made1, m, lines) == front(g2, upto2, made2, m, lines),
    decreases lines.len(),
{
    if lines.len() > 0 {
        assert(lines.last() == lines[lines.len() - 1]);
        let head = lines.drop_last();
        assert forall|i: int| 0 <= i < head.len() implies (#[trigger] marker_target(
            head[i],
        ) matches Some(t) ==> end_of(g1, upto1, made1, child_of(m, t)) == end_of(
            g2,
            upto2,
            made2,
            child_of(m, t),
        )) by {
            assert(head[i] == lines[i]);
        }
        lemma_front_same(g1, upto1, made1, g2, upto2, made2, m, head);
    }
}

/// A header is no marker.
pub proof fn lemma_header_plain(k: nat, origin: Seq<char>)
    ensures
        marker_target(header_line(k, origin)) is None,
{
    reveal_strlit("% part ");
    reveal_strlit(" %cellsplit<");
    let line = header_line(k, origin);
    let lead = "% part "@;
    assert(line[0] == lead[0]);
    assert(line[1] == lead[1]);
    assert(line[2] == lead[2]);
    assert(indent_len(line) == 0);
    let b = body_of(line);
    assert(b =~= line);
    assert(token_len(b.skip(1)) == 0) by {
        assert(b.skip(1)[0] == line[1]);
    }
    assert(token_len(b) == 1);
    let rest = b.skip(1);
    assert(rest[1] == line[2]);
    let lit = " %cellsplit<"@;
    if lit.is_prefix_of(rest) {
        assert(rest.subrange(0, lit.len() as int)[1] == lit[1]);
    }
}

/// Two descriptions that give each file the same end give each row of
/// lines the same front.
proof fn lemma_front_eq(
    g1: Shape,
    upto1: Map<Seq<char>, nat>,
    made1: nat,
    g2: Shape,
    upto2: Map<Seq<char>, nat>,
    made2: nat,
    m: Seq<char>,
    lines: Seq<Seq<char>>,
)
    requires
        g1.rank[m] == g2.rank[m],
        forall|n: Seq<char>| #[trigger]
            end_of(g1, upto1, made1, n) == end_of(g2, upto2, made2, n),
    ensures
        front(g1, upto1, made1, m, lines) == front(g2, upto2, made2, m, lines),
{
    lemma_front_same(g1, upto1, made1, g2, upto2, made2, m, lines);
}

/// A line that is no marker moves no front.
proof fn lemma_front_push(
    g: Shape,
    upto: Map<Seq<char>, nat>,
    made: nat,
    m: Seq<char>,
    lines: Seq<Seq<char>>,
    line: Seq<char>,
)
    requires
        marker_target(line) is None,
    ensures
        front(g, upto, made, m, lines.push(line)) == front(g, upto, made, m, lines),
{
    assert(lines.push(line).drop_last() =~= lines);
}

/// What a file keeps where its lines stay and each file keeps its end.
proof fn lemma_at_same(
    g1: Shape,
    upto1: Map<Seq<char>, nat>,
    f1: Files,
    made1: nat,
    g2: Shape,
    upto2: Map<Seq<char>, nat>,
    f2: Files,
    made2: nat,
    m: Seq<char>,
)
    requires
        spanned_at(g1, upto1, f1, made1, m),
        f2[m].lines == f1[m].lines,
        g1.rank == g2.rank,
        forall|n: Seq<char>| #[trigger]
            end_of(g1, upto1, made1, n) == end_of(g2, upto2, made2, n),
    ensures
        spanned_at(g2, upto2, f2, made2, m),
{
    let body = body_lines(f1[m].lines);
    lemma_front_eq(g1, upto1, made1, g2, upto2, made2, m, body);
    assert forall|i: int| 0 <= i < body.len() implies (#[trigger] marker_target(
        body[i],
    ) matches Some(t) ==> g2.mine().contains(child_of(m, t)) && g2.rank[child_of(m, t)] == front(
        g2,
        upto2,
        made2,
        m,
        body.take(i),
    )) by {
        lemma_front_eq(g1, upto1, made1, g2, upto2, made2, m, body.take(i));
    }
}

/// What a file keeps where it gets one more line that is no marker.
proof fn lemma_at_push(
    g: Shape,
    upto: Map<Seq<char>, nat>,
    f1: Files,
    f2: Files,
    made: nat,
    m: Seq<char>,
    line: Seq<char>,
)
    requires
        spanned_at(g, upto, f1, made, m),
        f1[m].lines.len() >= 1,
        f2[m].lines == f1[m].lines.push(line),
        marker_target(line) is None,
    ensures
        spanned_at(g, upto, f2, made, m),
{
    let body = body_lines(f1[m].lines);
    let body2 = body_lines(f2[m].lines);
    assert(body2 =~= body.push(line));
    lemma_front_push(g, upto, made, m, body, line);
    assert(f2[m].lines[0] == f1[m].lines[0]);
    assert forall|i: int| 0 <= i < body2.len() implies (#[trigger] marker_target(
        body2[i],
    ) matches Some(t) ==> g.mine().contains(child_of(m, t)) && g.rank[child_of(m, t)] == front(
        g,
        upto,
        made,
        m,
        body2.take(i),
    )) by {
        if i < body.len() {
            assert(body2[i] == body[i]);
            assert(body2.take(i) =~= body.take(i));
        }
    }
}

/// A line that is no marker, written to the innermost open fragment, keeps
/// the numbers in order.
pub(crate) proof fn lemma_span_line(
    g: Shape,
    upto: Map<Seq<char>, nat>,
    place: Place,
    files: Files,
    made: nat,
    line: Seq<char>,
)
    requires
        g.counted(made),
        g.linked(place, files),
        spanned(g, upto, files, made),
        marker_target(line) is None,
    ensures
        spanned(g.grown(seq![line]), upto, put_line(files, g.top(), line), made),
{
    reveal(spanned);
    lemma_ends(g, place, files, made);
    let t = g.top();
    let g2 = g.grown(seq![line]);
    let f2 = put_line(files, t, line);
    assert(files[t].partial + line =~= line);
    assert(f2[t].lines == files[t].lines.push(line));
    reveal(Shape::linked);
    assert forall|n: Seq<char>| #[trigger]
        end_of(g, upto, made, n) == end_of(g2, upto, made, n) by {}
    assert forall|m: Seq<char>| #[trigger] g2.mine().contains(m) implies spanned_at(
        g2,
        upto,
        f2,
        made,
        m,
    ) by {
        assert(g.mine().contains(m));
        if m == t {
            lemma_at_push(g, upto, files, f2, made, m, line);
            lemma_at_same(g, upto, f2, made, g2, upto, f2, made, m);
        } else {
            lemma_at_same(g, upto, files, made, g2, upto, f2, made, m);
        }
    }
}

/// Closing the innermost open fragment keeps the numbers in order.
pub(crate) proof fn lemma_span_close(
    g: Shape,
    upto: Map<Seq<char>, nat>,
    place: Place,
    files: Files,
    made: nat,
)
    requires
        g.counted(made),
        g.linked(place, files),
        spanned(g, upto, files, made),
        g.chain.len() >= 2,
    ensures
        spanned(g.shut(), upto.insert(g.top(), made), files, made),
{
    reveal(spanned);
    lemma_ends(g, place, files, made);
    reveal(Shape::counted);
    let t = g.top();
    let g2 = g.shut();
    let upto2 = upto.insert(t, made);
    assert(g.chain[g.chain.len() - 1] == t);
    assert(!g.closed.contains(t));
    assert(g2.chain[0] == g.chain[0]);
    assert forall|n: Seq<char>| #[trigger]
        end_of(g, upto, made, n) == end_of(g2, upto2, made, n) by {}
    assert forall|m: Seq<char>| #[trigger] g2.mine().contains(m) implies spanned_at(
        g2,
        upto2,
        files,
        made,
        m,
    ) by {
        assert(g.mine().contains(m));
        lemma_at_same(g, upto, files, made, g2, upto2, files, made, m);
    }
}

/// Lines that refer to closed fragments only keep their front when a
/// fragment is opened.
proof fn lemma_front_closed(
    g: Shape,
    upto: Map<Seq<char>, nat>,
    made: nat,
    g2: Shape,
    made2: nat,
    m: Seq<char>,
    lines: Seq<Seq<char>>,
)
    requires
        targets_in(m, lines, g.closed),
        g2.closed == g.closed,
        g2.rank[m] == g.rank[m],
    ensures
        front(g, upto, made, m, lines) == front(g2, upto, made2, m, lines),
{
    lemma_front_same(g, upto, made, g2, upto, made2, m, lines);
}

proof fn lemma_targets_take(m: Seq<char>, lines: Seq<Seq<char>>, set: Set<Seq<char>>, i: int)
    requires
        targets_in(m, lines, set),
        0 <= i <= lines.len(),
    ensures
        targets_in(m, lines.take(i), set),
{
    assert forall|k: int| 0 <= k < lines.take(i).len() implies (#[trigger] marker_target(
        lines.take(i)[k],
    ) matches Some(t) ==> set.contains(child_of(m, t))) by {
        assert(lines.take(i)[k] == lines[k]);
    }
}

/// The shape after a fragment was opened, as far as numbers go.
pub open spec fn numbered_on(g: Shape, g2: Shape, name: Seq<char>, made: nat) -> bool {
    &&& g2.closed == g.closed
    &&& g2.rank == g.rank.insert(name, made)
    &&& !g.mine().contains(name)
    &&& g.closed.subset_of(g.mine())
}

/// A file whose lines stay and refer to closed fragments only keeps its
/// markers in order when a fragment is opened.
proof fn lemma_at_settled(
    g: Shape,
    upto: Map<Seq<char>, nat>,
    f1: Files,
    made: nat,
    g2: Shape,
    f2: Files,
    made2: nat,
    name: Seq<char>,
    m: Seq<char>,
)
    requires
        spanned_at(g, upto, f1, made, m),
        numbered_on(g, g2, name, made),
        g.mine().contains(m),
        f2[m].lines == f1[m].lines,
        targets_in(m, body_lines(f1[m].lines), g.closed),
    ensures
        front(g2, upto, made2, m, body_lines(f2[m].lines)) == front(
            g,
            upto,
            made,
            m,
            body_lines(f1[m].lines),
        ),
        marker_target(f2[m].lines[0]) is None,
        forall|i: int|
            0 <= i < body_lines(f2[m].lines).len() ==> (#[trigger] marker_target(
                body_lines(f2[m].lines)[i],
            ) matches Some(t) ==> g2.mine().contains(child_of(m, t)) && g2.rank[child_of(m, t)]
                == front(g2, upto, made2, m, body_lines(f2[m].lines).take(i))),
{
    let body = body_lines(f1[m].lines);
    lemma_front_closed(g, upto, made, g2, made2, m, body);
    assert forall|i: int| 0 <= i < body.len() implies (#[trigger] marker_target(
        body[i],
    ) matches Some(t) ==> g2.mine().contains(child_of(m, t)) && g2.rank[child_of(m, t)] == front(
        g2,
        upto,
        made2,
        m,
        body.take(i),
    )) by {
        lemma_targets_take(m, body, g.closed, i);
        lemma_front_closed(g, upto, made, g2, made2, m, body.take(i));
    }
}

/// An open fragment whose last line refers to the next open fragment
/// keeps its markers in order when a fragment is opened further in.
proof fn lemma_at_parent(
    g: Shape,
    upto: Map<Seq<char>, nat>,
    f1: Files,
    made: nat,
    g2: Shape,
    f2: Files,
    made2: nat,
    name: Seq<char>,
    m: Seq<char>,
    next: Seq<char>,
)
    requires
        spanned_at(g, upto, f1, made, m),
        numbered_on(g, g2, name, made),
        g.mine().contains(m),
        g.mine().contains(next),
        f2[m].lines == f1[m].lines,
        body_lines(f1[m].lines).len() >= 1,
        marker_target(body_lines(f1[m].lines).last()) matches Some(t) && child_of(m, t) == next,
        targets_in(m, body_lines(f1[m].lines).drop_last(), g.closed),
        !g.closed.contains(m),
        !g.closed.contains(next),
    ensures
        spanned_at(g2, upto, f2, made2, m),
{
    let body = body_lines(f1[m].lines);
    let head = body.drop_last();
    let n = body.len() as int;
    assert(body.last() == body[n - 1]);
    assert forall|i: int| 0 <= i < body.len() implies (#[trigger] marker_target(
        body[i],
    ) matches Some(t) ==> g2.mine().contains(child_of(m, t)) && g2.rank[child_of(m, t)] == front(
        g2,
        upto,
        made2,
        m,
        body.take(i),
    )) by {
        assert(body.take(i) =~= head.take(i));
        lemma_targets_take(m, head, g.closed, i);
        lemma_front_closed(g, upto, made, g2, made2, m, head.take(i));
        if i < n - 1 {
            assert(head[i] == body[i]);
        }
    }
}

/// The fragment in which a fragment is opened keeps its markers in order.
proof fn lemma_at_opened(
    g: Shape,
    upto: Map<Seq<char>, nat>,
    f1: Files,
    made: nat,
    g2: Shape,
    f2: Files,
    name: Seq<char>,
    m: Seq<char>,
    line: Seq<char>,
    mark: Seq<char>,
)
    requires
        spanned_at(g, upto, f1, made, m),
        numbered_on(g, g2, name, made),
        g.mine().contains(m),
        f1[m].lines.len() >= 1,
        f2[m].lines == f1[m].lines.push(line).push(mark),
        targets_in(m, body_lines(f1[m].lines), g.closed),
        marker_target(line) is None,
        marker_target(mark) matches Some(t) && child_of(m, t) == name,
        !g.closed.contains(m),
    ensures
        spanned_at(g2, upto, f2, made + 1, m),
{
    let body = body_lines(f1[m].lines);
    let body1 = body.push(line);
    let body3 = body_lines(f2[m].lines);
    assert(body3 =~= body1.push(mark));
    let n = body.len() as int;
    assert(body3.last() == mark);
    assert(f2[m].lines[0] == f1[m].lines[0]);
    assert(g2.mine().contains(name));
    assert(front(g, upto, made, m, body) == made);
    lemma_front_closed(g, upto, made, g2, made + 1, m, body);
    lemma_front_push(g2, upto, made + 1, m, body, line);
    assert forall|i: int| 0 <= i < body3.len() implies (#[trigger] marker_target(
        body3[i],
    ) matches Some(t) ==> g2.mine().contains(child_of(m, t)) && g2.rank[child_of(m, t)] == front(
        g2,
        upto,
        made + 1,
        m,
        body3.take(i),
    )) by {
        if i < n {
            assert(body3[i] == body[i]);
            assert(body3.take(i) =~= body.take(i));
            lemma_targets_take(m, body, g.closed, i);
            lemma_front_closed(g, upto, made, g2, made + 1, m, body.take(i));
        } else if i == n {
            assert(body3[i] == line);
        } else {
            assert(body3[i] == mark);
            assert(body3.take(i) =~= body1);
        }
    }
}

/// What the links of a run say of one of its files.
proof fn lemma_links(g: Shape, place: Place, files: Files, made: nat, m: Seq<char>)
    requires
        g.counted(made),
        g.linked(place, files),
        g.mine().contains(m),
    ensures
        files[m].lines.len() >= 1,
        g.closed.subset_of(g.mine()),
        g.closed.contains(m) || m == g.top() ==> targets_in(
            m,
            body_lines(files[m].lines),
            g.closed,
        ),
        !g.closed.contains(m) && m != g.top() ==> {
            let b = body_lines(files[m].lines);
            &&& b.len() >= 1
            &&& marker_target(b.last()) matches Some(t) && g.mine().contains(child_of(m, t))
                && !g.closed.contains(child_of(m, t))
            &&& targets_in(m, b.drop_last(), g.closed)
        },
{
    reveal(Shape::counted);
    reveal(Shape::linked);
    assert(files[m].read() == files[m].lines);
    if !g.closed.contains(m) && m != g.top() {
        let k = choose|k: int| 0 <= k < g.chain.len() && g.chain[k] == m;
        assert(g.chain[g.chain.len() - 1] == g.top());
        assert(g.chain.contains(g.chain[k + 1]));
    }
}

/// Opening a fragment keeps the numbers in order.
pub(crate) proof fn lemma_span_open(
    g: Shape,
    upto: Map<Seq<char>, nat>,
    place: Place,
    origin: Seq<char>,
    files: Files,
    made: nat,
    line: Seq<char>,
    extra: Seq<char>,
    stem: Seq<char>,
)
    requires
        g.ready(place, files, made, line, extra, stem),
        spanned(g, upto, files, made),
    ensures
        spanned(
            g.grown(seq![line]).deeper(sibling(place, stem), made),
            upto,
            opened(files, place, origin, g.top(), line, extra, stem, made),
            made + 1,
        ),
{
    let t = g.top();
    let name = sibling(place, stem);
    let f3 = opened(files, place, origin, t, line, extra, stem, made);
    let g3 = g.grown(seq![line]).deeper(name, made);
    crate::roundtrip::lemma_open_frame(g, place, origin, files, made, line, extra, stem);
    lemma_ends(g, place, files, made);
    lemma_header_plain(made, origin);
    lemma_links(g, place, files, made, t);
    let mark = crate::layout::marker_line(crate::text::indent_of(line) + extra, stem, made);
    assert(numbered_on(g, g3, name, made));
    assert(g3.mine() =~= g.mine().insert(name));
    reveal(spanned);
    assert(!g.closed.contains(t)) by {
        reveal(Shape::counted);
        assert(g.chain[g.chain.len() - 1] == t);
    }
    assert(g3.rank[g3.chain[0]] == 0) by {
        reveal(Shape::counted);
        assert(g3.chain[0] == g.chain[0]);
        assert(g.chain.contains(g.chain[0]));
    }
    assert forall|m: Seq<char>| #[trigger] g3.closed.contains(m) implies g3.rank[m] < upto[m]
        <= made + 1 by {
        assert(g.mine().contains(m));
    }
    assert forall|m: Seq<char>, n: Seq<char>|
        g3.mine().contains(m) && g3.mine().contains(n) && g3.rank[m] == g3.rank[n] implies m
        == n by {
        reveal(Shape::counted);
    }
    assert forall|m: Seq<char>| #[trigger] g3.mine().contains(m) implies spanned_at(
        g3,
        upto,
        f3,
        made + 1,
        m,
    ) by {
        if m == name {
            assert(body_lines(f3[name].lines) =~= Seq::<Seq<char>>::empty());
            assert(f3[name].lines[0] == header_line(made, origin));
        } else if m == t {
            lemma_at_opened(g, upto, files, made, g3, f3, name, t, line, mark);
        } else {
            assert(g.mine().contains(m));
            lemma_links(g, place, files, made, m);
            assert(f3[m] == files[m]) by {
                reveal(Shape::counted);
                if g.chain.contains(m) {
                    let k = choose|k: int| 0 <= k < g.chain.len() && g.chain[k] == m;
                    assert(g.chain[g.chain.len() - 1] == t);
                    assert(f3[g.chain[k]] == files[g.chain[k]]);
                }
            }
            if g.closed.contains(m) {
                lemma_at_settled(g, upto, files, made, g3, f3, made + 1, name, m);
            } else {
                let b = body_lines(files[m].lines);
                let x = marker_target(b.last())->0;
                lemma_at_parent(g, upto, files, made, g3, f3, made + 1, name, m, child_of(m, x));
            }
        }
    }
}

/// The ends of the closed fragments after one more line of the script.
pub open spec fn next_upto(
    pass: Pass,
    g: Shape,
    upto: Map<Seq<char>, nat>,
    line: Seq<char>,
) -> Map<Seq<char>, nat> {
    if closes(kind_of(line)) && g.chain.len() >= 2 {
        upto.insert(g.top(), pass.made)
    } else {
        upto
    }
}

/// The ends of the closed fragments after the given lines.
pub open spec fn upto_of(job: Job, files: Files, lines: Seq<Seq<char>>) -> Map<Seq<char>, nat>
    decreases lines.len(),
{
    if lines.len() == 0 {
        Map::empty()
    } else {
        next_upto(
            run(job, begin(job, files), lines.drop_last()),
            shape_of(job, files, lines.drop_last()),
            upto_of(job, files, lines.drop_last()),
            lines.last(),
        )
    }
}

/// One more line of the script keeps the numbers in order.
proof fn lemma_step_spanned(
    job: Job,
    path: Seq<char>,
    pass: Pass,
    done: Seq<Seq<char>>,
    g: Shape,
    upto: Map<Seq<char>, nat>,
    line: Seq<char>,
)
    requires
        holds(job, path, pass, done, g),
        spanned(g, upto, pass.files, pass.made),
        marker_target(line) is None,
        crate::text::no_space(job.place.stem),
        step(job, pass, line).failure is None,
    ensures
        spanned(
            next_shape(job, pass, g, line),
            next_upto(pass, g, upto, line),
            step(job, pass, line).files,
            step(job, pass, line).made,
        ),
{
    lemma_step(job, path, pass, done, g, line);
    let kind = kind_of(line);
    let shut = if closes(kind) { closed_top(pass) } else { pass };
    let gs = if closes(kind) { popped(g) } else { g };
    let us = next_upto(pass, g, upto, line);
    assert(holds(job, path, shut, done, gs));
    assert(current(job, shut) == gs.top());
    if closes(kind) && g.chain.len() >= 2 {
        lemma_span_close(g, upto, job.place, pass.files, pass.made);
    }
    assert(spanned(gs, us, shut.files, shut.made));
    if kind == LineKind::Terminator || kind == LineKind::Plain {
        lemma_span_line(gs, us, job.place, shut.files, shut.made, line);
    } else if kind != LineKind::Unsupported {
        reveal_strlit("    ");
        let extra = if kind == LineKind::CellBreak { Seq::<char>::empty() } else { "    "@ };
        assert(crate::roundtrip::all_space(extra));
        let stem = stem_for(job, line, shut.made);
        let raw = crate::naming::slug_text(
            crate::naming::trim(crate::naming::strip_leading(body_of(line), '%')),
        );
        crate::roundtrip::lemma_place_sound(path);
        crate::roundtrip::lemma_fragment_stem(job.place, raw, shut.made);
        crate::roundtrip::lemma_fresh(job, path, shut, done, gs, line);
        assert(gs.ready(job.place, shut.files, shut.made, line, extra, stem));
        lemma_span_open(gs, us, job.place, job.origin, shut.files, shut.made, line, extra, stem);
    }
}

/// Before the first line the numbers are in order.
proof fn lemma_begin_spanned(job: Job, path: Seq<char>, files: Files)
    requires
        holds(job, path, begin(job, files), Seq::empty(), crate::roundtrip::first_shape(job.root())),
    ensures
        spanned(
            crate::roundtrip::first_shape(job.root()),
            Map::empty(),
            begin(job, files).files,
            1,
        ),
{
    reveal(spanned);
    let root = job.root();
    let g = crate::roundtrip::first_shape(root);
    let pass = begin(job, files);
    let head = header_line(0, job.origin);
    lemma_header_plain(0, job.origin);
    assert(crate::store::empty_sink().partial + head =~= head);
    assert(crate::store::empty_sink().lines.push(head) =~= seq![head]);
    assert(pass.files[root].lines =~= seq![head]);
    assert(body_lines(pass.files[root].lines) =~= Seq::<Seq<char>>::empty());
    assert(g.chain[0] == root);
    assert forall|m: Seq<char>| #[trigger] g.mine().contains(m) implies spanned_at(
        g,
        Map::empty(),
        pass.files,
        1,
        m,
    ) by {
        assert(m == root);
    }
}

/// After the lines of a script that holds no marker, the numbers are in
/// order.
pub(crate) proof fn lemma_run_spanned(
    job: Job,
    path: Seq<char>,
    files: Files,
    lines: Seq<Seq<char>>,
)
    requires
        files.dom().finite(),
        files.contains_key(path),
        crate::layout::names_file(path),
        job.place == crate::layout::place_of(path),
        crate::text::no_space(job.place.stem),
        run(job, begin(job, files), lines).failure is None,
        forall|i: int| 0 <= i < lines.len() ==> #[trigger] marker_target(lines[i]) is None,
    ensures
        holds(job, path, run(job, begin(job, files), lines), lines, shape_of(job, files, lines)),
        spanned(
            shape_of(job, files, lines),
            upto_of(job, files, lines),
            run(job, begin(job, files), lines).files,
            run(job, begin(job, files), lines).made,
        ),
    decreases lines.len(),
{
    crate::roundtrip::lemma_run_holds(job, path, files, lines);
    if lines.len() == 0 {
        crate::roundtrip::lemma_begin(job, path, files);
        lemma_begin_spanned(job, path, files);
    } else {
        let head = lines.drop_last();
        let prior = run(job, begin(job, files), head);
        if prior.failure is Some {
            crate::expand::lemma_run_failed(job, prior, seq![lines.last()]);
        }
        assert forall|i: int| 0 <= i < head.len() implies #[trigger] marker_target(
            head[i],
        ) is None by {
            assert(head[i] == lines[i]);
        }
        lemma_run_spanned(job, path, files, head);
        assert(marker_target(lines[lines.len() - 1]) is None);
        lemma_step_spanned(
            job,
            path,
            prior,
            head,
            shape_of(job, files, head),
            upto_of(job, files, head),
            lines.last(),
        );
    }
}

/// The number of a file of the run lies below its end, and its end is at
/// most the next number.
proof fn lemma_rank_below_end(
    g: Shape,
    upto: Map<Seq<char>, nat>,
    files: Files,
    made: nat,
    m: Seq<char>,
)
    requires
        g.counted(made),
        spanned(g, upto, files, made),
        g.mine().contains(m),
    ensures
        g.rank[m] < end_of(g, upto, made, m) <= made,
        spanned_at(g, upto, files, made, m),
{
    reveal(spanned);
    reveal(Shape::counted);
}

/// The front moves on, never back.
proof fn lemma_front_mono(
    g: Shape,
    upto: Map<Seq<char>, nat>,
    files: Files,
    made: nat,
    m: Seq<char>,
    i: int,
    k: int,
)
    requires
        g.counted(made),
        spanned(g, upto, files, made),
        g.mine().contains(m),
        0 <= i <= k <= body_lines(files[m].lines).len(),
    ensures
        g.rank[m] + 1 <= front(g, upto, made, m, body_lines(files[m].lines).take(i)) <= front(
            g,
            upto,
            made,
            m,
            body_lines(files[m].lines).take(k),
        ),
    decreases k,
{
    let body = body_lines(files[m].lines);
    lemma_rank_below_end(g, upto, files, made, m);
    if k == 0 {
        assert(body.take(0) =~= Seq::<Seq<char>>::empty());
    } else {
        let j = if i < k { i } else { k - 1 };
        lemma_front_mono(g, upto, files, made, m, j, k - 1);
        assert(body.take(k).drop_last() =~= body.take(k - 1));
        assert(body.take(k).last() == body[k - 1]);
        match marker_target(body[k - 1]) {
            Some(t) => {
                lemma_rank_below_end(g, upto, files, made, child_of(m, t));
            },
            None => {},
        }
    }
}

/// Taking three rows of numbers out of a store, one after the other, is
/// taking out the row from the first to the last.
proof fn lemma_remove_rows(g: Shape, f: Files, lo: nat, c: Seq<char>, hi: nat)
    requires
        g.mine().contains(c),
        lo <= g.rank[c] < hi,
        forall|m: Seq<char>, n: Seq<char>|
            g.mine().contains(m) && g.mine().contains(n) && g.rank[m] == g.rank[n] ==> m == n,
    ensures
        f.remove_keys(between(g, lo, g.rank[c])).remove_keys(
            between(g, g.rank[c] + 1, hi),
        ).remove(c) == f.remove_keys(between(g, lo, hi)),
{
    let a = f.remove_keys(between(g, lo, g.rank[c])).remove_keys(
        between(g, g.rank[c] + 1, hi),
    ).remove(c);
    let b = f.remove_keys(between(g, lo, hi));
    assert forall|n: Seq<char>| a.contains_key(n) <==> b.contains_key(n) by {
        if g.mine().contains(n) && g.rank[n] == g.rank[c] {
            assert(n == c);
        }
    }
    assert(a =~= b);
}

/// The front before line `i` of a file, its header counted.
pub open spec fn front_at(
    g: Shape,
    upto: Map<Seq<char>, nat>,
    files: Files,
    made: nat,
    m: Seq<char>,
    i: int,
) -> nat {
    if i <= 0 {
        g.rank[m] + 1
    } else {
        front(g, upto, made, m, body_lines(files[m].lines).take(i - 1))
    }
}

/// A sweep from a file of the run deletes the fragments below it, and
/// nothing else.
pub(crate) proof fn lemma_sweep_file(
    g: Shape,
    upto: Map<Seq<char>, nat>,
    place: Place,
    files: Files,
    made: nat,
    f: Files,
    m: Seq<char>,
    d: nat,
)
    requires
        g.counted(made),
        g.linked(place, files),
        spanned(g, upto, files, made),
        g.mine().contains(m),
        agree(files, f, between(g, g.rank[m], end_of(g, upto, made, m))),
        d + g.rank[m] >= made,
    ensures
        sweep_file(f, m, d) == (Swept {
            files: f.remove_keys(between(g, g.rank[m] + 1, end_of(g, upto, made, m))),
            failure: None,
        }),
    decreases d, 0nat,
{
    lemma_rank_below_end(g, upto, files, made, m);
    lemma_links(g, place, files, made, m);
    assert(between(g, g.rank[m], end_of(g, upto, made, m)).contains(m));
    assert(files[m].partial.len() == 0) by {
        reveal(Shape::linked);
    }
    assert(f[m].read() == files[m].lines);
    let n = files[m].lines.len() as int;
    lemma_sweep_lines(g, upto, place, files, made, f, m, n, (d - 1) as nat);
    assert(files[m].lines.take(n) =~= files[m].lines);
    assert(body_lines(files[m].lines).take(n - 1) =~= body_lines(files[m].lines));
}

pub(crate) proof fn lemma_sweep_lines(
    g: Shape,
    upto: Map<Seq<char>, nat>,
    place: Place,
    files: Files,
    made: nat,
    f: Files,
    m: Seq<char>,
    i: int,
    e: nat,
)
    requires
        g.counted(made),
        g.linked(place, files),
        spanned(g, upto, files, made),
        g.mine().contains(m),
        agree(files, f, between(g, g.rank[m], end_of(g, upto, made, m))),
        e + g.rank[m] + 1 >= made,
        0 <= i <= files[m].lines.len(),
    ensures
        sweep_lines(f, m, files[m].lines.take(i), e) == (Swept {
            files: f.remove_keys(between(g, g.rank[m] + 1, front_at(g, upto, files, made, m, i))),
            failure: None,
        }),
    decreases e, i + 1,
{
    let all = files[m].lines;
    let body = body_lines(all);
    let lo = g.rank[m] + 1;
    lemma_rank_below_end(g, upto, files, made, m);
    lemma_links(g, place, files, made, m);
    if i == 0 {
        assert(all.take(0) =~= Seq::<Seq<char>>::empty());
        assert(between(g, lo, lo) =~= Set::empty());
        assert(f.remove_keys(Set::empty()) =~= f);
    } else {
        lemma_sweep_lines(g, upto, place, files, made, f, m, i - 1, e);
        assert(all.take(i).drop_last() =~= all.take(i - 1));
        assert(all.take(i).last() == all[i - 1]);
        let line = all[i - 1];
        if i == 1 {
            assert(body.take(0) =~= Seq::<Seq<char>>::empty());
        } else {
            let k = i - 2;
            assert(body[k] == line);
            assert(body.take(k + 1).drop_last() =~= body.take(k));
            assert(body.take(k + 1).last() == line);
            lemma_front_mono(g, upto, files, made, m, k, k + 1);
            lemma_front_mono(g, upto, files, made, m, k + 1, body.len() as int);
            assert(body.take(body.len() as int) =~= body);
            match marker_target(line) {
                Some(t) => {
                    let c = child_of(m, t);
                    assert(g.mine().contains(c) && g.rank[c] == front(
                        g,
                        upto,
                        made,
                        m,
                        body.take(k),
                    ));
                    lemma_rank_below_end(g, upto, files, made, c);
                    let hi = end_of(g, upto, made, c);
                    let before = f.remove_keys(between(g, lo, g.rank[c]));
                    assert(agree(files, before, between(g, g.rank[c], hi))) by {
                        assert forall|n: Seq<char>| #[trigger]
                            between(g, g.rank[c], hi).contains(n) implies files.contains_key(n)
                            && before.contains_key(n) && files[n] == before[n] by {
                            assert(between(g, g.rank[m], end_of(g, upto, made, m)).contains(n));
                        }
                    }
                    lemma_sweep_file(g, upto, place, files, made, before, c, e);
                    let sub = before.remove_keys(between(g, g.rank[c] + 1, hi));
                    assert(between(g, g.rank[c], hi).contains(c));
                    assert(sub.contains_key(c));
                    assert(front_at(g, upto, files, made, m, i) == hi);
                    reveal(spanned);
                    lemma_remove_rows(g, f, lo, c, hi);
                },
                None => {},
            }
        }
    }
}

/// The names of the fragments that the given lines open.
pub open spec fn fragment_names(job: Job, lines: Seq<Seq<char>>) -> Set<Seq<char>>
    decreases lines.len(),
{
    if lines.len() == 0 {
        Set::empty()
    } else {
        let head = fragment_names(job, lines.drop_last());
        if opens(kind_of(lines.last())) {
            head.insert(
                sibling(
                    job.place,
                    stem_for(job, lines.last(), 1 + count_opening(lines.drop_last())),
                ),
            )
        } else {
            head
        }
    }
}

/// The root is none of the fragments that lines open.
pub(crate) proof fn lemma_names_not_root(job: Job, lines: Seq<Seq<char>>)
    ensures
        !fragment_names(job, lines).contains(job.root()),
    decreases lines.len(),
{
    if lines.len() > 0 {
        lemma_names_not_root(job, lines.drop_last());
        let k = 1 + count_opening(lines.drop_last());
        let slug = crate::naming::title_slug(body_of(lines.last()));
        if job.root() == sibling(job.place, stem_for(job, lines.last(), k)) {
            crate::roundtrip::lemma_siblings_apart(
                job.place,
                crate::layout::root_stem(job.place),
                stem_for(job, lines.last(), k),
            );
            crate::roundtrip::lemma_stem_not_root(job.place, slug, k);
        }
    }
}

/// The files of a run are its root and the fragments that its lines open.
proof fn lemma_mine_names(job: Job, files: Files, lines: Seq<Seq<char>>)
    requires
        run(job, begin(job, files), lines).failure is None,
    ensures
        shape_of(job, files, lines).mine() == fragment_names(job, lines).insert(job.root()),
    decreases lines.len(),
{
    if lines.len() == 0 {
        assert(shape_of(job, files, lines).mine() =~= Set::empty().insert(job.root()));
    } else {
        let head = lines.drop_last();
        let prior = run(job, begin(job, files), head);
        if prior.failure is Some {
            crate::expand::lemma_run_failed(job, prior, seq![lines.last()]);
        }
        lemma_mine_names(job, files, head);
        law_fragment_count(job, files, head);
        let g = shape_of(job, files, head);
        let g2 = shape_of(job, files, lines);
        let name = sibling(job.place, stem_for(job, lines.last(), prior.made));
        assert(popped(g).rank == g.rank);
        if opens(kind_of(lines.last())) {
            assert(g2.mine() =~= g.mine().insert(name));
            assert(g2.mine() =~= fragment_names(job, lines).insert(job.root()));
        } else {
            assert(g2.mine() =~= g.mine());
        }
    }
}

/// Expanding again, with leave to replace files, first deletes each
/// fragment that the run before made, and no other file: none of them is
/// left over, whatever the script holds by then. This holds where the stem
/// of the script's name has no white space in it and no line of the script
/// read as a marker.
pub proof fn law_overwrite_clears(files: Files, path: Seq<char>, edited: SinkView)
    requires
        files.dom().finite(),
        expanded(files, path, true).failure is None,
        crate::text::no_space(crate::layout::place_of(path).stem),
        forall|i: int|
            0 <= i < files[path].read().len() ==> #[trigger] marker_target(files[path].read()[i])
                is None,
    ensures
        cleared(expanded(files, path, true).files.insert(path, edited), path, true) == (Swept {
            files: expanded(files, path, true).files.insert(path, edited).remove_keys(
                fragment_names(job_of(path, true), files[path].read()),
            ),
            failure: None,
        }),
{
    let job = job_of(path, true);
    let swept = cleared(files, path, true);
    if files.contains_key(job.root()) {
        crate::roundtrip::lemma_sweep_file_within(files, job.root(), files.dom().len());
    }
    assert(crate::roundtrip::within(swept.files, files));
    assert(swept.files.dom().subset_of(files.dom()));
    vstd::set_lib::lemma_len_subset(swept.files.dom(), files.dom());
    let lines = files[path].read();
    assert(swept.files[path] == files[path]);
    lemma_run_spanned(job, path, swept.files, lines);
    lemma_mine_names(job, swept.files, lines);
    lemma_names_not_root(job, lines);
    let g = shape_of(job, swept.files, lines);
    let upto = upto_of(job, swept.files, lines);
    let last = run(job, begin(job, swept.files), lines);
    let root = job.root();
    let again = last.files.insert(path, edited);
    lemma_ends(g, job.place, last.files, last.made);
    assert(again.dom() =~= last.files.dom());
    vstd::set_lib::lemma_len_subset(g.mine(), again.dom());
    assert(g.chain[0] == root);
    assert(!g.closed.contains(root)) by {
        reveal(Shape::counted);
    }
    assert(g.rank[root] == 0) by {
        reveal(spanned);
    }
    assert(end_of(g, upto, last.made, root) == last.made);
    assert(agree(last.files, again, between(g, 0, last.made))) by {
        assert forall|m: Seq<char>| #[trigger] between(g, 0, last.made).contains(
            m,
        ) implies last.files.contains_key(m) && again.contains_key(m) && last.files[m]
            == again[m] by {
            assert(g.mine().contains(m));
            assert(m != path);
        }
    }
    lemma_sweep_file(g, upto, job.place, last.files, last.made, again, root, again.dom().len());
    assert(between(g, 1, last.made) =~= fragment_names(job, lines)) by {
        reveal(spanned);
        reveal(Shape::counted);
        assert forall|n: Seq<char>| between(g, 1, last.made).contains(n) <==> fragment_names(
            job,
            lines,
        ).contains(n) by {
            if fragment_names(job, lines).contains(n) {
                assert(g.mine().contains(n));
                if g.rank[n] == 0 {
                    assert(n == root);
                }
            }
        }
    }
}

/// A pass that did not fail left the files it found, the root, and the
/// fragments that its lines opened.
pub proof fn lemma_run_names(job: Job, files: Files, lines: Seq<Seq<char>>)
    requires
        run(job, begin(job, files), lines).failure is None,
    ensures
        run(job, begin(job, files), lines).files.dom() == files.dom().insert(job.root()).union(
            fragment_names(job, lines),
        ),
        forall|i: int|
            0 <= i < run(job, begin(job, files), lines).stack.len() ==> run(
                job,
                begin(job, files),
                lines,
            ).files.contains_key(#[trigger] run(job, begin(job, files), lines).stack[i]),
    decreases lines.len(),
{
    let root = job.root();
    if lines.len() == 0 {
        assert(begin(job, files).files.dom() =~= files.dom().insert(root).union(Set::empty()));
    } else {
        let head = lines.drop_last();
        let prior = run(job, begin(job, files), head);
        if prior.failure is Some {
            crate::expand::lemma_run_failed(job, prior, seq![lines.last()]);
        }
        lemma_run_names(job, files, head);
        law_fragment_count(job, files, head);
        let line = lines.last();
        let last = step(job, prior, line);
        let shut = closed_top(prior);
        assert forall|i: int| 0 <= i < shut.stack.len() implies prior.files.contains_key(
            #[trigger] shut.stack[i],
        ) by {
            assert(shut.stack[i] == prior.stack[i]);
        }
        assert(prior.files.contains_key(root));
        let base = if closes(kind_of(line)) { shut } else { prior };
        let cur = current(job, base);
        assert(prior.files.contains_key(cur)) by {
            if base.stack.len() > 0 {
                assert(cur == base.stack[base.stack.len() - 1]);
            }
        }
        if opens(kind_of(line)) {
            let name = sibling(job.place, stem_for(job, line, prior.made));
            assert(last.files.dom() =~= prior.files.dom().insert(name));
            assert(last.files.dom() =~= files.dom().insert(root).union(
                fragment_names(job, lines),
            ));
            assert forall|i: int| 0 <= i < last.stack.len() implies last.files.contains_key(
                #[trigger] last.stack[i],
            ) by {
                if i < base.stack.len() {
                    assert(last.stack[i] == base.stack[i]);
                }
            }
        } else {
            assert(last.files.dom() =~= prior.files.dom());
        }
    }
}

/// Expanding twice, with leave to replace files, leaves no fragment of
/// the first run but those that the second run made: the files after the
/// second run are those after the first without its fragments, and the root
/// and the fragments of the second.
pub proof fn law_overwrite_again(files: Files, path: Seq<char>, edited: SinkView)
    requires
        files.dom().finite(),
        expanded(files, path, true).failure is None,
        expanded(expanded(files, path, true).files.insert(path, edited), path, true).failure
            is None,
        crate::text::no_space(crate::layout::place_of(path).stem),
        forall|i: int|
            0 <= i < files[path].read().len() ==> #[trigger] marker_target(files[path].read()[i])
                is None,
    ensures
        expanded(expanded(files, path, true).files.insert(path, edited), path, true).files.dom()
            == expanded(files, path, true).files.dom().difference(
            fragment_names(job_of(path, true), files[path].read()),
        ).insert(job_of(path, true).root()).union(
            fragment_names(job_of(path, true), edited.read()),
        ),
{
    let job = job_of(path, true);
    let first = expanded(files, path, true).files;
    let again = first.insert(path, edited);
    law_overwrite_clears(files, path, edited);
    let frags = fragment_names(job, files[path].read());
    let start = again.remove_keys(frags);
    assert(first.contains_key(job.root())) by {
        let swept = cleared(files, path, true);
        lemma_run_names(job, swept.files, swept.files[path].read());
    }
    assert(cleared(again, path, true).files == start);
    lemma_run_names(job, start, start[path].read());
    assert(start[path] == edited);
    assert(start.dom() =~= first.dom().difference(frags).insert(path));
    assert(first.contains_key(path)) by {
        let swept = cleared(files, path, true);
        lemma_run_names(job, swept.files, swept.files[path].read());
    }
    assert(start.dom().insert(job.root()).union(fragment_names(job, edited.read()))
        =~= first.dom().difference(frags).insert(job.root()).union(
        fragment_names(job, edited.read()),
    ));
}

} // verus!
