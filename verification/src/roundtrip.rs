//! Expanding a script and collapsing the fragments gives the script back.

use vstd::prelude::*;
use crate::collapse::{
    root_of,
    body_lines, child_of, collapsed, inline_file, inline_lines, sweep_file, sweep_lines, Flow,
    Swept,
};
use crate::expand::{
    begin, cleared, closed_top, current, expanded, job_of, kind_of, put_line, put_text, run, stem_for, step, with_fragment,
    with_line, Job, LineKind, Pass,
};
use crate::store::{empty_sink, sink_of, Files, SinkView};
use crate::layout::{
    names_root, script_of,
    file_name, fragment_stem, header_line, last_index, lemma_last_index, lemma_last_index_unique,
    lemma_token_len_unique, marker_line, marker_target, names_file, place_of, root_stem, sibling,
    Place,
};
use crate::naming::{tidy_slug, title_slug};
use crate::text::{
    body_of, decimal, indent_of, is_digit, is_space, lemma_decimal_digits,
    lemma_indent_len, lemma_indent_len_unique, no_space,
};

verus! {

pub open spec fn all_space(s: Seq<char>) -> bool {
    forall|i: int| 0 <= i < s.len() ==> is_space(#[trigger] s[i])
}

pub open spec fn free_of(s: Seq<char>, c: char) -> bool {
    forall|i: int| 0 <= i < s.len() ==> #[trigger] s[i] != c
}

/// A marker line is read as a marker, and refers to the stem it was made
/// with.
pub proof fn lemma_marker_read(w: Seq<char>, stem: Seq<char>, k: nat)
    requires
        all_space(w),
        stem.len() > 0,
        no_space(stem),
    ensures
        marker_target(marker_line(w, stem, k)) == Some(stem),
{
    reveal_strlit(" %cellsplit<");
    reveal_strlit(">");
    let lit = " %cellsplit<"@;
    let dec = decimal(k);
    lemma_decimal_digits(k);
    let line = marker_line(w, stem, k);
    assert(line =~= w + (stem + lit + dec + ">"@));
    assert(line[w.len() as int] == stem[0]);
    assert forall|i: int| 0 <= i < w.len() implies is_space(#[trigger] line[i]) by {
        assert(line[i] == w[i]);
    }
    lemma_indent_len_unique(line, w.len() as int);
    let b = body_of(line);
    assert(b =~= stem + (lit + dec + ">"@));
    assert forall|i: int| 0 <= i < stem.len() implies !is_space(#[trigger] b[i]) by {
        assert(b[i] == stem[i]);
    }
    assert(b[stem.len() as int] == lit[0]);
    lemma_token_len_unique(b, stem.len() as int);
    let rest = b.skip(stem.len() as int);
    assert(rest =~= lit + dec + ">"@);
    assert(rest.subrange(0, lit.len() as int) =~= lit);
    let mid = rest.subrange(lit.len() as int, rest.len() - 1);
    assert(mid =~= dec);
    assert(b.take(stem.len() as int) =~= stem);
}

/// A directory part is empty or ends with `/`.
pub open spec fn is_dir(d: Seq<char>) -> bool {
    d.len() == 0 || d.last() == '/'
}

/// The parts of a path that names a file can be put together again.
pub open spec fn sound_place(p: Place) -> bool {
    &&& is_dir(p.dir)
    &&& p.stem.len() > 0
    &&& free_of(p.stem, '/')
    &&& free_of(p.ext, '/')
    &&& free_of(p.ext, '.')
}

pub proof fn lemma_place_sound(path: Seq<char>)
    requires
        names_file(path),
    ensures
        sound_place(place_of(path)),
{
    let ls = last_index(path, '/');
    lemma_last_index(path, '/');
    let name = file_name(path);
    assert forall|i: int| 0 <= i < name.len() implies #[trigger] name[i] != '/' by {
        assert(name[i] == path[ls + 1 + i]);
    }
    let dot = last_index(name, '.');
    lemma_last_index(name, '.');
    let p = place_of(path);
    if dot > 0 {
        assert forall|i: int| 0 <= i < p.ext.len() implies #[trigger] p.ext[i] != '.' && p.ext[i]
            != '/' by {
            assert(p.ext[i] == name[dot + 1 + i]);
        }
        assert forall|i: int| 0 <= i < p.stem.len() implies #[trigger] p.stem[i] != '/' by {
            assert(p.stem[i] == name[i]);
        }
    }
    if p.dir.len() > 0 {
        assert(p.dir.last() == path[ls]);
    }
}

/// The characters of a file name made of a stem and an extension.
proof fn lemma_name_chars(stem: Seq<char>, ext: Seq<char>)
    ensures
        (stem + "."@ + ext).len() == stem.len() + 1 + ext.len(),
        forall|j: int| 0 <= j < stem.len() ==> #[trigger] (stem + "."@ + ext)[j] == stem[j],
        (stem + "."@ + ext)[stem.len() as int] == '.',
        forall|j: int|
            stem.len() < j < stem.len() + 1 + ext.len() ==> #[trigger] (stem + "."@ + ext)[j]
                == ext[j - stem.len() - 1],
{
    reveal_strlit(".");
}

/// The last `/` of a path made of a directory and a name without `/`.
proof fn lemma_dir_split(dir: Seq<char>, name: Seq<char>)
    requires
        is_dir(dir),
        free_of(name, '/'),
    ensures
        last_index(dir + name, '/') == dir.len() - 1,
        file_name(dir + name) == name,
        (dir + name).take(dir.len() as int) == dir,
{
    let n = dir + name;
    assert forall|i: int| dir.len() - 1 < i < n.len() implies #[trigger] n[i] != '/' by {
        assert(n[i] == name[i - dir.len()]);
    }
    if dir.len() > 0 {
        assert(n[dir.len() - 1] == dir.last());
    }
    lemma_last_index_unique(n, '/', dir.len() - 1);
    assert(n.skip(dir.len() as int) =~= name);
    assert(n.take(dir.len() as int) =~= dir);
}

/// The file called `stem` beside a file has the directory and the extension
/// of that file, and `stem` for its stem.
pub proof fn lemma_sibling_place(p: Place, stem: Seq<char>)
    requires
        sound_place(p),
        stem.len() > 0,
        free_of(stem, '/'),
    ensures
        place_of(sibling(p, stem)) == (Place { dir: p.dir, stem, ext: p.ext }),
{
    let name = stem + "."@ + p.ext;
    lemma_name_chars(stem, p.ext);
    assert(free_of(name, '/')) by {
        reveal_strlit(".");
    }
    assert(sibling(p, stem) =~= p.dir + name);
    lemma_dir_split(p.dir, name);
    lemma_last_index_unique(name, '.', stem.len() as int);
    assert(name.take(stem.len() as int) =~= stem);
    assert(name.skip(stem.len() as int + 1) =~= p.ext);
}

/// The stem of a fragment is not empty and holds no `/`; it holds no white
/// space unless the stem of the script does.
pub proof fn lemma_fragment_stem(p: Place, raw: Seq<char>, k: nat)
    requires
        free_of(p.stem, '/'),
    ensures
        fragment_stem(p, tidy_slug(raw, 20), k).len() > 0,
        free_of(fragment_stem(p, tidy_slug(raw, 20), k), '/'),
        no_space(p.stem) ==> no_space(fragment_stem(p, tidy_slug(raw, 20), k)),
{
    reveal_strlit("_");
    let slug = tidy_slug(raw, 20);
    let dec = decimal(k);
    lemma_decimal_digits(k);
    let stem = fragment_stem(p, slug, k);
    let a = p.stem.len() as int;
    let b = a + 1 + slug.len();
    assert forall|i: int| 0 <= i < stem.len() implies #[trigger] stem[i] != '/' && (no_space(
        p.stem,
    ) ==> !is_space(stem[i])) by {
        if i < a {
            assert(stem[i] == p.stem[i]);
        } else if i == a {
            assert(stem[i] == '_');
        } else if i < b {
            assert(stem[i] == slug[i - a - 1]);
        } else if i == b {
            assert(stem[i] == '_');
        } else {
            assert(stem[i] == dec[i - b - 1]);
            assert(is_digit(dec[i - b - 1]));
        }
    }
}

/// The same of the stem of the root fragment.
pub proof fn lemma_root_stem(p: Place)
    requires
        free_of(p.stem, '/'),
    ensures
        root_stem(p).len() > 0,
        free_of(root_stem(p), '/'),
        no_space(p.stem) ==> no_space(root_stem(p)),
{
    reveal_strlit("_gen");
    let stem = root_stem(p);
    let a = p.stem.len() as int;
    assert forall|i: int| 0 <= i < stem.len() implies #[trigger] stem[i] != '/' && (no_space(
        p.stem,
    ) ==> !is_space(stem[i])) by {
        if i < a {
            assert(stem[i] == p.stem[i]);
        } else {
            assert(stem[i] == "_gen"@[i - a]);
        }
    }
}

/// The number that a row of digits stands for.
pub open spec fn digits_value(s: Seq<char>) -> nat
    decreases s.len(),
{
    if s.len() == 0 {
        0
    } else {
        digits_value(s.drop_last()) * 10 + (s.last() as nat - '0' as nat) as nat
    }
}

proof fn lemma_digits_value(n: nat)
    ensures
        digits_value(decimal(n)) == n,
    decreases n,
{
    if n < 10 {
        let s = decimal(n);
        assert(s.drop_last() =~= Seq::<char>::empty());
        assert(digits_value(s.drop_last()) == 0);
    } else {
        lemma_digits_value(n / 10);
        let s = decimal(n);
        assert(s.drop_last() =~= decimal(n / 10));
    }
}

/// Two numbers that are written alike are the same.
pub proof fn lemma_decimal_apart(a: nat, b: nat)
    requires
        decimal(a) == decimal(b),
    ensures
        a == b,
{
    lemma_digits_value(a);
    lemma_digits_value(b);
}

/// Fragments with different numbers have different stems.
pub proof fn lemma_stems_apart(p: Place, s1: Seq<char>, a: nat, s2: Seq<char>, b: nat)
    requires
        fragment_stem(p, s1, a) == fragment_stem(p, s2, b),
    ensures
        a == b,
{
    reveal_strlit("_");
    lemma_decimal_digits(a);
    lemma_decimal_digits(b);
    let x1 = p.stem + "_"@ + s1;
    let x2 = p.stem + "_"@ + s2;
    let f1 = fragment_stem(p, s1, a);
    let f2 = fragment_stem(p, s2, b);
    assert(f1 =~= x1 + ("_"@ + decimal(a)));
    assert(f2 =~= x2 + ("_"@ + decimal(b)));
    assert forall|i: int| x1.len() < i < f1.len() implies #[trigger] f1[i] != '_' by {
        assert(f1[i] == decimal(a)[i - x1.len() - 1]);
        assert(is_digit(decimal(a)[i - x1.len() - 1]));
    }
    assert forall|i: int| x2.len() < i < f2.len() implies #[trigger] f2[i] != '_' by {
        assert(f2[i] == decimal(b)[i - x2.len() - 1]);
        assert(is_digit(decimal(b)[i - x2.len() - 1]));
    }
    assert(f1[x1.len() as int] == '_');
    assert(f2[x2.len() as int] == '_');
    lemma_last_index_unique(f1, '_', x1.len() as int);
    lemma_last_index_unique(f2, '_', x2.len() as int);
    assert(f1.skip(x1.len() as int + 1) =~= decimal(a));
    assert(f2.skip(x2.len() as int + 1) =~= decimal(b));
    lemma_decimal_apart(a, b);
}

/// The stem of a fragment is not that of the root.
pub proof fn lemma_stem_not_root(p: Place, s: Seq<char>, k: nat)
    ensures
        fragment_stem(p, s, k) != root_stem(p),
{
    reveal_strlit("_gen");
    lemma_decimal_digits(k);
    let f = fragment_stem(p, s, k);
    let r = root_stem(p);
    let d = decimal(k);
    assert(f[f.len() - 1] == d[d.len() - 1]);
    assert(is_digit(d[d.len() - 1]));
    assert(r[r.len() - 1] == 'n');
}

/// Files beside a file that have different stems have different names.
pub proof fn lemma_siblings_apart(p: Place, x: Seq<char>, y: Seq<char>)
    requires
        sibling(p, x) == sibling(p, y),
    ensures
        x == y,
{
    reveal_strlit(".");
    let a = sibling(p, x);
    let b = sibling(p, y);
    assert(a.len() == p.dir.len() + x.len() + 1 + p.ext.len());
    assert(b.len() == p.dir.len() + y.len() + 1 + p.ext.len());
    assert(x.len() == y.len());
    assert forall|i: int| 0 <= i < x.len() implies x[i] == y[i] by {
        assert(a[p.dir.len() + i] == x[i]);
        assert(b[p.dir.len() + i] == y[i]);
    }
    assert(x =~= y);
}

/// A path is none of the files that stand beside it under its stem, an
/// underscore and more.
pub proof fn lemma_not_script(path: Seq<char>, rest: Seq<char>)
    requires
        names_file(path),
    ensures
        sibling(place_of(path), place_of(path).stem + "_"@ + rest) != path,
{
    reveal_strlit("_");
    reveal_strlit(".");
    let p = place_of(path);
    let x = p.stem + "_"@ + rest;
    let sib = sibling(p, x);
    let ls = last_index(path, '/');
    lemma_last_index(path, '/');
    let name = file_name(path);
    let dot = last_index(name, '.');
    lemma_last_index(name, '.');
    assert(path =~= p.dir + name);
    let at = (p.dir.len() + p.stem.len()) as int;
    assert(sib[at] == x[p.stem.len() as int]);
    assert(x[p.stem.len() as int] == '_');
    if dot > 0 {
        assert(path[at] == name[dot]);
    } else {
        assert(path.len() == at);
    }
}

/// Each marker among `lines`, read as lines of the file at `from`, refers
/// to a file of `set`.
pub open spec fn targets_in(from: Seq<char>, lines: Seq<Seq<char>>, set: Set<Seq<char>>) -> bool {
    forall|i: int|
        0 <= i < lines.len() ==> (#[trigger] marker_target(lines[i]) matches Some(t)
            ==> set.contains(child_of(from, t)))
}

/// The files of `set` are there and refer to files of `set` only.
pub open spec fn settled(files: Files, set: Set<Seq<char>>) -> bool {
    forall|m: Seq<char>| #[trigger]
        set.contains(m) ==> files.contains_key(m) && targets_in(
            m,
            body_lines(files[m].read()),
            set,
        )
}

/// Two stores hold the same under each name of `set`.
pub open spec fn agree(f1: Files, f2: Files, set: Set<Seq<char>>) -> bool {
    forall|m: Seq<char>| #[trigger]
        set.contains(m) ==> f1.contains_key(m) && f2.contains_key(m) && f1[m] == f2[m]
}

/// The text of a file of a settled set is the same in every store that
/// agrees on the set.
pub proof fn lemma_frame_file(f1: Files, f2: Files, set: Set<Seq<char>>, m: Seq<char>, d: nat)
    requires
        agree(f1, f2, set),
        settled(f1, set),
        set.contains(m),
    ensures
        inline_file(f1, m, d) == inline_file(f2, m, d),
    decreases d, 0nat,
{
    if d > 0 {
        lemma_frame_lines(f1, f2, set, m, body_lines(f1[m].read()), (d - 1) as nat);
    }
}

pub proof fn lemma_frame_lines(
    f1: Files,
    f2: Files,
    set: Set<Seq<char>>,
    from: Seq<char>,
    lines: Seq<Seq<char>>,
    d: nat,
)
    requires
        agree(f1, f2, set),
        settled(f1, set),
        targets_in(from, lines, set),
    ensures
        inline_lines(f1, from, lines, d) == inline_lines(f2, from, lines, d),
    decreases d, lines.len() + 1,
{
    if lines.len() > 0 {
        let head = lines.drop_last();
        assert forall|i: int| 0 <= i < head.len() implies (#[trigger] marker_target(
            head[i],
        ) matches Some(t) ==> set.contains(child_of(from, t))) by {
            assert(head[i] == lines[i]);
        }
        lemma_frame_lines(f1, f2, set, from, head, d);
        match marker_target(lines.last()) {
            Some(t) => {
                assert(lines.last() == lines[lines.len() - 1]);
                lemma_frame_file(f1, f2, set, child_of(from, t), d);
            },
            None => {},
        }
    }
}

/// How the files of one run hang together: the fragments that are open,
/// from the root to the innermost; those that were closed; the number under
/// which each was made; and the text that each stands for.
pub ghost struct Shape {
    pub chain: Seq<Seq<char>>,
    pub closed: Set<Seq<char>>,
    pub rank: Map<Seq<char>, nat>,
    pub val: Map<Seq<char>, Seq<Seq<char>>>,
}

impl Shape {
    /// The files of the run.
    pub open spec fn mine(self) -> Set<Seq<char>> {
        self.rank.dom()
    }

    pub open spec fn top(self) -> Seq<char> {
        self.chain.last()
    }

    /// The run made `made` files, each under its own name and number; a
    /// file is open or closed; numbers grow from the root to the innermost
    /// open fragment.
    #[verifier::opaque]
    pub open spec fn counted(self, made: nat) -> bool {
        &&& self.chain.len() >= 1
        &&& self.mine().finite()
        &&& self.mine().len() == made
        &&& forall|m: Seq<char>|
            self.mine().contains(m) <==> self.closed.contains(m) || self.chain.contains(m)
        &&& forall|i: int, j: int|
            0 <= i < j < self.chain.len() ==> self.chain[i] != self.chain[j]
        &&& forall|i: int| 0 <= i < self.chain.len() ==> !self.closed.contains(#[trigger] self.chain[i])
        &&& forall|m: Seq<char>| self.mine().contains(m) ==> #[trigger] self.rank[m] < made
        &&& forall|i: int|
            0 <= i < self.chain.len() - 1 ==> self.rank[#[trigger] self.chain[i]]
                < self.rank[self.chain[i + 1]]
    }

    /// Each file of the run is there, begins with a header, ends with a
    /// finished line and lies beside the script. Closed fragments refer to
    /// closed fragments; an open one refers to closed ones and, in its last
    /// line, to the next open one.
    #[verifier::opaque]
    pub open spec fn linked(self, place: Place, files: Files) -> bool {
        &&& forall|m: Seq<char>| #[trigger]
            self.mine().contains(m) ==> files.contains_key(m) && files[m].partial.len() == 0
                && files[m].lines.len() >= 1 && place_of(m).dir == place.dir && place_of(m).ext
                == place.ext
        &&& settled(files, self.closed)
        &&& targets_in(self.top(), body_lines(files[self.top()].lines), self.closed)
        &&& forall|j: int|
            0 <= j < self.chain.len() - 1 ==> {
                let b = body_lines(files[#[trigger] self.chain[j]].lines);
                &&& b.len() >= 1
                &&& marker_target(b.last()) matches Some(t) && child_of(self.chain[j], t)
                    == self.chain[j + 1]
                &&& targets_in(self.chain[j], b.drop_last(), self.closed)
            }
    }

    /// Each file of the run, read deep enough, gives the text it stands
    /// for.
    #[verifier::opaque]
    pub open spec fn valued(self, files: Files, made: nat) -> bool {
        forall|m: Seq<char>, d: nat|
            self.mine().contains(m) && d + self.rank[m] >= made ==> #[trigger] inline_file(
                files,
                m,
                d,
            ) == (Flow { out: self.val[m], failure: None })
    }
}

/// Where the innermost open fragment of a chain comes to stand for `delta`
/// more, and nothing else of the run changes, each open fragment stands for
/// `delta` more.
pub proof fn lemma_chain_val(
    g: Shape,
    place: Place,
    f1: Files,
    f2: Files,
    made1: nat,
    made2: nat,
    delta: Seq<Seq<char>>,
    j: int,
    d: nat,
)
    requires
        g.counted(made1),
        g.linked(place, f1),
        g.valued(f1, made1),
        made1 <= made2,
        agree(f1, f2, g.closed),
        forall|i: int|
            0 <= i < g.chain.len() - 1 ==> f2.contains_key(#[trigger] g.chain[i])
                && f2[g.chain[i]] == f1[g.chain[i]],
        forall|d: nat|
            d + g.rank[g.top()] >= made2 ==> #[trigger] inline_file(f2, g.top(), d) == (Flow {
                out: g.val[g.top()] + delta,
                failure: None,
            }),
        0 <= j < g.chain.len(),
        d + g.rank[g.chain[j]] >= made2,
    ensures
        inline_file(f2, g.chain[j], d) == (Flow { out: g.val[g.chain[j]] + delta, failure: None }),
    decreases g.chain.len() - j,
{
    reveal(Shape::counted);
    reveal(Shape::linked);
    reveal(Shape::valued);
    let m = g.chain[j];
    assert(g.chain.contains(m));
    assert(g.mine().contains(m));
    if j < g.chain.len() - 1 {
        let next = g.chain[j + 1];
        assert(g.chain.contains(next));
        assert(g.mine().contains(next));
        let b = body_lines(f1[m].lines);
        let t = marker_target(b.last())->0;
        assert(f1[m].read() == f1[m].lines);
        let e = (d - 1) as nat;
        let head = inline_lines(f1, m, b.drop_last(), e);
        lemma_frame_lines(f1, f2, g.closed, m, b.drop_last(), e);
        assert(inline_file(f1, m, d) == (Flow { out: g.val[m], failure: None }));
        assert(inline_file(f1, m, d) == inline_lines(f1, m, b, e));
        assert(inline_file(f1, next, e) == (Flow { out: g.val[next], failure: None }));
        lemma_chain_val(g, place, f1, f2, made1, made2, delta, j + 1, e);
        assert(inline_file(f2, m, d) == inline_lines(f2, m, b, e));
        assert(head.out + (g.val[next] + delta) =~= (head.out + g.val[next]) + delta);
    }
}

impl Shape {
    /// The shape after each open fragment came to stand for `delta` more.
    pub open spec fn grown(self, delta: Seq<Seq<char>>) -> Shape {
        Shape {
            val: Map::new(
                |m: Seq<char>| true,
                |m: Seq<char>|
                    if self.chain.contains(m) {
                        self.val[m] + delta
                    } else {
                        self.val[m]
                    },
            ),
            ..self
        }
    }
}

/// A line that is no marker, written to the innermost open fragment, is
/// one more line of its text.
proof fn lemma_line_top(g: Shape, place: Place, files: Files, made: nat, line: Seq<char>, d: nat)
    requires
        g.counted(made),
        g.linked(place, files),
        g.valued(files, made),
        marker_target(line) is None,
        d + g.rank[g.top()] >= made,
    ensures
        inline_file(put_line(files, g.top(), line), g.top(), d) == (Flow {
            out: g.val[g.top()] + seq![line],
            failure: None,
        }),
{
    reveal(Shape::counted);
    reveal(Shape::linked);
    reveal(Shape::valued);
    let t = g.top();
    let f2 = put_line(files, t, line);
    assert(g.chain[g.chain.len() - 1] == t);
    assert(g.chain.contains(t));
    assert(g.mine().contains(t));
    assert(files[t].partial + line =~= line);
    let body = body_lines(files[t].lines);
    let body2 = body_lines(f2[t].lines);
    assert(body2 =~= body.push(line));
    assert(agree(files, f2, g.closed));
    let e = (d - 1) as nat;
    lemma_frame_lines(files, f2, g.closed, t, body, e);
    assert(inline_file(files, t, d) == (Flow { out: g.val[t], failure: None }));
    assert(files[t].read() == files[t].lines);
    assert(f2[t].read() == f2[t].lines);
    assert(body2.drop_last() =~= body);
    assert(body2.last() == line);
    assert(inline_file(f2, t, d) == inline_lines(f2, t, body2, e));
    assert(g.val[t].push(line) =~= g.val[t] + seq![line]);
}

/// Writing to the innermost open fragment changes no other file of the run.
proof fn lemma_line_frame(g: Shape, place: Place, files: Files, made: nat, line: Seq<char>)
    requires
        g.counted(made),
        g.linked(place, files),
    ensures
        agree(files, put_line(files, g.top(), line), g.closed),
        forall|i: int|
            0 <= i < g.chain.len() - 1 ==> put_line(files, g.top(), line).contains_key(
                #[trigger] g.chain[i],
            ) && put_line(files, g.top(), line)[g.chain[i]] == files[g.chain[i]],
        put_line(files, g.top(), line)[g.top()] == (SinkView {
            lines: files[g.top()].lines.push(line),
            partial: Seq::empty(),
        }),
{
    reveal(Shape::counted);
    reveal(Shape::linked);
    reveal(Shape::valued);
    let t = g.top();
    let f2 = put_line(files, t, line);
    assert(g.chain[g.chain.len() - 1] == t);
    assert(g.chain.contains(t));
    assert(g.mine().contains(t));
    assert(files[t].partial + line =~= line);
    assert forall|i: int| 0 <= i < g.chain.len() - 1 implies f2.contains_key(
        #[trigger] g.chain[i],
    ) && f2[g.chain[i]] == files[g.chain[i]] by {
        assert(g.chain.contains(g.chain[i]));
        assert(g.mine().contains(g.chain[i]));
    }
}

/// After such a line each file of the run gives the text it stands for.
proof fn lemma_line_valued(g: Shape, place: Place, files: Files, made: nat, line: Seq<char>)
    requires
        g.counted(made),
        g.linked(place, files),
        g.valued(files, made),
        marker_target(line) is None,
    ensures
        g.grown(seq![line]).valued(put_line(files, g.top(), line), made),
{
    reveal(Shape::counted);
    reveal(Shape::linked);
    reveal(Shape::valued);
    let t = g.top();
    let f2 = put_line(files, t, line);
    let g2 = g.grown(seq![line]);
    let delta = seq![line];
    lemma_line_frame(g, place, files, made, line);
    assert forall|d: nat| d + g.rank[t] >= made implies #[trigger] inline_file(f2, t, d) == (Flow {
        out: g.val[t] + delta,
        failure: None,
    }) by {
        lemma_line_top(g, place, files, made, line, d);
    }
    assert forall|m: Seq<char>, d: nat|
        g2.mine().contains(m) && d + g2.rank[m] >= made implies #[trigger] inline_file(f2, m, d)
        == (Flow { out: g2.val[m], failure: None }) by {
        if g.chain.contains(m) {
            let k = choose|k: int| 0 <= k < g.chain.len() && g.chain[k] == m;
            lemma_chain_val(g, place, files, f2, made, made, delta, k, d);
        } else {
            lemma_frame_file(files, f2, g.closed, m, d);
        }
    }
}

/// After such a line the files of the run are linked as before.
proof fn lemma_line_linked(g: Shape, place: Place, files: Files, made: nat, line: Seq<char>)
    requires
        g.counted(made),
        g.linked(place, files),
        marker_target(line) is None,
    ensures
        g.grown(seq![line]).linked(place, put_line(files, g.top(), line)),
{
    reveal(Shape::counted);
    reveal(Shape::linked);
    reveal(Shape::valued);
    let t = g.top();
    let f2 = put_line(files, t, line);
    let g2 = g.grown(seq![line]);
    lemma_line_frame(g, place, files, made, line);
    assert(g.chain[g.chain.len() - 1] == t);
    assert(g.chain.contains(t));
    let body = body_lines(files[t].lines);
    let body2 = body_lines(f2[t].lines);
    assert(body2 =~= body.push(line));
    assert(settled(f2, g.closed)) by {
        assert forall|m: Seq<char>| #[trigger] g.closed.contains(m) implies f2.contains_key(m)
            && targets_in(m, body_lines(f2[m].read()), g.closed) by {
            assert(f2[m] == files[m]);
        }
    }
    assert(targets_in(t, body2, g.closed)) by {
        assert forall|i: int| 0 <= i < body2.len() implies (#[trigger] marker_target(
            body2[i],
        ) matches Some(x) ==> g.closed.contains(child_of(t, x))) by {
            if i < body.len() {
                assert(body2[i] == body[i]);
            }
        }
    }
    assert forall|k: int| 0 <= k < g2.chain.len() - 1 implies {
        let b = body_lines(f2[#[trigger] g2.chain[k]].lines);
        &&& b.len() >= 1
        &&& marker_target(b.last()) matches Some(x) && child_of(g2.chain[k], x) == g2.chain[k + 1]
        &&& targets_in(g2.chain[k], b.drop_last(), g2.closed)
    } by {
        assert(f2[g.chain[k]] == files[g.chain[k]]);
    }
    assert forall|m: Seq<char>| #[trigger] g2.mine().contains(m) implies f2.contains_key(m)
        && f2[m].partial.len() == 0 && f2[m].lines.len() >= 1 && place_of(m).dir == place.dir
        && place_of(m).ext == place.ext by {
        assert(g.mine().contains(m));
    }
}

impl Shape {
    /// The shape after the innermost open fragment was closed.
    pub open spec fn shut(self) -> Shape {
        Shape { chain: self.chain.drop_last(), closed: self.closed.insert(self.top()), ..self }
    }
}

pub(crate) proof fn lemma_targets_wider(
    from: Seq<char>,
    lines: Seq<Seq<char>>,
    a: Set<Seq<char>>,
    b: Set<Seq<char>>,
)
    requires
        targets_in(from, lines, a),
        a.subset_of(b),
    ensures
        targets_in(from, lines, b),
{
}

/// Closing the innermost open fragment keeps the run counted.
proof fn lemma_close_counted(g: Shape, made: nat)
    requires
        g.counted(made),
        g.chain.len() >= 2,
    ensures
        g.shut().counted(made),
{
    reveal(Shape::counted);
    reveal(Shape::linked);
    reveal(Shape::valued);
    let g2 = g.shut();
    let t = g.top();
    assert(g.chain[g.chain.len() - 1] == t);
    assert forall|m: Seq<char>|
        g2.mine().contains(m) <==> g2.closed.contains(m) || g2.chain.contains(m) by {
        if g2.chain.contains(m) {
            let k = choose|k: int| 0 <= k < g2.chain.len() && g2.chain[k] == m;
            assert(g.chain[k] == m);
        }
        if g.chain.contains(m) && m != t {
            let k = choose|k: int| 0 <= k < g.chain.len() && g.chain[k] == m;
            assert(g2.chain[k] == m);
        }
    }
    assert forall|i: int| 0 <= i < g2.chain.len() implies !g2.closed.contains(
        #[trigger] g2.chain[i],
    ) by {
        assert(g2.chain[i] == g.chain[i]);
    }
    assert forall|i: int| 0 <= i < g2.chain.len() - 1 implies g2.rank[#[trigger] g2.chain[i]]
        < g2.rank[g2.chain[i + 1]] by {
        assert(g2.chain[i] == g.chain[i]);
        assert(g2.chain[i + 1] == g.chain[i + 1]);
    }
}

/// Closing the innermost open fragment changes no text.
proof fn lemma_close_valued(g: Shape, files: Files, made: nat)
    requires
        g.valued(files, made),
    ensures
        g.shut().valued(files, made),
{
    reveal(Shape::valued);
    let g2 = g.shut();
    assert forall|m: Seq<char>, d: nat|
        g2.mine().contains(m) && d + g2.rank[m] >= made implies #[trigger] inline_file(files, m, d)
        == (Flow { out: g2.val[m], failure: None }) by {
        assert(g.mine().contains(m));
    }
}

/// Closing the innermost open fragment keeps the files linked.
proof fn lemma_close_linked(g: Shape, place: Place, files: Files, made: nat)
    requires
        g.counted(made),
        g.linked(place, files),
        g.chain.len() >= 2,
    ensures
        g.shut().linked(place, files),
{
    reveal(Shape::counted);
    reveal(Shape::linked);
    reveal(Shape::valued);
    let g2 = g.shut();
    let t = g.top();
    let n = g.chain.len() as int;
    assert(g.chain[n - 1] == t);
    assert(g.chain.contains(t));
    assert(g.mine().contains(t));
    assert(g.closed.subset_of(g2.closed));
    assert(settled(files, g2.closed)) by {
        assert forall|m: Seq<char>| #[trigger] g2.closed.contains(m) implies files.contains_key(m)
            && targets_in(m, body_lines(files[m].read()), g2.closed) by {
            if m == t {
                assert(files[t].read() == files[t].lines);
                lemma_targets_wider(t, body_lines(files[t].lines), g.closed, g2.closed);
            } else {
                assert(g.closed.contains(m));
                lemma_targets_wider(m, body_lines(files[m].read()), g.closed, g2.closed);
            }
        }
    }
    let u = g.chain[n - 2];
    assert(g2.top() == u);
    let b = body_lines(files[u].lines);
    assert(targets_in(u, b, g2.closed)) by {
        lemma_targets_wider(u, b.drop_last(), g.closed, g2.closed);
        assert forall|i: int| 0 <= i < b.len() implies (#[trigger] marker_target(
            b[i],
        ) matches Some(x) ==> g2.closed.contains(child_of(u, x))) by {
            if i < b.len() - 1 {
                assert(b.drop_last()[i] == b[i]);
            } else {
                assert(b[i] == b.last());
            }
        }
    }
    assert forall|k: int| 0 <= k < g2.chain.len() - 1 implies {
        let b = body_lines(files[#[trigger] g2.chain[k]].lines);
        &&& b.len() >= 1
        &&& marker_target(b.last()) matches Some(x) && child_of(g2.chain[k], x) == g2.chain[k + 1]
        &&& targets_in(g2.chain[k], b.drop_last(), g2.closed)
    } by {
        assert(g2.chain[k] == g.chain[k]);
        assert(g2.chain[k + 1] == g.chain[k + 1]);
        lemma_targets_wider(
            g.chain[k],
            body_lines(files[g.chain[k]].lines).drop_last(),
            g.closed,
            g2.closed,
        );
    }
}

/// The files after `line` opened the fragment with the given stem and
/// number below the file `parent`.
pub open spec fn opened(
    files: Files,
    place: Place,
    origin: Seq<char>,
    parent: Seq<char>,
    line: Seq<char>,
    extra: Seq<char>,
    stem: Seq<char>,
    k: nat,
) -> Files {
    let name = sibling(place, stem);
    let f1 = put_text(put_line(files, parent, line), parent, indent_of(line) + extra);
    let f2 = put_line(f1.insert(name, empty_sink()), name, header_line(k, origin));
    put_line(f2, parent, marker_line(Seq::empty(), stem, k))
}

/// What opening a fragment does to each file.
pub(crate) proof fn lemma_opened(
    files: Files,
    place: Place,
    origin: Seq<char>,
    parent: Seq<char>,
    line: Seq<char>,
    extra: Seq<char>,
    stem: Seq<char>,
    k: nat,
)
    requires
        files.contains_key(parent),
        files[parent].partial.len() == 0,
        sibling(place, stem) != parent,
    ensures
        ({
            let f3 = opened(files, place, origin, parent, line, extra, stem, k);
            let name = sibling(place, stem);
            &&& f3.dom() == files.dom().insert(name)
            &&& f3[parent] == (SinkView {
                lines: files[parent].lines.push(line).push(
                    marker_line(indent_of(line) + extra, stem, k),
                ),
                partial: Seq::empty(),
            })
            &&& f3[name] == (SinkView {
                lines: seq![header_line(k, origin)],
                partial: Seq::empty(),
            })
            &&& forall|m: Seq<char>|
                m != parent && m != name && files.contains_key(m) ==> #[trigger] f3[m] == files[m]
        }),
{
    let name = sibling(place, stem);
    let f1 = put_text(put_line(files, parent, line), parent, indent_of(line) + extra);
    let f2 = put_line(f1.insert(name, empty_sink()), name, header_line(k, origin));
    let f3 = put_line(f2, parent, marker_line(Seq::empty(), stem, k));
    let pre = indent_of(line) + extra;
    assert(files[parent].partial + line =~= line);
    assert(Seq::<char>::empty() + pre =~= pre);
    assert(f1[parent] == (SinkView { lines: files[parent].lines.push(line), partial: pre }));
    assert(empty_sink().partial + header_line(k, origin) =~= header_line(k, origin));
    assert(empty_sink().lines.push(header_line(k, origin)) =~= seq![header_line(k, origin)]);
    assert(pre + marker_line(Seq::empty(), stem, k) =~= marker_line(pre, stem, k));
    assert(f3.dom() =~= files.dom().insert(name));
}

impl Shape {
    /// The shape after a fragment was opened below the innermost open one.
    pub open spec fn deeper(self, name: Seq<char>, k: nat) -> Shape {
        Shape {
            chain: self.chain.push(name),
            closed: self.closed,
            rank: self.rank.insert(name, k),
            val: self.val.insert(name, Seq::empty()),
        }
    }

    /// A fragment with the given stem can be opened by `line`.
    pub open spec fn ready(
        self,
        place: Place,
        files: Files,
        made: nat,
        line: Seq<char>,
        extra: Seq<char>,
        stem: Seq<char>,
    ) -> bool {
        &&& self.counted(made)
        &&& self.linked(place, files)
        &&& self.valued(files, made)
        &&& marker_target(line) is None
        &&& all_space(extra)
        &&& stem.len() > 0
        &&& no_space(stem)
        &&& free_of(stem, '/')
        &&& sound_place(place)
        &&& !self.mine().contains(sibling(place, stem))
    }
}

/// Opening a fragment changes no file of the run but the innermost open
/// one.
pub(crate) proof fn lemma_open_frame(
    g: Shape,
    place: Place,
    origin: Seq<char>,
    files: Files,
    made: nat,
    line: Seq<char>,
    extra: Seq<char>,
    stem: Seq<char>,
)
    requires
        g.ready(place, files, made, line, extra, stem),
    ensures
        ({
            let f3 = opened(files, place, origin, g.top(), line, extra, stem, made);
            let name = sibling(place, stem);
            &&& g.mine().contains(g.top())
            &&& g.chain.contains(g.top())
            &&& name != g.top()
            &&& f3.dom() == files.dom().insert(name)
            &&& f3[g.top()] == (SinkView {
                lines: files[g.top()].lines.push(line).push(
                    marker_line(indent_of(line) + extra, stem, made),
                ),
                partial: Seq::empty(),
            })
            &&& f3[name] == (SinkView {
                lines: seq![header_line(made, origin)],
                partial: Seq::empty(),
            })
            &&& agree(files, f3, g.closed)
            &&& forall|i: int|
                0 <= i < g.chain.len() - 1 ==> f3.contains_key(#[trigger] g.chain[i])
                    && f3[g.chain[i]] == files[g.chain[i]]
            &&& marker_target(marker_line(indent_of(line) + extra, stem, made)) == Some(stem)
            &&& child_of(g.top(), stem) == name
        }),
{
    reveal(Shape::counted);
    reveal(Shape::linked);
    reveal(Shape::valued);
    let t = g.top();
    let name = sibling(place, stem);
    let f3 = opened(files, place, origin, t, line, extra, stem, made);
    assert(g.chain[g.chain.len() - 1] == t);
    assert(g.chain.contains(t));
    assert(g.mine().contains(t));
    lemma_opened(files, place, origin, t, line, extra, stem, made);
    assert(agree(files, f3, g.closed)) by {
        assert forall|m: Seq<char>| #[trigger] g.closed.contains(m) implies files.contains_key(m)
            && f3.contains_key(m) && files[m] == f3[m] by {
            assert(g.mine().contains(m));
        }
    }
    assert forall|i: int| 0 <= i < g.chain.len() - 1 implies f3.contains_key(
        #[trigger] g.chain[i],
    ) && f3[g.chain[i]] == files[g.chain[i]] by {
        assert(g.chain.contains(g.chain[i]));
        assert(g.mine().contains(g.chain[i]));
    }
    let pre = indent_of(line) + extra;
    lemma_indent_len(line);
    assert(all_space(pre)) by {
        assert forall|i: int| 0 <= i < pre.len() implies is_space(#[trigger] pre[i]) by {
            if i < indent_of(line).len() {
                assert(pre[i] == line[i]);
            } else {
                assert(pre[i] == extra[i - indent_of(line).len()]);
            }
        }
    }
    lemma_marker_read(pre, stem, made);
}

/// After a fragment was opened, the fragment it was opened in stands for
/// the opening line more.
proof fn lemma_open_top(
    g: Shape,
    place: Place,
    origin: Seq<char>,
    files: Files,
    made: nat,
    line: Seq<char>,
    extra: Seq<char>,
    stem: Seq<char>,
    d: nat,
)
    requires
        g.ready(place, files, made, line, extra, stem),
        d + g.rank[g.top()] >= made + 1,
    ensures
        inline_file(opened(files, place, origin, g.top(), line, extra, stem, made), g.top(), d)
            == (Flow { out: g.val[g.top()] + seq![line], failure: None }),
{
    reveal(Shape::counted);
    reveal(Shape::linked);
    reveal(Shape::valued);
    let t = g.top();
    let name = sibling(place, stem);
    let f3 = opened(files, place, origin, t, line, extra, stem, made);
    lemma_open_frame(g, place, origin, files, made, line, extra, stem);
    let mark = marker_line(indent_of(line) + extra, stem, made);
    let body = body_lines(files[t].lines);
    let body1 = body.push(line);
    let body3 = body_lines(f3[t].lines);
    assert(body3 =~= body1.push(mark));
    let e = (d - 1) as nat;
    lemma_frame_lines(files, f3, g.closed, t, body, e);
    assert(inline_file(files, t, d) == (Flow { out: g.val[t], failure: None }));
    assert(files[t].read() == files[t].lines);
    assert(f3[t].read() == f3[t].lines);
    assert(inline_lines(f3, t, body, e) == (Flow { out: g.val[t], failure: None }));
    assert(body1.drop_last() =~= body);
    assert(body1.last() == line);
    assert(inline_lines(f3, t, body1, e) == (Flow { out: g.val[t].push(line), failure: None }));
    assert(body3.drop_last() =~= body1);
    assert(body3.last() == mark);
    assert(f3[name].read() == f3[name].lines);
    assert(body_lines(f3[name].lines) =~= Seq::<Seq<char>>::empty());
    assert(e >= 1);
    assert(inline_file(f3, name, e) == (Flow { out: Seq::empty(), failure: None }));
    assert(inline_file(f3, t, d) == inline_lines(f3, t, body3, e));
    assert(g.val[t].push(line) + Seq::<Seq<char>>::empty() =~= g.val[t] + seq![line]);
}

/// After a fragment was opened, each file of the run gives the text it
/// stands for.
proof fn lemma_open_valued(
    g: Shape,
    place: Place,
    origin: Seq<char>,
    files: Files,
    made: nat,
    line: Seq<char>,
    extra: Seq<char>,
    stem: Seq<char>,
)
    requires
        g.ready(place, files, made, line, extra, stem),
    ensures
        g.grown(seq![line]).deeper(sibling(place, stem), made).valued(
            opened(files, place, origin, g.top(), line, extra, stem, made),
            made + 1,
        ),
{
    reveal(Shape::counted);
    reveal(Shape::linked);
    reveal(Shape::valued);
    let t = g.top();
    let name = sibling(place, stem);
    let f3 = opened(files, place, origin, t, line, extra, stem, made);
    let g3 = g.grown(seq![line]).deeper(name, made);
    let delta = seq![line];
    lemma_open_frame(g, place, origin, files, made, line, extra, stem);
    assert forall|d: nat| d + g.rank[t] >= made + 1 implies #[trigger] inline_file(f3, t, d) == (
    Flow { out: g.val[t] + delta, failure: None }) by {
        lemma_open_top(g, place, origin, files, made, line, extra, stem, d);
    }
    assert(!g.chain.contains(name));
    assert forall|m: Seq<char>, d: nat|
        g3.mine().contains(m) && d + g3.rank[m] >= made + 1 implies #[trigger] inline_file(
        f3,
        m,
        d,
    ) == (Flow { out: g3.val[m], failure: None }) by {
        if m == name {
            assert(f3[name].read() == f3[name].lines);
            assert(body_lines(f3[name].lines) =~= Seq::<Seq<char>>::empty());
        } else if g.chain.contains(m) {
            let k = choose|k: int| 0 <= k < g.chain.len() && g.chain[k] == m;
            lemma_chain_val(g, place, files, f3, made, made + 1, delta, k, d);
        } else {
            lemma_frame_file(files, f3, g.closed, m, d);
        }
    }
}

/// After a fragment was opened, the run is counted.
proof fn lemma_open_counted(g: Shape, made: nat, name: Seq<char>)
    requires
        g.counted(made),
        !g.mine().contains(name),
    ensures
        g.deeper(name, made).counted(made + 1),
{
    reveal(Shape::counted);
    reveal(Shape::linked);
    reveal(Shape::valued);
    let g3 = g.deeper(name, made);
    let n = g.chain.len() as int;
    assert(g3.mine() =~= g.mine().insert(name));
    assert(g.chain[n - 1] == g.top());
    assert(g.chain.contains(g.top()));
    assert forall|m: Seq<char>|
        g3.mine().contains(m) <==> g3.closed.contains(m) || g3.chain.contains(m) by {
        if g3.chain.contains(m) {
            let k = choose|k: int| 0 <= k < g3.chain.len() && g3.chain[k] == m;
            if k < n {
                assert(g.chain[k] == m);
            }
        }
        if g.chain.contains(m) {
            let k = choose|k: int| 0 <= k < g.chain.len() && g.chain[k] == m;
            assert(g3.chain[k] == m);
        }
        if m == name {
            assert(g3.chain[n] == m);
        }
    }
    assert forall|i: int, j: int| 0 <= i < j < g3.chain.len() implies g3.chain[i]
        != g3.chain[j] by {
        assert(g3.chain[i] == g.chain[i]);
        assert(g.chain.contains(g.chain[i]));
        if j < n {
            assert(g3.chain[j] == g.chain[j]);
        }
    }
    assert forall|i: int| 0 <= i < g3.chain.len() implies !g3.closed.contains(
        #[trigger] g3.chain[i],
    ) by {
        if i < n {
            assert(g3.chain[i] == g.chain[i]);
        }
    }
    assert forall|i: int| 0 <= i < g3.chain.len() - 1 implies g3.rank[#[trigger] g3.chain[i]]
        < g3.rank[g3.chain[i + 1]] by {
        assert(g3.chain[i] == g.chain[i]);
        assert(g.chain.contains(g.chain[i]));
        if i + 1 < n {
            assert(g3.chain[i + 1] == g.chain[i + 1]);
            assert(g.chain.contains(g.chain[i + 1]));
        }
    }
}

/// After a fragment was opened, the files of the run are linked.
proof fn lemma_open_linked(
    g: Shape,
    place: Place,
    origin: Seq<char>,
    files: Files,
    made: nat,
    line: Seq<char>,
    extra: Seq<char>,
    stem: Seq<char>,
)
    requires
        g.ready(place, files, made, line, extra, stem),
    ensures
        g.grown(seq![line]).deeper(sibling(place, stem), made).linked(
            place,
            opened(files, place, origin, g.top(), line, extra, stem, made),
        ),
{
    reveal(Shape::counted);
    reveal(Shape::linked);
    reveal(Shape::valued);
    let t = g.top();
    let name = sibling(place, stem);
    let f3 = opened(files, place, origin, t, line, extra, stem, made);
    let g3 = g.grown(seq![line]).deeper(name, made);
    let n = g.chain.len() as int;
    lemma_open_frame(g, place, origin, files, made, line, extra, stem);
    lemma_sibling_place(place, stem);
    assert(g3.top() == name);
    assert(g3.mine() =~= g.mine().insert(name));
    assert forall|m: Seq<char>| #[trigger] g3.mine().contains(m) implies f3.contains_key(m)
        && f3[m].partial.len() == 0 && f3[m].lines.len() >= 1 && place_of(m).dir == place.dir
        && place_of(m).ext == place.ext by {
        if m != name && m != t {
            assert(g.mine().contains(m));
            if g.chain.contains(m) {
                let k = choose|k: int| 0 <= k < g.chain.len() && g.chain[k] == m;
                assert(f3[g.chain[k]] == files[g.chain[k]]);
            } else {
                assert(g.closed.contains(m));
            }
        }
    }
    assert(settled(f3, g.closed)) by {
        assert forall|m: Seq<char>| #[trigger] g.closed.contains(m) implies f3.contains_key(m)
            && targets_in(m, body_lines(f3[m].read()), g.closed) by {
            assert(f3[m] == files[m]);
        }
    }
    assert(body_lines(f3[name].lines) =~= Seq::<Seq<char>>::empty());
    let mark = marker_line(indent_of(line) + extra, stem, made);
    let body = body_lines(files[t].lines);
    let body3 = body_lines(f3[t].lines);
    assert(body3 =~= body.push(line).push(mark));
    assert(body3.drop_last() =~= body.push(line));
    assert(targets_in(t, body3.drop_last(), g.closed)) by {
        let b1 = body3.drop_last();
        assert forall|i: int| 0 <= i < b1.len() implies (#[trigger] marker_target(
            b1[i],
        ) matches Some(x) ==> g.closed.contains(child_of(t, x))) by {
            if i < body.len() {
                assert(b1[i] == body[i]);
            }
        }
    }
    assert forall|k: int| 0 <= k < g3.chain.len() - 1 implies {
        let b = body_lines(f3[#[trigger] g3.chain[k]].lines);
        &&& b.len() >= 1
        &&& marker_target(b.last()) matches Some(x) && child_of(g3.chain[k], x) == g3.chain[k + 1]
        &&& targets_in(g3.chain[k], b.drop_last(), g3.closed)
    } by {
        assert(g3.chain[k] == g.chain[k]);
        if k < n - 1 {
            assert(g3.chain[k + 1] == g.chain[k + 1]);
            assert(f3[g.chain[k]] == files[g.chain[k]]);
        } else {
            assert(g3.chain[k] == t);
            assert(g3.chain[k + 1] == name);
            assert(body3.last() == mark);
        }
    }
}

/// Whether `m` is the name of fragment `k` of the script at `place`.
pub open spec fn is_fragment_name(place: Place, m: Seq<char>, k: nat) -> bool {
    exists|s: Seq<char>| m == sibling(place, #[trigger] fragment_stem(place, s, k))
}

impl Shape {
    /// Each file of the run is the root or has the name of the fragment of
    /// its number.
    #[verifier::opaque]
    pub open spec fn named(self, place: Place) -> bool {
        forall|m: Seq<char>| #[trigger]
            self.mine().contains(m) ==> m == sibling(place, root_stem(place)) || is_fragment_name(
                place,
                m,
                self.rank[m],
            )
    }
}

/// A fragment with the next number has a name that no file of the run has.
proof fn lemma_new_apart(g: Shape, place: Place, made: nat, slug: Seq<char>)
    requires
        g.counted(made),
        g.named(place),
    ensures
        !g.mine().contains(sibling(place, fragment_stem(place, slug, made))),
{
    reveal(Shape::counted);
    reveal(Shape::named);
    let stem = fragment_stem(place, slug, made);
    let name = sibling(place, stem);
    if g.mine().contains(name) {
        if name == sibling(place, root_stem(place)) {
            lemma_siblings_apart(place, stem, root_stem(place));
            lemma_stem_not_root(place, slug, made);
        } else {
            let k = g.rank[name];
            let s = choose|s: Seq<char>| name == sibling(place, #[trigger] fragment_stem(place, s, k));
            lemma_siblings_apart(place, stem, fragment_stem(place, s, k));
            lemma_stems_apart(place, slug, made, s, k);
        }
    }
}

/// Opening a fragment under its name keeps the run named.
proof fn lemma_named_deeper(g: Shape, place: Place, made: nat, slug: Seq<char>)
    requires
        g.named(place),
    ensures
        g.deeper(sibling(place, fragment_stem(place, slug, made)), made).named(place),
{
    reveal(Shape::named);
    let name = sibling(place, fragment_stem(place, slug, made));
    let g2 = g.deeper(name, made);
    assert forall|m: Seq<char>| #[trigger] g2.mine().contains(m) implies m == sibling(
        place,
        root_stem(place),
    ) || is_fragment_name(place, m, g2.rank[m]) by {
        if m == name {
            assert(is_fragment_name(place, m, made));
        } else {
            assert(g.mine().contains(m));
        }
    }
}

/// Text and closing change no name.
proof fn lemma_named_same(g: Shape, place: Place)
    requires
        g.named(place),
    ensures
        forall|delta: Seq<Seq<char>>| #[trigger] g.grown(delta).named(place),
        popped(g).named(place),
{
    reveal(Shape::named);
    assert forall|delta: Seq<Seq<char>>| #[trigger] g.grown(delta).named(place) by {
        let g2 = g.grown(delta);
        assert(g2.rank == g.rank);
        assert forall|m: Seq<char>| #[trigger] g2.mine().contains(m) implies m == sibling(
            place,
            root_stem(place),
        ) || is_fragment_name(place, m, g2.rank[m]) by {
            assert(g.mine().contains(m));
        }
    }
    let g3 = popped(g);
    assert(g3.rank == g.rank);
    assert forall|m: Seq<char>| #[trigger] g3.mine().contains(m) implies m == sibling(
        place,
        root_stem(place),
    ) || is_fragment_name(place, m, g3.rank[m]) by {
        assert(g.mine().contains(m));
    }
}

/// Neither the root nor a fragment is the script.
pub(crate) proof fn lemma_script_apart(path: Seq<char>, slug: Seq<char>, k: nat)
    requires
        names_file(path),
    ensures
        sibling(place_of(path), root_stem(place_of(path))) != path,
        sibling(place_of(path), fragment_stem(place_of(path), slug, k)) != path,
{
    reveal_strlit("_");
    reveal_strlit("_gen");
    reveal_strlit("gen");
    let p = place_of(path);
    assert(root_stem(p) =~= p.stem + "_"@ + "gen"@);
    assert(fragment_stem(p, slug, k) =~= p.stem + "_"@ + (slug + "_"@ + decimal(k)));
    lemma_not_script(path, "gen"@);
    lemma_not_script(path, slug + "_"@ + decimal(k));
}

/// What is known of the ends of the chain and of the files of the run.
pub(crate) proof fn lemma_ends(g: Shape, place: Place, files: Files, made: nat)
    requires
        g.counted(made),
        g.linked(place, files),
    ensures
        g.chain.len() >= 1,
        g.chain.contains(g.top()),
        g.chain.contains(g.chain[0]),
        g.mine().contains(g.top()),
        g.mine().contains(g.chain[0]),
        g.mine().finite(),
        g.mine().len() == made,
        g.mine().subset_of(files.dom()),
        files[g.top()].partial.len() == 0,
        forall|delta: Seq<Seq<char>>| #[trigger] g.grown(delta).counted(made),
{
    reveal(Shape::counted);
    reveal(Shape::linked);
    assert(g.chain[g.chain.len() - 1] == g.top());
}

/// The shape `g` describes the pass: the open fragments of the shape are
/// those of the pass (the root may have left the stack, and is open all the
/// same), the files of the run hang together, the script is none of them,
/// and the root stands for the lines `done`.
pub open spec fn holds(job: Job, path: Seq<char>, pass: Pass, done: Seq<Seq<char>>, g: Shape) -> bool {
    &&& pass.failure is None
    &&& pass.files.dom().finite()
    &&& g.counted(pass.made)
    &&& g.linked(job.place, pass.files)
    &&& g.valued(pass.files, pass.made)
    &&& g.chain[0] == job.root()
    &&& (pass.stack == g.chain || pass.stack == g.chain.skip(1))
    &&& g.val[job.root()] == done
    &&& pass.files.contains_key(path)
    &&& !g.mine().contains(path)
    &&& g.named(job.place)
    &&& names_file(path)
    &&& job.place == place_of(path)
}

/// The shape after the innermost open fragment, if it is not the root, was
/// closed.
pub open spec fn popped(g: Shape) -> Shape {
    if g.chain.len() >= 2 {
        g.shut()
    } else {
        g
    }
}

/// Closing the innermost open fragment of the pass is closing that of the
/// shape.
proof fn lemma_pop(job: Job, path: Seq<char>, pass: Pass, done: Seq<Seq<char>>, g: Shape)
    requires
        holds(job, path, pass, done, g),
    ensures
        holds(job, path, closed_top(pass), done, popped(g)),
        current(job, pass) == g.top(),
        current(job, closed_top(pass)) == popped(g).top(),
{
    let n = g.chain.len() as int;
    lemma_named_same(g, job.place);
    lemma_ends(g, job.place, pass.files, pass.made);
    if n >= 2 {
        lemma_close_valued(g, pass.files, pass.made);
        lemma_close_counted(g, pass.made);
        lemma_close_linked(g, job.place, pass.files, pass.made);
        let g2 = g.shut();
        assert(g2.chain[0] == g.chain[0]);
        if pass.stack == g.chain {
            assert(closed_top(pass).stack == g2.chain);
        } else {
            assert(pass.stack.len() == n - 1);
            assert(closed_top(pass).stack =~= g2.chain.skip(1));
            assert(pass.stack.last() == g.chain[n - 1]);
            if n >= 3 {
                assert(g2.chain.skip(1).last() == g2.chain[n - 2]);
            }
        }
    } else {
        if pass.stack == g.chain {
            assert(closed_top(pass).stack =~= g.chain.skip(1));
        } else {
            assert(pass.stack =~= Seq::<Seq<char>>::empty());
        }
    }
}

/// A line of the script that goes to the current fragment is one more line
/// of what the root stands for.
proof fn lemma_plain(
    job: Job,
    path: Seq<char>,
    pass: Pass,
    done: Seq<Seq<char>>,
    g: Shape,
    line: Seq<char>,
)
    requires
        holds(job, path, pass, done, g),
        current(job, pass) == g.top(),
        marker_target(line) is None,
    ensures
        holds(job, path, with_line(job, pass, line), done.push(line), g.grown(seq![line])),
{
    let t = g.top();
    lemma_named_same(g, job.place);
    lemma_ends(g, job.place, pass.files, pass.made);
    lemma_line_valued(g, job.place, pass.files, pass.made, line);
    lemma_line_linked(g, job.place, pass.files, pass.made, line);
    let g2 = g.grown(seq![line]);
    let f2 = put_line(pass.files, t, line);
    assert(done + seq![line] =~= done.push(line));
    assert(f2.dom() =~= pass.files.dom());
    assert(g2.counted(pass.made));
}

/// A line of the script that opens a fragment is one more line of what the
/// root stands for.
proof fn lemma_branch(
    job: Job,
    path: Seq<char>,
    pass: Pass,
    done: Seq<Seq<char>>,
    g: Shape,
    line: Seq<char>,
    extra: Seq<char>,
)
    requires
        holds(job, path, pass, done, g),
        current(job, pass) == g.top(),
        marker_target(line) is None,
        all_space(extra),
        sound_place(job.place),
        no_space(job.place.stem),
        with_fragment(job, pass, line, extra).failure is None,
        !g.mine().contains(sibling(job.place, stem_for(job, line, pass.made))),
        path != sibling(job.place, stem_for(job, line, pass.made)),
    ensures
        holds(
            job,
            path,
            with_fragment(job, pass, line, extra),
            done.push(line),
            g.grown(seq![line]).deeper(
                sibling(job.place, stem_for(job, line, pass.made)),
                pass.made,
            ),
        ),
{
    let t = g.top();
    let stem = stem_for(job, line, pass.made);
    let name = sibling(job.place, stem);
    let raw = crate::naming::slug_text(
        crate::naming::trim(crate::naming::strip_leading(body_of(line), '%')),
    );
    lemma_fragment_stem(job.place, raw, pass.made);
    lemma_ends(g, job.place, pass.files, pass.made);
    assert(g.ready(job.place, pass.files, pass.made, line, extra, stem));
    lemma_open_frame(g, job.place, job.origin, pass.files, pass.made, line, extra, stem);
    lemma_open_valued(g, job.place, job.origin, pass.files, pass.made, line, extra, stem);
    lemma_open_linked(g, job.place, job.origin, pass.files, pass.made, line, extra, stem);
    let g1 = g.grown(seq![line]);
    assert(g1.counted(pass.made));
    lemma_named_same(g, job.place);
    lemma_named_deeper(g1, job.place, pass.made, title_slug(body_of(line)));
    lemma_open_counted(g1, pass.made, name);
    let g3 = g1.deeper(name, pass.made);
    let after = with_fragment(job, pass, line, extra);
    let f3 = opened(pass.files, job.place, job.origin, t, line, extra, stem, pass.made);
    assert(after.files == f3);
    assert(done + seq![line] =~= done.push(line));
    assert(g3.chain[0] == g.chain[0]);
    if pass.stack == g.chain {
        assert(after.stack == g3.chain);
    } else {
        assert(after.stack =~= g3.chain.skip(1));
    }
    assert(g3.mine() =~= g.mine().insert(name));
}

/// A fragment that is opened has a name that no file of the run has, and
/// is not the script.
pub(crate) proof fn lemma_fresh(
    job: Job,
    path: Seq<char>,
    pass: Pass,
    done: Seq<Seq<char>>,
    g: Shape,
    line: Seq<char>,
)
    requires
        holds(job, path, pass, done, g),
    ensures
        !g.mine().contains(sibling(job.place, stem_for(job, line, pass.made))),
        path != sibling(job.place, stem_for(job, line, pass.made)),
{
    lemma_new_apart(g, job.place, pass.made, title_slug(body_of(line)));
    lemma_script_apart(path, title_slug(body_of(line)), pass.made);
}

/// The shape after one more line of the script.
pub open spec fn next_shape(job: Job, pass: Pass, g: Shape, line: Seq<char>) -> Shape {
    let name = sibling(job.place, stem_for(job, line, pass.made));
    match kind_of(line) {
        LineKind::CellBreak => popped(g).grown(seq![line]).deeper(name, pass.made),
        LineKind::Terminator => popped(g).grown(seq![line]),
        LineKind::Opener => g.grown(seq![line]).deeper(name, pass.made),
        LineKind::Reentry => popped(g).grown(seq![line]).deeper(name, pass.made),
        LineKind::Unsupported => g,
        LineKind::Plain => g.grown(seq![line]),
    }
}

/// One more line of the script: the root stands for one more line.
pub(crate) proof fn lemma_step(
    job: Job,
    path: Seq<char>,
    pass: Pass,
    done: Seq<Seq<char>>,
    g: Shape,
    line: Seq<char>,
)
    requires
        holds(job, path, pass, done, g),
        marker_target(line) is None,
        no_space(job.place.stem),
        step(job, pass, line).failure is None,
    ensures
        holds(job, path, step(job, pass, line), done.push(line), next_shape(job, pass, g, line)),
        holds(job, path, closed_top(pass), done, popped(g)),
        current(job, pass) == g.top(),
        current(job, closed_top(pass)) == popped(g).top(),
{
    reveal_strlit("    ");
    let four = "    "@;
    let none = Seq::<char>::empty();
    assert(all_space(four));
    assert(all_space(none));
    lemma_place_sound(path);
    lemma_pop(job, path, pass, done, g);
    let shut = closed_top(pass);
    let gs = popped(g);
    match kind_of(line) {
        LineKind::CellBreak => {
            lemma_fresh(job, path, shut, done, gs, line);
            lemma_branch(job, path, shut, done, gs, line, none);
        },
        LineKind::Terminator => {
            lemma_plain(job, path, shut, done, gs, line);
        },
        LineKind::Opener => {
            lemma_fresh(job, path, pass, done, g, line);
            lemma_branch(job, path, pass, done, g, line, four);
        },
        LineKind::Reentry => {
            lemma_fresh(job, path, shut, done, gs, line);
            lemma_branch(job, path, shut, done, gs, line, four);
        },
        LineKind::Unsupported => {},
        LineKind::Plain => {
            lemma_plain(job, path, pass, done, g, line);
        },
    }
}

/// The shape of a run that has made its root fragment and nothing else.
pub open spec fn first_shape(root: Seq<char>) -> Shape {
    Shape {
        chain: seq![root],
        closed: Set::empty(),
        rank: Map::empty().insert(root, 0nat),
        val: Map::empty().insert(root, Seq::empty()),
    }
}

/// Before the first line the root stands for no line.
pub(crate) proof fn lemma_begin(job: Job, path: Seq<char>, files: Files)
    requires
        files.dom().finite(),
        files.contains_key(path),
        names_file(path),
        job.place == place_of(path),
        begin(job, files).failure is None,
    ensures
        holds(job, path, begin(job, files), Seq::empty(), first_shape(job.root())),
{
    reveal(Shape::counted);
    reveal(Shape::named);
    lemma_place_sound(path);
    lemma_script_apart(path, Seq::empty(), 0);
    reveal(Shape::linked);
    reveal(Shape::valued);
    let root = job.root();
    let g = first_shape(root);
    let pass = begin(job, files);
    let head = header_line(0, job.origin);
    lemma_root_stem(job.place);
    lemma_sibling_place(job.place, root_stem(job.place));
    assert(g.mine() =~= Set::empty().insert(root));
    assert(empty_sink().partial + head =~= head);
    assert(pass.files[root] == (SinkView { lines: seq![head], partial: Seq::empty() })) by {
        assert(empty_sink().lines.push(head) =~= seq![head]);
    }
    assert(pass.files.dom() =~= files.dom().insert(root));
    assert(g.chain[0] == root);
    assert(g.top() == root);
    assert(body_lines(pass.files[root].lines) =~= Seq::<Seq<char>>::empty());
    assert(pass.files[root].read() == pass.files[root].lines);
    assert forall|m: Seq<char>|
        g.mine().contains(m) <==> g.closed.contains(m) || g.chain.contains(m) by {
        if m == root {
            assert(g.chain[0] == m);
        }
    }
    assert(g.counted(1));
    assert(g.linked(job.place, pass.files));
    assert(g.valued(pass.files, 1));
}

/// The shape of the run after the given lines.
pub open spec fn shape_of(job: Job, files: Files, lines: Seq<Seq<char>>) -> Shape
    decreases lines.len(),
{
    if lines.len() == 0 {
        first_shape(job.root())
    } else {
        next_shape(
            job,
            run(job, begin(job, files), lines.drop_last()),
            shape_of(job, files, lines.drop_last()),
            lines.last(),
        )
    }
}

/// After the lines of a script that holds no marker, the root stands for
/// these lines.
pub(crate) proof fn lemma_run_holds(job: Job, path: Seq<char>, files: Files, lines: Seq<Seq<char>>)
    requires
        files.dom().finite(),
        files.contains_key(path),
        names_file(path),
        job.place == place_of(path),
        no_space(job.place.stem),
        run(job, begin(job, files), lines).failure is None,
        forall|i: int| 0 <= i < lines.len() ==> #[trigger] marker_target(lines[i]) is None,
    ensures
        holds(job, path, run(job, begin(job, files), lines), lines, shape_of(job, files, lines)),
    decreases lines.len(),
{
    if lines.len() == 0 {
        lemma_begin(job, path, files);
        assert(lines =~= Seq::<Seq<char>>::empty());
    } else {
        let head = lines.drop_last();
        let prior = run(job, begin(job, files), head);
        if prior.failure is Some {
            crate::expand::lemma_run_failed(job, prior, seq![lines.last()]);
        }
        assert forall|i: int| 0 <= i < head.len() implies #[trigger] marker_target(
            head[i],
        ) is None by {
            assert(head[i] == lines[i]);
        }
        lemma_run_holds(job, path, files, head);
        assert(marker_target(lines[lines.len() - 1]) is None);
        lemma_step(job, path, prior, head, shape_of(job, files, head), lines.last());
        assert(head.push(lines.last()) =~= lines);
    }
}

/// The files of a run refer to files of the run only.
proof fn lemma_all_settled(g: Shape, place: Place, files: Files, made: nat)
    requires
        g.counted(made),
        g.linked(place, files),
    ensures
        settled(files, g.mine()),
{
    reveal(Shape::counted);
    reveal(Shape::linked);
    let n = g.chain.len() as int;
    assert(g.closed.subset_of(g.mine()));
    assert forall|m: Seq<char>| #[trigger] g.mine().contains(m) implies files.contains_key(m)
        && targets_in(m, body_lines(files[m].read()), g.mine()) by {
        assert(files[m].read() == files[m].lines);
        let b = body_lines(files[m].lines);
        if g.closed.contains(m) {
            lemma_targets_wider(m, b, g.closed, g.mine());
        } else {
            let k = choose|k: int| 0 <= k < g.chain.len() && g.chain[k] == m;
            if k == n - 1 {
                assert(m == g.top());
                lemma_targets_wider(m, b, g.closed, g.mine());
            } else {
                lemma_targets_wider(m, b.drop_last(), g.closed, g.mine());
                assert(g.chain.contains(g.chain[k + 1]));
                assert forall|i: int| 0 <= i < b.len() implies (#[trigger] marker_target(
                    b[i],
                ) matches Some(x) ==> g.mine().contains(child_of(m, x))) by {
                    if i < b.len() - 1 {
                        assert(b.drop_last()[i] == b[i]);
                    } else {
                        assert(b[i] == b.last());
                    }
                }
            }
        }
    }
}

/// What the root gives in a store that holds the run unchanged.
proof fn lemma_root_text(
    job: Job,
    path: Seq<char>,
    pass: Pass,
    done: Seq<Seq<char>>,
    g: Shape,
    other: Files,
)
    requires
        holds(job, path, pass, done, g),
        agree(pass.files, other, g.mine()),
        other.dom().finite(),
        pass.files.dom().subset_of(other.dom()),
    ensures
        inline_file(other, job.root(), other.dom().len()) == (Flow { out: done, failure: None }),
{
    lemma_ends(g, job.place, pass.files, pass.made);
    lemma_all_settled(g, job.place, pass.files, pass.made);
    let depth = other.dom().len();
    vstd::set_lib::lemma_len_subset(g.mine(), other.dom());
    lemma_frame_file(pass.files, other, g.mine(), job.root(), depth);
    reveal(Shape::valued);
}

/// The last line of each open fragment but the innermost is the marker of
/// the next.
proof fn lemma_chain_links(g: Shape, place: Place, files: Files, made: nat)
    requires
        g.counted(made),
        g.linked(place, files),
    ensures
        forall|j: int|
            0 <= j < g.chain.len() - 1 ==> files.contains_key(#[trigger] g.chain[j])
                && files[g.chain[j]].lines.len() >= 2 && (marker_target(
                files[g.chain[j]].lines.last(),
            ) matches Some(t) && child_of(g.chain[j], t) == g.chain[j + 1]),
{
    reveal(Shape::linked);
    reveal(Shape::counted);
    assert forall|j: int| 0 <= j < g.chain.len() - 1 implies files.contains_key(
        #[trigger] g.chain[j],
    ) && files[g.chain[j]].lines.len() >= 2 && (marker_target(
        files[g.chain[j]].lines.last(),
    ) matches Some(t) && child_of(g.chain[j], t) == g.chain[j + 1]) by {
        let m = g.chain[j];
        assert(g.chain.contains(m));
        assert(g.mine().contains(m));
        let b = body_lines(files[m].lines);
        assert(b.len() >= 1);
        assert(b.last() == files[m].lines.last());
    }
}

/// The open fragments hang on the root in a row: the root is the first,
/// the fragment that takes the next line is the last, and the last line of
/// each is the marker of the one after it. So the file that takes a line is
/// reached from the root by following one marker for each open fragment,
/// the root not counted. The stack of the pass holds this row, with or
/// without the root at its bottom.
pub proof fn law_open_chain(job: Job, path: Seq<char>, files: Files, lines: Seq<Seq<char>>)
    requires
        files.dom().finite(),
        files.contains_key(path),
        names_file(path),
        job.place == place_of(path),
        no_space(job.place.stem),
        run(job, begin(job, files), lines).failure is None,
        forall|i: int| 0 <= i < lines.len() ==> #[trigger] marker_target(lines[i]) is None,
    ensures
        ({
            let pass = run(job, begin(job, files), lines);
            let chain = shape_of(job, files, lines).chain;
            &&& chain.len() >= 1
            &&& chain[0] == job.root()
            &&& chain.last() == current(job, pass)
            &&& (pass.stack == chain || pass.stack == chain.skip(1))
            &&& forall|j: int|
                0 <= j < chain.len() - 1 ==> pass.files.contains_key(#[trigger] chain[j])
                    && pass.files[chain[j]].lines.len() >= 2 && (marker_target(
                    pass.files[chain[j]].lines.last(),
                ) matches Some(t) && child_of(chain[j], t) == chain[j + 1])
        }),
{
    lemma_run_holds(job, path, files, lines);
    let pass = run(job, begin(job, files), lines);
    let g = shape_of(job, files, lines);
    lemma_pop(job, path, pass, lines, g);
    lemma_ends(g, job.place, pass.files, pass.made);
    lemma_chain_links(g, job.place, pass.files, pass.made);
}

/// The files of `a` are files of `b`, unchanged.
pub open spec fn within(a: Files, b: Files) -> bool {
    forall|m: Seq<char>| #[trigger] a.contains_key(m) ==> b.contains_key(m) && a[m] == b[m]
}

/// A sweep changes no file that it leaves.
pub proof fn lemma_sweep_file_within(files: Files, from: Seq<char>, d: nat)
    ensures
        within(sweep_file(files, from, d).files, files),
    decreases d, 0nat,
{
    if d > 0 && files.contains_key(from) {
        lemma_sweep_lines_within(files, from, files[from].read(), (d - 1) as nat);
    }
}

pub proof fn lemma_sweep_lines_within(
    files: Files,
    from: Seq<char>,
    lines: Seq<Seq<char>>,
    d: nat,
)
    ensures
        within(sweep_lines(files, from, lines, d).files, files),
    decreases d, lines.len() + 1,
{
    if lines.len() > 0 {
        lemma_sweep_lines_within(files, from, lines.drop_last(), d);
        let head = sweep_lines(files, from, lines.drop_last(), d);
        if head.failure is None {
            match marker_target(lines.last()) {
                Some(stem) => {
                    lemma_sweep_file_within(head.files, child_of(from, stem), d);
                },
                None => {},
            }
        }
    }
}

/// The root fragment of a script is a root fragment, and belongs to that
/// script, unless the name of the script ends with a `.`.
pub proof fn lemma_script_of_root(path: Seq<char>)
    requires
        names_file(path),
        path.last() != '.',
    ensures
        names_root(root_of(path)),
        script_of(root_of(path)) == path,
{
    reveal_strlit("_gen");
    reveal_strlit(".");
    let p = place_of(path);
    lemma_place_sound(path);
    lemma_root_stem(p);
    lemma_sibling_place(p, root_stem(p));
    let rs = root_stem(p);
    assert(rs.skip(rs.len() - 4) =~= "_gen"@);
    assert(rs.take(rs.len() - 4) =~= p.stem);
    let ls = last_index(path, '/');
    lemma_last_index(path, '/');
    let name = file_name(path);
    let dot = last_index(name, '.');
    lemma_last_index(name, '.');
    assert(path =~= p.dir + name);
    if dot > 0 {
        assert(name =~= p.stem + "."@ + p.ext);
        if p.ext.len() == 0 {
            assert(path.last() == name[dot]);
        }
    }
}

/// Expanding a script and collapsing its root fragment gives the script
/// back, line for line, and changes no other file. This holds where the
/// stem of the script's name has no white space in it, its name does not end
/// with a `.`, and no line of the script reads as a marker.
pub proof fn law_round_trip(files: Files, path: Seq<char>, overwrite: bool)
    requires
        files.dom().finite(),
        expanded(files, path, overwrite).failure is None,
        no_space(place_of(path).stem),
        path.last() != '.',
        forall|i: int|
            0 <= i < files[path].read().len() ==> #[trigger] marker_target(files[path].read()[i])
                is None,
    ensures
        collapsed(expanded(files, path, overwrite).files, root_of(path)) == (Swept {
            files: expanded(files, path, overwrite).files.insert(
                path,
                sink_of(files[path].read()),
            ),
            failure: None,
        }),
{
    let job = job_of(path, overwrite);
    let swept = cleared(files, path, overwrite);
    if overwrite && files.contains_key(job.root()) {
        lemma_sweep_file_within(files, job.root(), files.dom().len());
    }
    assert(within(swept.files, files));
    assert(swept.files.dom().subset_of(files.dom()));
    vstd::set_lib::lemma_len_subset(swept.files.dom(), files.dom());
    let lines = files[path].read();
    assert(swept.files[path] == files[path]);
    lemma_run_holds(job, path, swept.files, lines);
    let g = shape_of(job, swept.files, lines);
    let last = run(job, begin(job, swept.files), lines);
    lemma_ends(g, job.place, last.files, last.made);
    assert(agree(last.files, last.files, g.mine()));
    assert(root_of(path) == job.root());
    assert(expanded(files, path, overwrite).files == last.files);
    lemma_root_text(job, path, last, lines, g, last.files);
    lemma_script_of_root(path);
}

} // verus!
