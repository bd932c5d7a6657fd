//! Where fragments live and what links them: the parts of a path, the names
//! made from them, and the header and marker lines.

use vstd::prelude::*;
use crate::error::{Error, ErrorView};
use crate::text::{
    body_of, char_is_space, chars_of, count_indent, decimal, decimal_string, has_prefix_at,
    is_digit, is_space, string_of,
};

verus! {

/// The position of the last `c` in `s`, or -1.
pub open spec fn last_index(s: Seq<char>, c: char) -> int
    decreases s.len(),
{
    if s.len() == 0 {
        -1
    } else if s.last() == c {
        s.len() - 1
    } else {
        last_index(s.drop_last(), c)
    }
}

pub proof fn lemma_last_index(s: Seq<char>, c: char)
    ensures
        -1 <= last_index(s, c) < s.len(),
        last_index(s, c) >= 0 ==> s[last_index(s, c)] == c,
        forall|i: int| last_index(s, c) < i < s.len() ==> #[trigger] s[i] != c,
    decreases s.len(),
{
    if s.len() > 0 && s.last() != c {
        let t = s.drop_last();
        lemma_last_index(t, c);
        assert forall|i: int| last_index(s, c) < i < s.len() implies #[trigger] s[i] != c by {
            if i < t.len() {
                assert(t[i] == s[i]);
            }
        }
    }
}

pub proof fn lemma_last_index_unique(s: Seq<char>, c: char, k: int)
    requires
        -1 <= k < s.len(),
        k >= 0 ==> s[k] == c,
        forall|i: int| k < i < s.len() ==> #[trigger] s[i] != c,
    ensures
        last_index(s, c) == k,
    decreases s.len(),
{
    if s.len() > 0 && s.last() != c {
        let t = s.drop_last();
        assert(k < s.len() - 1);
        assert forall|i: int| k < i < t.len() implies #[trigger] t[i] != c by {
            assert(t[i] == s[i]);
        }
        lemma_last_index_unique(t, c, k);
    } else if s.len() > 0 {
        if k < s.len() - 1 {
            assert(s[s.len() - 1] != c);
        }
    }
}

/// A path in parts: the directory with its last `/`, and the file name split
/// at its last `.` (a name that only begins with a `.` is not split).
pub ghost struct Place {
    pub dir: Seq<char>,
    pub stem: Seq<char>,
    pub ext: Seq<char>,
}

/// The last component of a path.
pub open spec fn file_name(path: Seq<char>) -> Seq<char> {
    path.skip(last_index(path, '/') + 1)
}

/// Whether a path has a last component that can be a file.
pub open spec fn names_file(path: Seq<char>) -> bool {
    file_name(path).len() > 0 && file_name(path) != seq!['.', '.']
}

pub open spec fn place_of(path: Seq<char>) -> Place {
    let name = file_name(path);
    let dot = last_index(name, '.');
    Place {
        dir: path.take(last_index(path, '/') + 1),
        stem: if dot > 0 { name.take(dot) } else { name },
        ext: if dot > 0 { name.skip(dot + 1) } else { Seq::empty() },
    }
}

/// The parts of a path.
pub struct PathParts {
    pub dir: String,
    pub stem: String,
    pub ext: String,
}

impl View for PathParts {
    type V = Place;

    open spec fn view(&self) -> Place {
        Place { dir: self.dir@, stem: self.stem@, ext: self.ext@ }
    }
}

/// Finds the last `c` in `v`.
fn find_last(v: &Vec<char>, c: char) -> (r: Option<usize>)
    ensures
        r is None <==> last_index(v@, c) == -1,
        r matches Some(k) ==> k == last_index(v@, c) && k < v.len(),
{
    let mut i: usize = v.len();
    while i > 0
        invariant
            i <= v.len(),
            forall|j: int| i <= j < v.len() ==> #[trigger] v@[j] != c,
        decreases i,
    {
        if v[i - 1] == c {
            proof {
                lemma_last_index_unique(v@, c, i - 1);
            }
            return Some(i - 1);
        }
        i = i - 1;
    }
    proof {
        lemma_last_index_unique(v@, c, -1);
    }
    None
}

/// The parts of a path, whatever it names.
pub fn parts_of(path: &str) -> (p: PathParts)
    ensures
        p@ == place_of(path@),
{
    let v = chars_of(path);
    let start: usize = match find_last(&v, '/') {
        Some(k) => k + 1,
        None => 0,
    };
    let name_string = string_of(&v, start, v.len());
    let name = chars_of(name_string.as_str());
    assert(name@ =~= file_name(path@));
    let dir = string_of(&v, 0, start);
    assert(dir@ =~= path@.take(last_index(path@, '/') + 1));
    match find_last(&name, '.') {
        Some(dot) => {
            if dot > 0 {
                let stem = string_of(&name, 0, dot);
                let ext = string_of(&name, dot + 1, name.len());
                assert(stem@ =~= name@.take(dot as int));
                assert(ext@ =~= name@.skip(dot + 1));
                return PathParts { dir, stem, ext };
            }
        },
        None => {},
    }
    PathParts { dir, stem: name_string, ext: String::new() }
}

/// Whether a path has a last component that can be a file.
pub fn has_file_name(path: &str) -> (b: bool)
    ensures
        b == names_file(path@),
{
    let v = chars_of(path);
    let start: usize = match find_last(&v, '/') {
        Some(k) => k + 1,
        None => 0,
    };
    let n = v.len() - start;
    let ghost name = file_name(path@);
    assert(name =~= v@.skip(start as int));
    if n == 2 && v[start] == '.' && v[start + 1] == '.' {
        assert(name =~= seq!['.', '.']);
        false
    } else {
        assert(n == 2 ==> name[0] == v@[start as int] && name[1] == v@[start + 1]);
        n > 0
    }
}

/// Splits a path into its parts. A path without a file name is refused.
pub fn split_path(path: &str) -> (r: Result<PathParts, Error>)
    ensures
        r is Ok <==> names_file(path@),
        r matches Ok(p) ==> p@ == place_of(path@),
        r matches Err(e) ==> e@ == ErrorView::InvalidPath,
{
    if has_file_name(path) {
        Ok(parts_of(path))
    } else {
        Err(Error::InvalidPath)
    }
}

/// The file called `stem` beside the file at `p`, with the same extension.
pub open spec fn sibling(p: Place, stem: Seq<char>) -> Seq<char> {
    p.dir + stem + "."@ + p.ext
}

/// The stem of the root fragment of the script at `p`.
pub open spec fn root_stem(p: Place) -> Seq<char> {
    p.stem + "_gen"@
}

/// The stem of fragment `k`, opened by a line with the given slug.
pub open spec fn fragment_stem(p: Place, slug: Seq<char>, k: nat) -> Seq<char> {
    p.stem + "_"@ + slug + "_"@ + decimal(k)
}

/// Whether a stem is that of a root fragment: the stem of a script and
/// `_gen`.
pub open spec fn is_root_stem(stem: Seq<char>) -> bool {
    stem.len() > 4 && stem.skip(stem.len() - 4) == "_gen"@
}

/// Whether a path is that of a root fragment.
pub open spec fn names_root(path: Seq<char>) -> bool {
    is_root_stem(place_of(path).stem)
}

/// The script that the root fragment at `root` belongs to: the file beside
/// it whose stem is that of the root without `_gen`. Where the root has no
/// extension, the script has none, and no `.` either.
pub open spec fn script_of(root: Seq<char>) -> Seq<char> {
    let p = place_of(root);
    let stem = p.stem.take(p.stem.len() - 4);
    if p.ext.len() > 0 {
        sibling(p, stem)
    } else {
        p.dir + stem
    }
}

/// The first line of fragment `k` of the script at `origin`.
pub open spec fn header_line(k: nat, origin: Seq<char>) -> Seq<char> {
    "% part "@ + decimal(k) + " of "@ + origin
}

/// The line that refers to the fragment with the given stem and number.
pub open spec fn marker_line(indent: Seq<char>, stem: Seq<char>, k: nat) -> Seq<char> {
    indent + stem + " %cellsplit<"@ + decimal(k) + ">"@
}

/// How many characters other than white space `s` begins with.
pub open spec fn token_len(s: Seq<char>) -> nat
    decreases s.len(),
{
    if s.len() > 0 && !is_space(s[0]) {
        1 + token_len(s.skip(1))
    } else {
        0
    }
}

pub open spec fn all_digits(s: Seq<char>) -> bool {
    forall|i: int| 0 <= i < s.len() ==> is_digit(#[trigger] s[i])
}

/// The stem that a marker line refers to. A marker line is, after any white
/// space, a stem without white space, one space, `%cellsplit<`, decimal
/// digits, and `>` at the end of the line.
pub open spec fn marker_target(line: Seq<char>) -> Option<Seq<char>> {
    let b = body_of(line);
    let n = token_len(b) as int;
    let rest = b.skip(n);
    let lit = " %cellsplit<"@;
    if n > 0 && rest.len() >= lit.len() + 2 && lit.is_prefix_of(rest) && rest.last() == '>'
        && all_digits(rest.subrange(lit.len() as int, rest.len() - 1)) {
        Some(b.take(n))
    } else {
        None
    }
}

pub proof fn lemma_token_len_unique(s: Seq<char>, n: int)
    requires
        0 <= n <= s.len(),
        forall|i: int| 0 <= i < n ==> !is_space(#[trigger] s[i]),
        n < s.len() ==> is_space(s[n]),
    ensures
        token_len(s) == n,
    decreases s.len(),
{
    if n > 0 {
        let t = s.skip(1);
        assert(!is_space(s[0]));
        assert forall|i: int| 0 <= i < n - 1 implies !is_space(#[trigger] t[i]) by {
            assert(t[i] == s[i + 1]);
        }
        if n - 1 < t.len() {
            assert(t[n - 1] == s[n]);
        }
        lemma_token_len_unique(t, n - 1);
    }
}

/// `a`, `b`, `c` and `d` in a row.
fn join4(a: &str, b: &str, c: &str, d: &str) -> (s: String)
    ensures
        s@ == a@ + b@ + c@ + d@,
{
    let mut s = String::new();
    s.append(a);
    s.append(b);
    s.append(c);
    s.append(d);
    assert(s@ =~= a@ + b@ + c@ + d@);
    s
}

/// The path of the file called `stem` beside the file at `p`.
pub fn sibling_path(p: &PathParts, stem: &str) -> (s: String)
    ensures
        s@ == sibling(p@, stem@),
{
    join4(p.dir.as_str(), stem, ".", p.ext.as_str())
}

/// The stem of the root fragment.
pub fn root_stem_of(p: &PathParts) -> (s: String)
    ensures
        s@ == root_stem(p@),
{
    crate::text::join2(p.stem.as_str(), "_gen")
}

/// The path of the script that the root fragment at `root` belongs to. A
/// path that is not that of a root fragment is refused.
pub fn script_path(root: &str) -> (r: Result<String, Error>)
    ensures
        r is Ok <==> names_root(root@),
        r matches Ok(s) ==> s@ == script_of(root@),
        r matches Err(e) ==> e@ == ErrorView::InvalidPath,
{
    let p = parts_of(root);
    let v = chars_of(p.stem.as_str());
    if v.len() <= 4 || !has_prefix_at(&v, v.len() - 4, "_gen") {
        proof {
            reveal_strlit("_gen");
        }
        return Err(Error::InvalidPath);
    }
    proof {
        reveal_strlit("_gen");
        let tail = v@.skip(v.len() - 4);
        assert(tail.subrange(0, 4) =~= tail);
    }
    let stem = string_of(&v, 0, v.len() - 4);
    assert(stem@ =~= p.stem@.take(p.stem@.len() - 4));
    if chars_of(p.ext.as_str()).len() > 0 {
        Ok(sibling_path(&p, stem.as_str()))
    } else {
        Ok(crate::text::join2(p.dir.as_str(), stem.as_str()))
    }
}

/// The stem of fragment `k`.
pub fn fragment_stem_of(p: &PathParts, slug: &str, k: u128) -> (s: String)
    ensures
        s@ == fragment_stem(p@, slug@, k as nat),
{
    let d = decimal_string(k);
    let mut s = join4(p.stem.as_str(), "_", slug, "_");
    s.append(d.as_str());
    s
}

/// The header of fragment `k`.
pub fn header_of(k: u128, origin: &str) -> (s: String)
    ensures
        s@ == header_line(k as nat, origin@),
{
    let d = decimal_string(k);
    join4("% part ", d.as_str(), " of ", origin)
}

/// The marker that refers to fragment `k`.
pub fn marker_of(indent: &str, stem: &str, k: u128) -> (s: String)
    ensures
        s@ == marker_line(indent@, stem@, k as nat),
{
    let d = decimal_string(k);
    let mut s = join4(indent, stem, " %cellsplit<", d.as_str());
    s.append(">");
    s
}

/// Reads a marker line: the stem it refers to, or `None` for any other line.
#[verifier::loop_isolation(false)]
pub fn read_marker(line: &str) -> (r: Option<String>)
    ensures
        r is Some <==> marker_target(line@) is Some,
        r matches Some(t) ==> marker_target(line@) == Some(t@),
{
    let v = chars_of(line);
    let from = count_indent(&v);
    let mut to: usize = from;
    while to < v.len() && !char_is_space(v[to])
        invariant
            from <= to <= v.len(),
            forall|i: int| from <= i < to ==> !is_space(#[trigger] v@[i]),
        decreases v.len() - to,
    {
        to = to + 1;
    }
    let ghost b = body_of(line@);
    let ghost rest = b.skip(to - from);
    let ghost lit = " %cellsplit<"@;
    proof {
        reveal_strlit(" %cellsplit<");
        assert forall|i: int| 0 <= i < to - from implies !is_space(#[trigger] b[i]) by {
            assert(b[i] == v@[from + i]);
        }
        if to - from < b.len() {
            assert(b[to - from] == v@[to as int]);
        }
        lemma_token_len_unique(b, to - from);
        assert(rest =~= v@.skip(to as int));
    }
    if to == from || v.len() - to < 14 || !has_prefix_at(&v, to, " %cellsplit<") || v[v.len() - 1]
        != '>' {
        return None;
    }
    let mut i: usize = to + 12;
    while i < v.len() - 1
        invariant
            to + 12 <= i <= v.len() - 1,
            forall|j: int| to + 12 <= j < i ==> is_digit(#[trigger] v@[j]),
        decreases v.len() - i,
    {
        let c = v[i];
        if !('0' <= c && c <= '9') {
            proof {
                let mid = rest.subrange(lit.len() as int, rest.len() - 1);
                assert(mid[i - to - 12] == v@[i as int]);
            }
            return None;
        }
        i = i + 1;
    }
    proof {
        let mid = rest.subrange(lit.len() as int, rest.len() - 1);
        assert forall|j: int| 0 <= j < mid.len() implies is_digit(#[trigger] mid[j]) by {
            assert(mid[j] == v@[to + 12 + j]);
        }
        assert(b.take(to - from) =~= v@.subrange(from as int, to as int));
    }
    Some(string_of(&v, from, to))
}

} // verus!
