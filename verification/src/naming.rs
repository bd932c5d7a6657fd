//! The names of fragments: slugs, paths and the pattern that joins them.

use vstd::prelude::*;
use crate::text::{char_is_space, chars_of, count_indent, indent_len, is_space, string_of};

verus! {

/// What `slug::slugify` makes of a text.
pub uninterp spec fn slug_text(s: Seq<char>) -> Seq<char>;

/// The characters that a slug is made of.
pub open spec fn is_slug_char(c: char) -> bool {
    'a' <= c <= 'z' || '0' <= c <= '9' || c == '-'
}

/// Calls `slug::slugify`, which turns any text into lower-case ASCII words
/// joined by single dashes. The crate documents, and its source shows, that
/// the result holds only `a-z`, `0-9` and `-`, that it neither begins nor
/// ends with `-`, and that no two `-` follow each other; which characters it
/// holds is not stated here but named.
#[verifier::external_body]
fn slug_of(s: &str) -> (r: String)
    ensures
        r@ == slug_text(s@),
        forall|i: int| 0 <= i < r@.len() ==> is_slug_char(#[trigger] r@[i]),
        r@.len() > 0 ==> r@[0] != '-',
        r@.len() > 0 ==> r@[r@.len() - 1] != '-',
        forall|i: int| 0 <= i < r@.len() - 1 ==> !(#[trigger] r@[i] == '-' && r@[i + 1] == '-'),
{
    ::slug::slugify(s)
}

/// How many white-space characters `s` ends with.
pub open spec fn trailing_len(s: Seq<char>) -> nat
    decreases s.len(),
{
    if s.len() > 0 && is_space(s.last()) {
        1 + trailing_len(s.drop_last())
    } else {
        0
    }
}

/// A text without the white space around it.
pub open spec fn trim(s: Seq<char>) -> Seq<char> {
    let t = s.skip(indent_len(s) as int);
    t.take(t.len() - trailing_len(t))
}

/// A text without the `c`s that it begins with.
pub open spec fn strip_leading(s: Seq<char>, c: char) -> Seq<char>
    decreases s.len(),
{
    if s.len() > 0 && s[0] == c {
        strip_leading(s.skip(1), c)
    } else {
        s
    }
}

/// Whether `c` may stand in a name: a lower-case letter or a digit.
pub open spec fn is_name_char(c: char) -> bool {
    'a' <= c <= 'z' || '0' <= c <= '9'
}

/// A slug with `_` for each `-` (and for whatever else is neither a
/// lower-case letter nor a digit), cut to at most `limit` characters.
pub open spec fn tidy_slug(slug: Seq<char>, limit: nat) -> Seq<char> {
    let n = if slug.len() <= limit { slug.len() } else { limit };
    Seq::new(n, |i: int| if is_name_char(slug[i]) { slug[i] } else { '_' })
}

/// The slug of a title: that of the title without the white space around
/// it, tidied.
pub open spec fn slug_name(s: Seq<char>, limit: nat) -> Seq<char> {
    tidy_slug(slug_text(trim(s)), limit)
}

/// The slug of the line that opens a fragment: its leading `%` do not count,
/// and it is at most 20 characters long.
pub open spec fn title_slug(title: Seq<char>) -> Seq<char> {
    slug_name(strip_leading(title, '%'), 20)
}

proof fn lemma_trailing_unique(s: Seq<char>, n: int)
    requires
        0 <= n <= s.len(),
        forall|i: int| s.len() - n <= i < s.len() ==> is_space(#[trigger] s[i]),
        n < s.len() ==> !is_space(s[s.len() - n - 1]),
    ensures
        trailing_len(s) == n,
    decreases s.len(),
{
    if n > 0 {
        let t = s.drop_last();
        assert(is_space(s[s.len() - 1]));
        assert forall|i: int| t.len() - (n - 1) <= i < t.len() implies is_space(
            #[trigger] t[i],
        ) by {
            assert(t[i] == s[i]);
        }
        if n - 1 < t.len() {
            assert(t[t.len() - (n - 1) - 1] == s[s.len() - n - 1]);
        }
        lemma_trailing_unique(t, n - 1);
    } else if s.len() > 0 {
        assert(s.last() == s[s.len() - 1]);
    }
}

pub proof fn lemma_strip_leading(s: Seq<char>, c: char, n: int)
    requires
        0 <= n <= s.len(),
        forall|i: int| 0 <= i < n ==> #[trigger] s[i] == c,
        n < s.len() ==> s[n] != c,
    ensures
        strip_leading(s, c) == s.skip(n),
    decreases s.len(),
{
    if n > 0 {
        let t = s.skip(1);
        assert(s[0] == c);
        assert forall|i: int| 0 <= i < n - 1 implies #[trigger] t[i] == c by {
            assert(t[i] == s[i + 1]);
        }
        if n - 1 < t.len() {
            assert(t[n - 1] == s[n]);
        }
        lemma_strip_leading(t, c, n - 1);
        assert(t.skip(n - 1) =~= s.skip(n));
    } else {
        assert(s.skip(0) =~= s);
    }
}

/// Replaces the dashes of a slug by underscores and cuts it to `limit`
/// characters.
pub fn tidy(slug: &str, limit: usize) -> (r: String)
    ensures
        r@ == tidy_slug(slug@, limit as nat),
        r@.len() <= limit,
        forall|i: int| 0 <= i < r@.len() ==> is_name_char(#[trigger] r@[i]) || r@[i] == '_',
{
    let v = chars_of(slug);
    let n: usize = if v.len() <= limit { v.len() } else { limit };
    let mut r = String::new();
    let mut i: usize = 0;
    while i < n
        invariant
            i <= n <= v.len(),
            v@ == slug@,
            r@ == tidy_slug(slug@, i as nat),
        decreases n - i,
    {
        let c = v[i];
        let c = if ('a' <= c && c <= 'z') || ('0' <= c && c <= '9') { c } else { '_' };
        r.push(c);
        i = i + 1;
        assert(r@ =~= tidy_slug(slug@, i as nat));
    }
    assert(tidy_slug(slug@, n as nat) =~= tidy_slug(slug@, limit as nat));
    r
}

/// The text without the white space around it.
pub fn trimmed(s: &str) -> (r: String)
    ensures
        r@ == trim(s@),
{
    let v = chars_of(s);
    let from = count_indent(&v);
    let mut to: usize = v.len();
    while to > from && char_is_space(v[to - 1])
        invariant
            from <= to <= v.len(),
            forall|i: int| to <= i < v.len() ==> is_space(#[trigger] v@[i]),
        decreases to,
    {
        to = to - 1;
    }
    proof {
        let t = v@.skip(from as int);
        crate::text::lemma_indent_len(v@);
        assert forall|i: int| t.len() - (v.len() - to) <= i < t.len() implies is_space(
            #[trigger] t[i],
        ) by {
            assert(t[i] == v@[from + i]);
        }
        if to > from {
            assert(t[to - from - 1] == v@[to - 1]);
        }
        lemma_trailing_unique(t, (v.len() - to) as int);
        assert(t.take(t.len() - trailing_len(t)) =~= v@.subrange(from as int, to as int));
    }
    string_of(&v, from, to)
}

/// The slug of `s`, at most `limit` characters long: lower-case letters,
/// digits and underscores. It is the beginning of what `slug::slugify`
/// makes of the text without the white space around it, with `_` for `-`.
/// It does not begin with `_`, and no two `_` follow each other.
pub fn slugify(s: &str, limit: usize) -> (r: String)
    ensures
        r@ == slug_name(s@, limit as nat),
        r@.len() <= limit,
        r@.len() > 0 ==> r@[0] != '_',
        forall|i: int| 0 <= i < r@.len() - 1 ==> !(#[trigger] r@[i] == '_' && r@[i + 1] == '_'),
        r@.len() == slug_text(trim(s@)).len() && r@.len() > 0 ==> r@[r@.len() - 1] != '_',
        r@.len() == limit || r@.len() == slug_text(trim(s@)).len(),
        forall|i: int| 0 <= i < r@.len() ==> is_name_char(#[trigger] r@[i]) || r@[i] == '_',
        forall|i: int|
            0 <= i < r@.len() ==> #[trigger] r@[i] == if slug_text(trim(s@))[i] == '-' {
                '_'
            } else {
                slug_text(trim(s@))[i]
            },
{
    let t = trimmed(s);
    let slug = slug_of(t.as_str());
    tidy(slug.as_str(), limit)
}

} // verus!
