//! Text files held in memory, each under its name.

use vstd::prelude::*;
use crate::actor::Actor;
use crate::error::{Error, Fault};
use crate::text::same_text;

verus! {

/// The views of a list of strings.
pub open spec fn views(v: Seq<String>) -> Seq<Seq<char>> {
    Seq::new(v.len(), |i: int| v[i]@)
}

/// A text sink: the lines written so far, and the beginning of the next one.
pub struct Sink {
    pub lines: Vec<String>,
    pub partial: String,
}

/// A [`Sink`] as plain values.
pub ghost struct SinkView {
    pub lines: Seq<Seq<char>>,
    pub partial: Seq<char>,
}

impl View for Sink {
    type V = SinkView;

    open spec fn view(&self) -> SinkView {
        SinkView { lines: views(self.lines@), partial: self.partial@ }
    }
}

pub open spec fn empty_sink() -> SinkView {
    SinkView { lines: Seq::empty(), partial: Seq::empty() }
}

/// A sink that holds exactly `lines`.
pub open spec fn sink_of(lines: Seq<Seq<char>>) -> SinkView {
    SinkView { lines, partial: Seq::empty() }
}

impl SinkView {
    /// The sink after `text` was written without ending the line.
    pub open spec fn write(self, text: Seq<char>) -> SinkView {
        SinkView { lines: self.lines, partial: self.partial + text }
    }

    /// The sink after `text` was written and the line ended.
    pub open spec fn writeln(self, text: Seq<char>) -> SinkView {
        SinkView { lines: self.lines.push(self.partial + text), partial: Seq::empty() }
    }

    /// The lines that a reader finds: an unfinished last line counts if it
    /// holds anything.
    pub open spec fn read(self) -> Seq<Seq<char>> {
        if self.partial.len() > 0 {
            self.lines.push(self.partial)
        } else {
            self.lines
        }
    }
}

/// Copies a list of strings.
pub fn copy_lines(v: &Vec<String>) -> (w: Vec<String>)
    ensures
        views(w@) == views(v@),
{
    let mut w: Vec<String> = Vec::new();
    let mut i: usize = 0;
    while i < v.len()
        invariant
            i <= v.len(),
            w@.len() == i,
            forall|j: int| 0 <= j < i ==> w@[j]@ == v@[j]@,
        decreases v.len() - i,
    {
        w.push(v[i].clone());
        i = i + 1;
    }
    assert(views(w@) =~= views(v@));
    w
}

impl Sink {
    /// A sink with nothing written.
    pub fn new() -> (s: Sink)
        ensures
            s@ == empty_sink(),
    {
        let s = Sink { lines: Vec::new(), partial: String::new() };
        assert(s@.lines =~= Seq::empty());
        s
    }

    /// A sink that holds `lines`.
    pub fn from_lines(lines: Vec<String>) -> (s: Sink)
        ensures
            s@ == sink_of(views(lines@)),
    {
        Sink { lines, partial: String::new() }
    }

    /// Writes `text` and leaves the line open.
    pub fn write(&mut self, text: &str)
        ensures
            final(self)@ == old(self)@.write(text@),
    {
        self.partial.append(text);
    }

    /// Writes `text` and ends the line.
    pub fn writeln(&mut self, text: &str)
        ensures
            final(self)@ == old(self)@.writeln(text@),
    {
        let mut line = String::new();
        std::mem::swap(&mut line, &mut self.partial);
        line.append(text);
        self.lines.push(line);
        assert(self@.lines =~= old(self)@.lines.push(old(self)@.partial + text@));
    }

    /// The lines that a reader finds.
    pub fn read(&self) -> (v: Vec<String>)
        ensures
            views(v@) == self@.read(),
    {
        let mut v = copy_lines(&self.lines);
        if !self.partial.as_str().is_empty() {
            v.push(self.partial.clone());
            assert(views(v@) =~= self@.lines.push(self@.partial));
        }
        v
    }
}

/// A file of the store.
pub struct TextFile {
    pub name: String,
    pub sink: Sink,
}

/// What a store holds: the text of each file, by name.
pub type Files = Map<Seq<char>, SinkView>;

/// The files at hand. No two have the same name.
pub struct Store {
    pub(crate) files: Vec<TextFile>,
}

impl View for Store {
    type V = Files;

    closed spec fn view(&self) -> Files {
        Map::new(
            |n: Seq<char>| self.slot_of(n) >= 0,
            |n: Seq<char>| self.files@[self.slot_of(n)].sink@,
        )
    }
}

impl Store {
    /// The number of files.
    pub closed spec fn count(&self) -> nat {
        self.files@.len()
    }

    /// The name of the file in slot `h`.
    pub closed spec fn name_at(&self, h: int) -> Seq<char> {
        self.files@[h].name@
    }

    /// The slot of the file called `n`, or -1.
    pub closed spec fn slot_of(&self, n: Seq<char>) -> int {
        if exists|i: int| 0 <= i < self.files@.len() && self.files@[i].name@ == n {
            choose|i: int| 0 <= i < self.files@.len() && self.files@[i].name@ == n
        } else {
            -1
        }
    }

    /// No two files have the same name.
    pub closed spec fn wf(&self) -> bool {
        forall|i: int, j: int|
            0 <= i < j < self.files@.len() ==> self.files@[i].name@ != self.files@[j].name@
    }

    /// Each slot holds the file that the view has under the slot's name.
    pub proof fn lemma_slots(&self)
        requires
            self.wf(),
        ensures
            self@.dom().finite(),
            self@.dom().len() == self.count(),
            forall|h: int|
                0 <= h < self.count() ==> #[trigger] self@.contains_key(self.name_at(h))
                    && self.slot_of(self.name_at(h)) == h,
            forall|n: Seq<char>|
                self@.contains_key(n) <==> 0 <= #[trigger] self.slot_of(n) < self.count(),
            forall|n: Seq<char>| self@.contains_key(n) ==> self.name_at(self.slot_of(n)) == n,
    {
        Self::lemma_dom(self.files@);
        assert(self@.dom() =~= Self::name_set(self.files@));
    }

    spec fn name_set(files: Seq<TextFile>) -> Set<Seq<char>> {
        Set::new(|n: Seq<char>| exists|i: int| 0 <= i < files.len() && files[i].name@ == n)
    }

    proof fn lemma_dom(files: Seq<TextFile>)
        requires
            forall|i: int, j: int| 0 <= i < j < files.len() ==> files[i].name@ != files[j].name@,
        ensures
            Self::name_set(files).finite(),
            Self::name_set(files).len() == files.len(),
        decreases files.len(),
    {
        if files.len() == 0 {
            assert(Self::name_set(files) =~= Set::empty());
        } else {
            let rest = files.drop_last();
            Self::lemma_dom(rest);
            let last = files.last().name@;
            assert(Self::name_set(files) =~= Self::name_set(rest).insert(last)) by {
                assert forall|n: Seq<char>| Self::name_set(files).contains(n) implies Self::name_set(
                    rest,
                ).insert(last).contains(n) by {
                    let i = choose|i: int| 0 <= i < files.len() && files[i].name@ == n;
                    if i < files.len() - 1 {
                        assert(rest[i].name@ == n);
                    }
                }
                assert forall|n: Seq<char>| Self::name_set(rest).insert(last).contains(
                    n,
                ) implies Self::name_set(files).contains(n) by {
                    if n == last {
                        assert(files[files.len() - 1].name@ == n);
                    } else {
                        let i = choose|i: int| 0 <= i < rest.len() && rest[i].name@ == n;
                        assert(files[i].name@ == n);
                    }
                }
            }
            assert(!Self::name_set(rest).contains(last)) by {
                if Self::name_set(rest).contains(last) {
                    let i = choose|i: int| 0 <= i < rest.len() && rest[i].name@ == last;
                    assert(files[i].name@ == files[files.len() - 1].name@);
                }
            }
        }
    }

    /// A store without files.
    pub fn new() -> (s: Store)
        ensures
            s.wf(),
            s@ == Map::<Seq<char>, SinkView>::empty(),
            s.count() == 0,
    {
        let s = Store { files: Vec::new() };
        assert(s@ =~= Map::<Seq<char>, SinkView>::empty());
        s
    }

    /// How many files there are.
    pub fn len(&self) -> (n: usize)
        requires
            self.wf(),
        ensures
            n == self.count(),
            n == self@.dom().len(),
    {
        proof {
            self.lemma_slots();
        }
        self.files.len()
    }

    /// The slot of the file called `name`.
    pub fn find(&self, name: &str) -> (r: Option<usize>)
        requires
            self.wf(),
        ensures
            r is Some <==> self@.contains_key(name@),
            r matches Some(h) ==> h < self.count() && self.name_at(h as int) == name@,
    {
        let mut i: usize = 0;
        while i < self.files.len()
            invariant
                self.wf(),
                i <= self.files@.len(),
                forall|j: int| 0 <= j < i ==> self.files@[j].name@ != name@,
            decreases self.files.len() - i,
        {
            if same_text(self.files[i].name.as_str(), name) {
                proof {
                    self.lemma_slots();
                    assert(self@.contains_key(self.name_at(i as int)));
                }
                return Some(i);
            }
            i = i + 1;
        }
        None
    }
}

impl Store {
    /// Replacing the text of one file changes the view at its name only.
    pub(crate) proof fn lemma_replace(before: Store, after: Store, h: int)
        requires
            before.wf(),
            0 <= h < before.files@.len(),
            after.files@.len() == before.files@.len(),
            forall|k: int| 0 <= k < before.files@.len() ==> after.files@[k].name == before.files@[k].name,
            forall|k: int|
                0 <= k < before.files@.len() && k != h ==> after.files@[k] == before.files@[k],
        ensures
            after.wf(),
            after.count() == before.count(),
            forall|k: int| 0 <= k < before.count() ==> after.name_at(k) == before.name_at(k),
            after@ == before@.insert(before.name_at(h), after.files@[h].sink@),
    {
        before.lemma_slots();
        assert(after.wf());
        after.lemma_slots();
        let n0 = before.name_at(h);
        assert forall|n: Seq<char>| before.slot_of(n) == after.slot_of(n) by {
            if before.slot_of(n) >= 0 {
                let i = before.slot_of(n);
                assert(after.files@[i].name@ == n);
                assert(after@.contains_key(after.name_at(i)));
            } else if after.slot_of(n) >= 0 {
                let i = after.slot_of(n);
                assert(before.files@[i].name@ == n);
                assert(before@.contains_key(before.name_at(i)));
            }
        }
        assert(before@.contains_key(before.name_at(h)));
        assert(after@ =~= before@.insert(n0, after.files@[h].sink@));
    }

    /// The file in slot `h`, to read from.
    pub fn sink(&self, h: usize) -> (r: &Sink)
        requires
            self.wf(),
            h < self.count(),
        ensures
            r@ == self@[self.name_at(h as int)],
    {
        proof {
            self.lemma_slots();
            assert(self@.contains_key(self.name_at(h as int)));
        }
        &self.files[h].sink
    }

    /// Makes the file called `name` anew and returns its slot. A file of that
    /// name is emptied if `overwrite` is set, and stands in the way if not.
    pub fn create(&mut self, name: &str, overwrite: bool) -> (r: Result<usize, Fault>)
        requires
            old(self).wf(),
        ensures
            final(self).wf(),
            forall|k: int|
                0 <= k < old(self).count() ==> final(self).name_at(k) == old(self).name_at(k),
            final(self).count() >= old(self).count(),
            r is Err <==> old(self)@.contains_key(name@) && !overwrite,
            r matches Err(f) ==> f == Fault::Exists && final(self)@ == old(self)@,
            r matches Ok(h) ==> h < final(self).count() && final(self).name_at(h as int) == name@
                && final(self)@ == old(self)@.insert(name@, empty_sink()),
    {
        match self.find(name) {
            Some(h) => {
                if overwrite {
                    self.files[h].sink = Sink::new();
                    proof {
                        Self::lemma_replace(*old(self), *self, h as int);
                    }
                    Ok(h)
                } else {
                    Err(Fault::Exists)
                }
            },
            None => {
                let h = self.files.len();
                self.files.push(TextFile { name: name.to_string(), sink: Sink::new() });
                proof {
                    Self::lemma_push(*old(self), *self);
                }
                Ok(h)
            },
        }
    }

    /// Adding a file under a new name adds it to the view.
    proof fn lemma_push(before: Store, after: Store)
        requires
            before.wf(),
            after.files@.len() == before.files@.len() + 1,
            forall|k: int| 0 <= k < before.files@.len() ==> after.files@[k] == before.files@[k],
            !before@.contains_key(after.files@.last().name@),
        ensures
            after.wf(),
            after@ == before@.insert(after.files@.last().name@, after.files@.last().sink@),
    {
        before.lemma_slots();
        let n0 = after.files@.last().name@;
        assert forall|i: int, j: int| 0 <= i < j < after.files@.len() implies after.files@[i].name@
            != after.files@[j].name@ by {
            if j == before.files@.len() {
                assert(before@.contains_key(before.name_at(i)));
            }
        }
        after.lemma_slots();
        assert(after@.contains_key(after.name_at(after.files@.len() - 1)));
        assert forall|n: Seq<char>| n != n0 implies before.slot_of(n) == after.slot_of(n) by {
            if before.slot_of(n) >= 0 {
                let i = before.slot_of(n);
                assert(after.files@[i].name@ == n);
                assert(after@.contains_key(after.name_at(i)));
            } else if after.slot_of(n) >= 0 {
                let i = after.slot_of(n);
                assert(before.files@[i].name@ == n);
                assert(before@.contains_key(before.name_at(i)));
            }
        }
        assert(after@ =~= before@.insert(n0, after.files@.last().sink@));
    }
}

impl Store {
    /// Takes the file called `name` away.
    pub fn remove(&mut self, name: &str) -> (r: Result<(), Fault>)
        requires
            old(self).wf(),
        ensures
            final(self).wf(),
            r is Ok <==> old(self)@.contains_key(name@),
            r matches Err(f) ==> f == Fault::Missing,
            final(self)@ == old(self)@.remove(name@),
    {
        match self.find(name) {
            Some(h) => {
                let _ = self.files.remove(h);
                proof {
                    Self::lemma_remove(*old(self), *self, h as int);
                }
                Ok(())
            },
            None => {
                assert(self@ =~= self@.remove(name@));
                Err(Fault::Missing)
            },
        }
    }

    /// Taking a file out of its slot takes its name out of the view.
    proof fn lemma_remove(before: Store, after: Store, h: int)
        requires
            before.wf(),
            0 <= h < before.files@.len(),
            after.files@ == before.files@.remove(h),
        ensures
            after.wf(),
            after@ == before@.remove(before.name_at(h)),
    {
        before.lemma_slots();
        let n0 = before.name_at(h);
        assert forall|i: int, j: int| 0 <= i < j < after.files@.len() implies after.files@[i].name@
            != after.files@[j].name@ by {
            let i0 = if i < h { i } else { i + 1 };
            let j0 = if j < h { j } else { j + 1 };
            assert(after.files@[i] == before.files@[i0]);
            assert(after.files@[j] == before.files@[j0]);
        }
        after.lemma_slots();
        assert forall|n: Seq<char>| after@.contains_key(n) <==> (n != n0 && before@.contains_key(
            n,
        )) by {
            if after@.contains_key(n) {
                let i = after.slot_of(n);
                let i0 = if i < h { i } else { i + 1 };
                assert(after.files@[i] == before.files@[i0]);
                assert(before@.contains_key(before.name_at(i0)));
            }
            if n != n0 && before@.contains_key(n) {
                let i0 = before.slot_of(n);
                let i = if i0 < h { i0 } else { i0 - 1 };
                assert(after.files@[i] == before.files@[i0]);
                assert(after@.contains_key(after.name_at(i)));
            }
        }
        assert forall|n: Seq<char>| after@.contains_key(n) implies after@[n] == before@[n] by {
            let i = after.slot_of(n);
            let i0 = if i < h { i } else { i + 1 };
            assert(after.files@[i] == before.files@[i0]);
            assert(before@.contains_key(before.name_at(i0)));
        }
        assert(after@ =~= before@.remove(n0));
    }

    /// Puts a file of the given lines under `name`, in place of any other.
    pub fn put(&mut self, name: &str, lines: Vec<String>)
        requires
            old(self).wf(),
        ensures
            final(self).wf(),
            final(self)@ == old(self)@.insert(name@, sink_of(views(lines@))),
    {
        let ghost text = views(lines@);
        match self.find(name) {
            Some(h) => {
                self.files[h].sink = Sink::from_lines(lines);
                proof {
                    Self::lemma_replace(*old(self), *self, h as int);
                }
            },
            None => {
                self.files.push(TextFile { name: name.to_string(), sink: Sink::from_lines(lines) });
                proof {
                    Self::lemma_push(*old(self), *self);
                }
            },
        }
    }

    /// Whether there is a file called `name`.
    pub fn contains(&self, name: &str) -> (b: bool)
        requires
            self.wf(),
        ensures
            b == self@.contains_key(name@),
    {
        self.find(name).is_some()
    }

    /// The lines of the file called `name`, as a reader finds them.
    pub fn read(&self, name: &str) -> (r: Result<Vec<String>, Fault>)
        requires
            self.wf(),
        ensures
            r is Ok <==> self@.contains_key(name@),
            r matches Ok(v) ==> views(v@) == self@[name@].read(),
            r matches Err(f) ==> f == Fault::Missing,
    {
        match self.find(name) {
            Some(h) => Ok(self.sink(h).read()),
            None => Err(Fault::Missing),
        }
    }

    /// The names of all files.
    pub fn names(&self) -> (v: Vec<String>)
        requires
            self.wf(),
        ensures
            v@.len() == self.count(),
            forall|i: int| 0 <= i < v@.len() ==> #[trigger] v@[i]@ == self.name_at(i),
            forall|n: Seq<char>| self@.contains_key(n) <==> views(v@).contains(n),
    {
        let mut v: Vec<String> = Vec::new();
        let mut i: usize = 0;
        while i < self.files.len()
            invariant
                i <= self.files@.len(),
                v@.len() == i,
                forall|j: int| 0 <= j < i ==> #[trigger] v@[j]@ == self.files@[j].name@,
            decreases self.files.len() - i,
        {
            v.push(self.files[i].name.clone());
            i = i + 1;
        }
        proof {
            self.lemma_slots();
            assert forall|n: Seq<char>| self@.contains_key(n) <==> views(v@).contains(n) by {
                if self@.contains_key(n) {
                    let h = self.slot_of(n);
                    assert(views(v@)[h] == n);
                }
                if views(v@).contains(n) {
                    let h = choose|h: int| 0 <= h < views(v@).len() && views(v@)[h] == n;
                    assert(self@.contains_key(self.name_at(h)));
                }
            }
        }
        v
    }
}

impl Store {
    /// Has the actor write `text` to the file in slot `h`, and end the line
    /// if `end_line` is set.
    pub fn write_at(&mut self, actor: &Actor, h: usize, text: &str, end_line: bool) -> (r: Result<
        (),
        Error,
    >)
        requires
            old(self).wf(),
            h < old(self).count(),
        ensures
            r is Ok,
            final(self).wf(),
            final(self).count() == old(self).count(),
            forall|k: int|
                0 <= k < old(self).count() ==> final(self).name_at(k) == old(self).name_at(k),
            old(self)@.contains_key(old(self).name_at(h as int)),
            final(self)@ == old(self)@.insert(
                old(self).name_at(h as int),
                if end_line {
                    old(self)@[old(self).name_at(h as int)].writeln(text@)
                } else {
                    old(self)@[old(self).name_at(h as int)].write(text@)
                },
            ),
    {
        proof {
            self.lemma_slots();
            assert(self@.contains_key(self.name_at(h as int)));
        }
        let name = self.files[h].name.clone();
        let r = if end_line {
            actor.writeln(&mut self.files[h].sink, text, name.as_str())
        } else {
            actor.write(&mut self.files[h].sink, text, name.as_str())
        };
        proof {
            Self::lemma_replace(*old(self), *self, h as int);
        }
        r
    }
}

impl Store {
    /// Puts `sink` in place of the text of the file in slot `h`.
    pub fn set_sink(&mut self, h: usize, sink: Sink)
        requires
            old(self).wf(),
            h < old(self).count(),
        ensures
            final(self).wf(),
            final(self).count() == old(self).count(),
            forall|k: int|
                0 <= k < old(self).count() ==> final(self).name_at(k) == old(self).name_at(k),
            final(self)@ == old(self)@.insert(old(self).name_at(h as int), sink@),
    {
        self.files[h].sink = sink;
        proof {
            Self::lemma_replace(*old(self), *self, h as int);
        }
    }
}

} // verus!
