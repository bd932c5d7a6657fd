//! The actor performs each operation on a file and names, on failure, what it
//! tried and on which file.

use vstd::prelude::*;
use crate::error::{io_failed, Error, Fault};
use crate::store::{empty_sink, views, Sink, Store};

verus! {

pub struct Actor;

impl Actor {
    pub fn new() -> Actor {
        Actor
    }

    /// Hands on what an operation gave, or says that `descr` failed on
    /// `target`.
    pub fn perform<R, E>(&self, outcome: Result<R, E>, descr: &'static str, target: &str) -> (r:
        Result<R, Error>)
        ensures
            outcome matches Ok(v) ==> r == Ok::<R, Error>(v),
            outcome is Err ==> (r matches Err(e) && e@ == io_failed(descr@, target@)),
    {
        match outcome {
            Ok(v) => Ok(v),
            Err(_) => Err(Error::IoFailed { action: descr, target: target.to_string() }),
        }
    }

    /// Reads the lines of the file called `name`.
    pub fn open(&self, store: &Store, name: &str) -> (r: Result<Vec<String>, Error>)
        requires
            store.wf(),
        ensures
            r is Ok <==> store@.contains_key(name@),
            r matches Ok(v) ==> views(v@) == store@[name@].read(),
            r matches Err(e) ==> e@ == io_failed("open"@, name@),
    {
        self.perform(store.read(name), "open", name)
    }

    /// Makes the file called `name` anew, emptying any file of that name.
    pub fn create(&self, store: &mut Store, name: &str) -> (r: Result<usize, Error>)
        requires
            old(store).wf(),
        ensures
            final(store).wf(),
            forall|k: int|
                0 <= k < old(store).count() ==> final(store).name_at(k) == old(store).name_at(k),
            final(store).count() >= old(store).count(),
            final(store)@ == old(store)@.insert(name@, empty_sink()),
            r matches Ok(h) && h < final(store).count() && final(store).name_at(h as int) == name@,
    {
        self.open_options(store, true, name)
    }

    /// Makes the file called `name` anew. Where there is such a file, it is
    /// emptied if `overwrite` is set, and the call fails if not.
    pub fn open_options(&self, store: &mut Store, overwrite: bool, name: &str) -> (r: Result<
        usize,
        Error,
    >)
        requires
            old(store).wf(),
        ensures
            final(store).wf(),
            forall|k: int|
                0 <= k < old(store).count() ==> final(store).name_at(k) == old(store).name_at(k),
            final(store).count() >= old(store).count(),
            r is Err <==> old(store)@.contains_key(name@) && !overwrite,
            r matches Err(e) ==> e@ == io_failed("open"@, name@) && final(store)@ == old(store)@,
            r matches Ok(h) ==> h < final(store).count() && final(store).name_at(h as int) == name@
                && final(store)@ == old(store)@.insert(name@, empty_sink()),
    {
        let made = store.create(name, overwrite);
        self.perform(made, "open", name)
    }

    /// Takes the file called `name` away.
    pub fn delete(&self, store: &mut Store, name: &str) -> (r: Result<(), Error>)
        requires
            old(store).wf(),
        ensures
            final(store).wf(),
            r is Ok <==> old(store)@.contains_key(name@),
            r matches Err(e) ==> e@ == io_failed("delete"@, name@),
            final(store)@ == old(store)@.remove(name@),
    {
        let gone = store.remove(name);
        self.perform(gone, "delete", name)
    }

    /// Writes `line` to the sink and leaves the line open. `name` is the
    /// file that a failure would be reported on.
    pub fn write(&self, to: &mut Sink, line: &str, name: &str) -> (r: Result<(), Error>)
        ensures
            r is Ok,
            final(to)@ == old(to)@.write(line@),
    {
        to.write(line);
        self.perform(Ok::<(), Fault>(()), "write line to", name)
    }

    /// Writes `line` to the sink and ends the line. `name` is the file that
    /// a failure would be reported on.
    pub fn writeln(&self, to: &mut Sink, line: &str, name: &str) -> (r: Result<(), Error>)
        ensures
            r is Ok,
            final(to)@ == old(to)@.writeln(line@),
    {
        to.writeln(line);
        self.perform(Ok::<(), Fault>(()), "write line to", name)
    }
}

} // verus!
