//! The store interface: reading and writing records at paths.

use vstd::prelude::*;

use crate::error::Error;
use crate::path::Path;
use crate::record::Record;
use crate::value::{names_of, Model, Value};

verus! {

/// Read records from paths.
///
/// `Ok(None)` means the path does not exist; `Ok(Some(record))` is the
/// record there.
pub trait Reader {
    /// Whether reading `from` in this state may answer `r`. A store that
    /// says nothing of its reads leaves this `true`.
    open spec fn read_answers(&self, from: Seq<Seq<char>>, r: Result<Option<Record>, Error>) -> bool {
        true
    }

    /// What this store holds, as a value tree, as far as its reads tell; a
    /// read leaves it as it was. A store that says nothing of it leaves
    /// this `None`.
    open spec fn read_state(&self) -> Option<Model> {
        None
    }

    /// Whether this store lists children as its reads show them: the
    /// listing at a path is what `children_from` makes of a read there.
    /// A store whose listing follows other rules turns this off.
    open spec fn lists_as_read(&self) -> bool {
        true
    }

    /// Read the record at `from`.
    fn read(&mut self, from: &Path) -> (r: Result<Option<Record>, Error>)
        ensures
            Self::read_answers(&*old(self), from@, r),
            Self::read_state(&*final(self)) == Self::read_state(&*old(self)),
    ;

    /// The names of the direct children at `from`: the keys of a map, the
    /// indices of an array, none for other values; `None` when nothing is
    /// there. A raw record is read as having no children.
    fn read_children(&mut self, from: &Path) -> (r: Result<Option<Vec<String>>, Error>)
        ensures
            Self::lists_as_read(&*old(self)) ==> exists|g: Result<Option<Record>, Error>|
                Self::read_answers(&*old(self), from@, g) && #[trigger] children_from(g, r),
            Self::read_state(&*final(self)) == Self::read_state(&*old(self)),
    {
        let got = self.read(from);
        let ghost g = got;
        let r = children_answer(got);
        assert(children_from(g, r));
        r
    }
}

/// Whether `r` is what a child listing makes of the read answer `got`:
/// the names of the value's direct children, none for a raw record,
/// nothing for a missing path, and the read's error when it failed.
pub open spec fn children_from(got: Result<Option<Record>, Error>, r: Result<Option<Vec<String>>, Error>) -> bool {
    match got {
        Err(e) => r == Err::<Option<Vec<String>>, Error>(e),
        Ok(None) => r matches Ok(None),
        Ok(Some(Record::Raw { .. })) => r matches Ok(Some(names)) && names@.len() == 0,
        Ok(Some(Record::Parsed(v))) => r matches Ok(Some(names)) && names_of(v.model(), names@),
    }
}


/// What a child listing makes of the read at the same path: the names of
/// the value's direct children, none for a raw record, nothing for a
/// missing path, and the read's error when it failed.
pub fn children_answer(got: Result<Option<Record>, Error>) -> (r: Result<Option<Vec<String>>, Error>)
    ensures
        match got {
            Err(e) => r == Err::<Option<Vec<String>>, Error>(e),
            Ok(None) => r matches Ok(None),
            Ok(Some(Record::Raw { .. })) => r matches Ok(Some(names)) && names@.len() == 0,
            Ok(Some(Record::Parsed(v))) => r matches Ok(Some(names)) && names_of(v.model(), names@),
        },
{
    match got {
        Ok(Some(record)) => match record.as_value() {
            Some(v) => Ok(Some(v.child_names())),
            None => Ok(Some(Vec::new())),
        },
        Ok(None) => Ok(None),
        Err(e) => Err(e),
    }
}

/// Write records to paths.
pub trait Writer {
    /// Whether writing `data` at `to` in this state may answer `r`. A store
    /// that says nothing of its writes leaves this `true`.
    open spec fn write_answers(&self, to: Seq<Seq<char>>, data: Record, r: Result<Path, Error>) -> bool {
        true
    }

    /// What this store holds, as a value tree, as far as its writes tell.
    /// A store that says nothing of it leaves this `None`.
    open spec fn write_state(&self) -> Option<Model> {
        None
    }

    /// Whether writing `data` at `to` in this state, answering `r`, may
    /// leave the store holding `after`. A store that says nothing of it
    /// leaves this `true`.
    open spec fn write_moves(&self, to: Seq<Seq<char>>, data: Record, r: Result<Path, Error>, after: Option<Model>) -> bool {
        true
    }

    /// Write `data` at `to`, returning the result path: the same path for
    /// simple stores, or another one (a generated id, a handle).
    fn write(&mut self, to: &Path, data: Record) -> (r: Result<Path, Error>)
        ensures
            Self::write_answers(&*old(self), to@, data, r),
            Self::write_moves(&*old(self), to@, data, r, Self::write_state(&*final(self))),
    ;
}

/// A store: something that reads and writes.
pub trait Store: Reader + Writer {
}

impl<T: Reader + Writer> Store for T {
}

impl<T: Reader + ?Sized> Reader for Box<T> {
    /// A read answers what the boxed store answers.
    open spec fn read_answers(&self, from: Seq<Seq<char>>, r: Result<Option<Record>, Error>) -> bool {
        T::read_answers(&**self, from, r)
    }

    /// A listing follows reads where the inner store's does.
    open spec fn lists_as_read(&self) -> bool {
        T::lists_as_read(&**self)
    }

    fn read(&mut self, from: &Path) -> Result<Option<Record>, Error> {
        (**self).read(from)
    }

    fn read_children(&mut self, from: &Path) -> Result<Option<Vec<String>>, Error> {
        (**self).read_children(from)
    }
}

impl<T: Writer + ?Sized> Writer for Box<T> {
    /// A write answers what the boxed store answers.
    open spec fn write_answers(&self, to: Seq<Seq<char>>, data: Record, r: Result<Path, Error>) -> bool {
        T::write_answers(&**self, to, data, r)
    }

    fn write(&mut self, to: &Path, data: Record) -> Result<Path, Error> {
        (**self).write(to, data)
    }
}

impl<T: Reader + ?Sized> Reader for &mut T {
    /// A read answers what the borrowed store answers.
    open spec fn read_answers(&self, from: Seq<Seq<char>>, r: Result<Option<Record>, Error>) -> bool {
        T::read_answers(&**self, from, r)
    }

    /// A listing follows reads where the inner store's does.
    open spec fn lists_as_read(&self) -> bool {
        T::lists_as_read(&**self)
    }

    fn read(&mut self, from: &Path) -> Result<Option<Record>, Error> {
        (**self).read(from)
    }

    fn read_children(&mut self, from: &Path) -> Result<Option<Vec<String>>, Error> {
        (**self).read_children(from)
    }
}

impl<T: Writer + ?Sized> Writer for &mut T {
    /// A write answers what the borrowed store answers.
    open spec fn write_answers(&self, to: Seq<Seq<char>>, data: Record, r: Result<Path, Error>) -> bool {
        T::write_answers(&**self, to, data, r)
    }

    fn write(&mut self, to: &Path, data: Record) -> Result<Path, Error> {
        (**self).write(to, data)
    }
}

} // verus!
