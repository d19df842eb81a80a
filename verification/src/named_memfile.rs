//! Files in memory that are found again by name: a file that was written,
//! dropped and opened again under its name still holds what was written.
use vstd::prelude::*;
use vstd::string::*;

use crate::memfile::{Bytes, Disk, MemFile, Namespace};

verus! {

/// A handle to a file of a namespace that every user of the namespace finds
/// under the file's name.
#[derive(Debug, Clone, Copy, PartialEq, Eq, Structural)]
pub struct NamedMemFile {
    pub file: MemFile,
}

/// The namespace after a file was asked for by name: the file is there.
pub open spec fn with_name(d: Disk, name: Seq<char>) -> Disk {
    if d.names.dom().contains(name) {
        d
    } else {
        Disk {
            files: d.files.push(Bytes { data: Seq::empty(), synced: Seq::empty() }),
            names: d.names.insert(name, d.files.len() as usize),
        }
    }
}

/// The namespace without a database's names.
pub open spec fn without_name(d: Disk, name: Seq<char>) -> Disk {
    Disk { names: d.names.remove(name).remove(name + ".undo"@).remove(name + ".redo"@), ..d }
}

impl NamedMemFile {
    /// A handle to the file under a name, at its start. If there is none, a
    /// new, empty file gets the name.
    pub fn open(ns: &mut Namespace, name: &str) -> (f: NamedMemFile)
        requires
            old(ns).wf(),
        ensures
            final(ns).wf(),
            final(ns)@ == with_name(old(ns)@, name@),
            f.file.seek_pos == 0,
            f.file.is_of(final(ns)@),
            f.file.at == final(ns)@.names[name@],
    {
        let anchor = MemFile { at: 0, seek_pos: 0 };
        let file = anchor.open_sibling(ns, name);
        NamedMemFile { file }
    }

    /// Takes a name away, and those of its two companion files. Names that are
    /// not there are no error.
    pub fn delete(ns: &mut Namespace, name: &str)
        requires
            old(ns).wf(),
        ensures
            final(ns).wf(),
            final(ns)@ == without_name(old(ns)@, name@),
    {
        let anchor = MemFile { at: 0, seek_pos: 0 };
        anchor.remove_sibling(ns, name);
        let mut undo = name.to_owned();
        undo.append(".undo");
        anchor.remove_sibling(ns, undo.as_str());
        let mut redo = name.to_owned();
        redo.append(".redo");
        anchor.remove_sibling(ns, redo.as_str());
    }
}

/// A file that is opened again under its name is the same file, whatever was
/// written to it in between.
pub proof fn name_finds_the_file(d: Disk, name: Seq<char>, f: MemFile, b: Bytes)
    requires
        f.is_of(with_name(d, name)),
        f.at == with_name(d, name).names[name],
    ensures
        ({
            let later = f.updated(with_name(d, name), b);
            with_name(later, name) == later && f.of(later) == b && later.names[name] == f.at
        }),
{
}

/// A file that is opened after its name was deleted is empty.
pub proof fn deleted_name_opens_empty(d: Disk, name: Seq<char>)
    requires
        d.files.len() < usize::MAX,
    ensures
        ({
            let after = with_name(without_name(d, name), name);
            after.files[after.names[name] as int] == (Bytes {
                data: Seq::empty(),
                synced: Seq::empty(),
            })
        }),
{
}

} // verus!
