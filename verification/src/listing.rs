//! What a directory listing reports of each item, and how an item is classified.

use vstd::prelude::*;
use crate::entry::{DataModel, EntryModel};

verus! {

/// The four kinds an entry can have.
#[derive(Debug, Clone, Copy, PartialEq, Eq, Structural)]
pub enum Kind {
    Directory,
    Symlink,
    File,
    Unknown,
}

/// The kind of an item whose own type, looked at without following links,
/// answers the three questions as given: a directory first, then a symlink,
/// then a regular file, otherwise unknown.
pub open spec fn kind_of(is_dir: bool, is_symlink: bool, is_file: bool) -> Kind {
    if is_dir {
        Kind::Directory
    } else if is_symlink {
        Kind::Symlink
    } else if is_file {
        Kind::File
    } else {
        Kind::Unknown
    }
}

impl EntryModel {
    /// The kind of this entry.
    pub open spec fn kind(self) -> Kind {
        match self.data {
            DataModel::File => Kind::File,
            DataModel::Symlink(_) => Kind::Symlink,
            DataModel::Directory(_) => Kind::Directory,
            DataModel::Unknown => Kind::Unknown,
        }
    }
}

/// Classifies an item from the three answers of its file type.
pub fn classify(is_dir: bool, is_symlink: bool, is_file: bool) -> (kind: Kind)
    ensures
        kind == kind_of(is_dir, is_symlink, is_file),
{
    if is_dir {
        Kind::Directory
    } else if is_symlink {
        Kind::Symlink
    } else if is_file {
        Kind::File
    } else {
        Kind::Unknown
    }
}

/// One item of a directory listing, as the filesystem reported it.
#[derive(Debug, PartialEq, Eq)]
pub struct Listed {
    /// The raw bytes of the item's name.
    pub name: Vec<u8>,
    /// Whether the item itself is a directory.
    pub is_dir: bool,
    /// Whether the item itself is a symbolic link.
    pub is_symlink: bool,
    /// Whether the item itself is a regular file.
    pub is_file: bool,
}

/// The model of a [`Listed`]: its name and the kind it classifies as.
pub struct ListedModel {
    pub name: Seq<u8>,
    pub kind: Kind,
}

impl View for Listed {
    type V = ListedModel;

    open spec fn view(&self) -> ListedModel {
        ListedModel { name: self.name@, kind: kind_of(self.is_dir, self.is_symlink, self.is_file) }
    }
}

impl Listed {
    /// The kind this item classifies as.
    pub fn kind(&self) -> (kind: Kind)
        ensures
            kind == self@.kind,
    {
        classify(self.is_dir, self.is_symlink, self.is_file)
    }
}

} // verus!
