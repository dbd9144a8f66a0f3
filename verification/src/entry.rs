//! The tree of entries and its mathematical model.

use vstd::prelude::*;

verus! {

/// What an entry is, with the data that only that kind carries.
#[derive(Debug, PartialEq, Eq)]
pub enum EntryData {
    /// A regular file.
    File,
    /// A symbolic link, with its target as the link holds it, unresolved.
    Symlink(std::path::PathBuf),
    /// A directory, with its children in the order they were listed.
    Directory(Vec<Entry>),
    /// Anything else: a device, a socket, a pipe.
    Unknown,
}

/// One node of the tree.
#[derive(Debug, PartialEq, Eq)]
pub struct Entry {
    /// The raw bytes of the final path component.
    pub name: Vec<u8>,
    /// The size in bytes: a file's length, a directory's total, otherwise zero.
    pub size: u64,
    /// The kind of the entry and what belongs to it.
    pub data: EntryData,
}

/// The model of an [`EntryData`].
pub enum DataModel {
    File,
    Symlink(std::path::PathBuf),
    Directory(Seq<EntryModel>),
    Unknown,
}

/// The model of an [`Entry`]: the same tree over sequences and naturals.
pub struct EntryModel {
    pub name: Seq<u8>,
    pub size: nat,
    pub data: DataModel,
}

/// A finished tree: the root entry and the path it was built from.
#[derive(Debug, PartialEq, Eq)]
pub struct FileTree {
    /// The path that was handed in; kept for reference.
    pub root_path: std::path::PathBuf,
    /// The entry of the root directory.
    pub root_entry: Entry,
}

/// The model of a [`FileTree`].
pub struct FileTreeModel {
    pub root_path: std::path::PathBuf,
    pub root_entry: EntryModel,
}

impl View for FileTree {
    type V = FileTreeModel;

    open spec fn view(&self) -> FileTreeModel {
        FileTreeModel { root_path: self.root_path, root_entry: self.root_entry@ }
    }
}

/// The sum of the sizes of `entries`.
pub open spec fn total_size(entries: Seq<EntryModel>) -> nat
    decreases entries.len(),
{
    if entries.len() == 0 {
        0
    } else {
        total_size(entries.drop_last()) + entries.last().size
    }
}

/// Appending an entry adds its size to the total.
pub proof fn lemma_total_size_push(entries: Seq<EntryModel>, entry: EntryModel)
    ensures
        total_size(entries.push(entry)) == total_size(entries) + entry.size,
{
    assert(entries.push(entry).drop_last() =~= entries);
}

impl EntryModel {
    /// Sizes are aggregated at every level: a directory's size is the sum of
    /// its children's sizes, and a symlink or an unknown entry has size 0.
    pub open spec fn aggregated(self) -> bool
        decreases self,
    {
        match self.data {
            DataModel::File => true,
            DataModel::Symlink(_) => self.size == 0,
            DataModel::Directory(children) => {
                &&& self.size == total_size(children)
                &&& forall|i: int| 0 <= i < children.len() ==> (#[trigger] children[i]).aggregated()
            },
            DataModel::Unknown => self.size == 0,
        }
    }
}

/// The model of one entry.
pub open spec fn entry_model(entry: Entry) -> EntryModel
    decreases entry,
{
    EntryModel {
        name: entry.name@,
        size: entry.size as nat,
        data: match entry.data {
            EntryData::File => DataModel::File,
            EntryData::Symlink(target) => DataModel::Symlink(target),
            EntryData::Directory(children) => DataModel::Directory(entry_models(children@)),
            EntryData::Unknown => DataModel::Unknown,
        },
    }
}

/// The models of `entries`, in order.
pub open spec fn entry_models(entries: Seq<Entry>) -> Seq<EntryModel>
    decreases entries,
{
    if entries.len() == 0 {
        Seq::empty()
    } else {
        entry_models(entries.drop_last()).push(entry_model(entries.last()))
    }
}

impl View for Entry {
    type V = EntryModel;

    open spec fn view(&self) -> EntryModel {
        entry_model(*self)
    }
}

/// `entry_models` keeps length and order: item `i` is the model of entry `i`.
pub proof fn lemma_entry_models(entries: Seq<Entry>)
    ensures
        entry_models(entries).len() == entries.len(),
        forall|i: int| 0 <= i < entries.len() ==> entry_models(entries)[i] == entries[i]@,
    decreases entries.len(),
{
    if entries.len() > 0 {
        lemma_entry_models(entries.drop_last());
    }
}

impl Entry {
    /// The view of a directory holds the views of its children, in order.
    pub proof fn lemma_directory_view(self)
        requires
            self.data is Directory,
        ensures
            self@.data is Directory,
            self@.data->Directory_0.len() == self.data->Directory_0@.len(),
            forall|i: int|
                0 <= i < self.data->Directory_0@.len() ==> self@.data->Directory_0[i]
                    == self.data->Directory_0@[i]@,
    {
        let children = self.data->Directory_0;
        lemma_entry_models(children@);
    }
}

} // verus!
