//! A filesystem described by a tree of entries: listing a directory gives
//! the names and kinds of its children in their order, reading a link gives
//! its target, measuring a file gives its size.

use vstd::prelude::*;
use crate::entry::{total_size, DataModel, EntryModel};
use crate::listing::ListedModel;
use crate::plan::{FoundModel, RequestModel};

verus! {

/// The children of a directory; of anything else, none.
pub open spec fn children_of(entry: EntryModel) -> Seq<EntryModel> {
    match entry.data {
        DataModel::Directory(children) => children,
        _ => Seq::empty(),
    }
}

/// What a listing reports of `entry`.
pub open spec fn listed(entry: EntryModel) -> ListedModel {
    ListedModel { name: entry.name, kind: entry.kind() }
}

/// The listing of a directory that holds `children`.
pub open spec fn listing_of(children: Seq<EntryModel>) -> Seq<ListedModel> {
    children.map_values(|child: EntryModel| listed(child))
}

/// No two of `children` bear the same name.
pub open spec fn distinct_names(children: Seq<EntryModel>) -> bool {
    forall|i: int, j: int|
        0 <= i < j < children.len() ==> (#[trigger] children[i]).name != (
        #[trigger] children[j]).name
}

impl EntryModel {
    /// In every directory of this tree, no two children bear the same name.
    pub open spec fn well_named(self) -> bool
        decreases self,
    {
        match self.data {
            DataModel::Directory(children) => {
                &&& distinct_names(children)
                &&& forall|i: int| 0 <= i < children.len() ==> (#[trigger] children[i]).well_named()
            },
            _ => true,
        }
    }

    /// This tree can describe a filesystem to a traversal: it is a
    /// directory, names are distinct within each directory, sizes are
    /// aggregated, and the whole fits in 64 bits.
    pub open spec fn describes(self) -> bool {
        &&& self.data is Directory
        &&& self.well_named()
        &&& self.aggregated()
        &&& self.size <= u64::MAX
    }
}

/// The child that bears `name`, if there is one.
pub open spec fn child_named(children: Seq<EntryModel>, name: Seq<u8>) -> Option<EntryModel> {
    if exists|i: int| 0 <= i < children.len() && (#[trigger] children[i]).name == name {
        Some(
            children[choose|i: int| 0 <= i < children.len() && (#[trigger] children[i]).name == name],
        )
    } else {
        None
    }
}

/// The entry at `place` below `tree`: the tree itself for the empty place,
/// else the child, by its name, of the directory one level up.
pub open spec fn entry_at(tree: EntryModel, place: Seq<Seq<u8>>) -> Option<EntryModel>
    decreases place.len(),
{
    if place.len() == 0 {
        Some(tree)
    } else {
        match entry_at(tree, place.drop_last()) {
            Some(parent) => child_named(children_of(parent), place.last()),
            None => None,
        }
    }
}

/// What a read finds in the filesystem that `tree` describes; `None` where
/// the read fails, because nothing is there or it is of another kind.
pub open spec fn answer(tree: EntryModel, request: RequestModel) -> Option<FoundModel> {
    match request {
        RequestModel::List(place) => match entry_at(tree, place) {
            Some(entry) => match entry.data {
                DataModel::Directory(children) => Some(FoundModel::Listing(listing_of(children))),
                _ => None,
            },
            None => None,
        },
        RequestModel::ReadLink(place) => match entry_at(tree, place) {
            Some(entry) => match entry.data {
                DataModel::Symlink(target) => Some(FoundModel::Target(target)),
                _ => None,
            },
            None => None,
        },
        RequestModel::Measure(place) => match entry_at(tree, place) {
            Some(entry) => match entry.data {
                DataModel::File => Some(FoundModel::Length(entry.size)),
                _ => None,
            },
            None => None,
        },
    }
}

/// How many reads a traversal spends on `entry`: one for each directory,
/// link and file in it.
pub open spec fn reads(entry: EntryModel) -> nat
    decreases entry,
{
    match entry.data {
        DataModel::Directory(children) => 1 + reads_all(children),
        DataModel::Unknown => 0,
        _ => 1,
    }
}

/// How many reads a traversal spends on `entries` together.
pub open spec fn reads_all(entries: Seq<EntryModel>) -> nat
    decreases entries,
{
    if entries.len() == 0 {
        0
    } else {
        reads_all(entries.drop_last()) + reads(entries.last())
    }
}

/// A child is found by its name where names are distinct.
pub proof fn lemma_child_named(children: Seq<EntryModel>, i: int)
    requires
        distinct_names(children),
        0 <= i < children.len(),
    ensures
        child_named(children, children[i].name) == Some(children[i]),
{
    let name = children[i].name;
    let j = choose|j: int| 0 <= j < children.len() && (#[trigger] children[j]).name == name;
    if j < i {
        assert(children[j].name != children[i].name);
    } else if i < j {
        assert(children[i].name != children[j].name);
    }
}

/// The sizes before an entry, and its own, are within the total.
pub proof fn lemma_total_size_take(entries: Seq<EntryModel>, i: int)
    requires
        0 <= i < entries.len(),
    ensures
        total_size(entries.take(i)) + entries[i].size <= total_size(entries),
    decreases entries.len(),
{
    if i == entries.len() - 1 {
        assert(entries.take(i) =~= entries.drop_last());
    } else {
        lemma_total_size_take(entries.drop_last(), i);
        assert(entries.drop_last().take(i) =~= entries.take(i));
    }
}

/// A child of a sound directory is sound, and no larger than the directory.
pub proof fn lemma_child_sound(parent: EntryModel, i: int)
    requires
        parent.well_named(),
        parent.aggregated(),
        0 <= i < children_of(parent).len(),
    ensures
        children_of(parent)[i].well_named(),
        children_of(parent)[i].aggregated(),
        children_of(parent)[i].size <= parent.size,
{
    lemma_total_size_take(children_of(parent), i);
}

/// Appending an entry adds its reads.
pub proof fn lemma_reads_all_push(entries: Seq<EntryModel>, entry: EntryModel)
    ensures
        reads_all(entries.push(entry)) == reads_all(entries) + reads(entry),
{
    assert(entries.push(entry).drop_last() =~= entries);
}

/// The reads before an entry, and its own, are within those of all.
pub proof fn lemma_reads_all_take(entries: Seq<EntryModel>, i: int)
    requires
        0 <= i < entries.len(),
    ensures
        reads_all(entries.take(i)) + reads(entries[i]) <= reads_all(entries),
    decreases entries.len(),
{
    if i == entries.len() - 1 {
        assert(entries.take(i) =~= entries.drop_last());
    } else {
        lemma_reads_all_take(entries.drop_last(), i);
        assert(entries.drop_last().take(i) =~= entries.take(i));
    }
}

} // verus!
