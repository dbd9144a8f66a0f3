//! The traversal as a state machine over models: which read it asks for in
//! each state, and where each answer leads.

use vstd::prelude::*;
use crate::entry::{lemma_total_size_push, total_size, DataModel, EntryModel, FileTreeModel};
use crate::listing::{Kind, ListedModel};

verus! {

/// What the traversal asks the filesystem next. Each request names a place by
/// the names that lead to it from the root, outermost first.
pub enum RequestModel {
    /// List the directory at this place.
    List(Seq<Seq<u8>>),
    /// Read the target of the symbolic link at this place.
    ReadLink(Seq<Seq<u8>>),
    /// Read the length of the regular file at this place.
    Measure(Seq<Seq<u8>>),
}

/// What a successful read found.
pub enum FoundModel {
    Listing(Seq<ListedModel>),
    Target(std::path::PathBuf),
    Length(nat),
}

impl FoundModel {
    /// Whether this is the kind of answer that `request` asks for.
    pub open spec fn answers(self, request: RequestModel) -> bool {
        match request {
            RequestModel::List(_) => self is Listing,
            RequestModel::ReadLink(_) => self is Target,
            RequestModel::Measure(_) => self is Length,
        }
    }
}

/// A directory that is being filled.
pub struct FrameModel {
    /// The directory's name.
    pub name: Seq<u8>,
    /// What the directory holds, in the order it was listed.
    pub listing: Seq<ListedModel>,
    /// The entries built so far: one for each leading item of the listing.
    pub children: Seq<EntryModel>,
}

/// The entry for an item that is neither directory, symlink nor file.
pub open spec fn unknown_entry(name: Seq<u8>) -> EntryModel {
    EntryModel { name, size: 0, data: DataModel::Unknown }
}

/// The entry for a symbolic link with the given target.
pub open spec fn symlink_entry(name: Seq<u8>, target: std::path::PathBuf) -> EntryModel {
    EntryModel { name, size: 0, data: DataModel::Symlink(target) }
}

/// The entry for a regular file of the given length.
pub open spec fn file_entry(name: Seq<u8>, length: nat) -> EntryModel {
    EntryModel { name, size: length, data: DataModel::File }
}

/// Whether `entry` stands for the listed `item`: same name, same kind, sizes
/// aggregated.
pub open spec fn mirrors(entry: EntryModel, item: ListedModel) -> bool {
    &&& entry.name == item.name
    &&& entry.kind() == item.kind
    &&& entry.aggregated()
}

impl FrameModel {
    /// Every listed item has its entry.
    pub open spec fn complete(self) -> bool {
        self.children.len() >= self.listing.len()
    }

    /// The first listed item that has no entry yet.
    pub open spec fn pending(self) -> ListedModel
        recommends
            !self.complete(),
    {
        self.listing[self.children.len() as int]
    }

    /// How many listed items have no entry yet.
    pub open spec fn remaining(self) -> nat {
        if self.complete() {
            0
        } else {
            (self.listing.len() - self.children.len()) as nat
        }
    }

    /// This frame with `entry` as its next child.
    pub open spec fn with_child(self, entry: EntryModel) -> FrameModel {
        FrameModel { children: self.children.push(entry), ..self }
    }

    /// The directory entry that this frame becomes: its children in listed
    /// order, its size their total.
    pub open spec fn closed(self) -> EntryModel {
        EntryModel {
            name: self.name,
            size: total_size(self.children),
            data: DataModel::Directory(self.children),
        }
    }

    /// The children stand for the leading items of the listing, one for one
    /// and in the same order.
    pub open spec fn orderly(self) -> bool {
        &&& self.children.len() <= self.listing.len()
        &&& forall|i: int|
            0 <= i < self.children.len() ==> mirrors(#[trigger] self.children[i], self.listing[i])
    }
}

impl FrameModel {
    /// A directory that is closed once every listed item has its entry holds
    /// those entries in listed order: as many children as items, child `i`
    /// bearing the name and the kind of item `i`, and their sizes summed.
    pub proof fn lemma_closed_in_listed_order(self)
        requires
            self.orderly(),
            self.complete(),
        ensures
            self.closed().data == DataModel::Directory(self.children),
            self.closed().size == total_size(self.children),
            self.children.len() == self.listing.len(),
            forall|i: int|
                0 <= i < self.listing.len() ==> {
                    &&& (#[trigger] self.children[i]).name == self.listing[i].name
                    &&& self.children[i].kind() == self.listing[i].kind
                },
    {
    }
}

/// The work that a stack of frames still stands for: one for each frame to
/// close and one for each item without an entry.
pub open spec fn backlog(frames: Seq<FrameModel>) -> nat
    decreases frames.len(),
{
    if frames.len() == 0 {
        0
    } else {
        backlog(frames.drop_last()) + 1 + frames.last().remaining()
    }
}

/// The total of the sizes gathered in a stack of frames.
pub open spec fn gathered(frames: Seq<FrameModel>) -> nat
    decreases frames.len(),
{
    if frames.len() == 0 {
        0
    } else {
        gathered(frames.drop_last()) + total_size(frames.last().children)
    }
}

impl FileTreeModel {
    /// This tree is a fit end of the traversal `walk`: it keeps the path, its
    /// root is a directory under the root's name, and sizes are aggregated at
    /// every level.
    pub open spec fn finishes(self, walk: WalkModel) -> bool {
        &&& self.root_path == walk.root_path
        &&& self.root_entry.name == walk.root_name
        &&& self.root_entry.data is Directory
        &&& self.root_entry.aggregated()
    }
}

/// Where the traversal stands after an answer.
pub enum ProgressModel {
    /// The traversal goes on from this state and needs its next request answered.
    Pending(WalkModel),
    /// The traversal is over and this is the tree.
    Finished(FileTreeModel),
}

/// The state of a traversal: the directories that are open, the root first,
/// each but the last waiting for the directory above it on the stack.
pub struct WalkModel {
    pub root_path: std::path::PathBuf,
    pub root_name: Seq<u8>,
    pub frames: Seq<FrameModel>,
}

impl WalkModel {
    /// The state before anything was read.
    pub open spec fn fresh(root_path: std::path::PathBuf, root_name: Seq<u8>) -> WalkModel {
        WalkModel { root_path, root_name, frames: Seq::empty() }
    }

    /// The name of what the next request is about: the root before its
    /// listing, afterwards the pending item of the innermost open directory.
    pub open spec fn pending_name(self) -> Seq<u8> {
        if self.frames.len() == 0 {
            self.root_name
        } else {
            self.frames.last().pending().name
        }
    }

    /// The place of what the next request is about: empty for the root, else
    /// the names of the open directories below the root, then the pending
    /// item's own name.
    pub open spec fn location(self) -> Seq<Seq<u8>> {
        if self.frames.len() == 0 {
            Seq::empty()
        } else {
            Seq::new((self.frames.len() - 1) as nat, |i: int| self.frames[i + 1].name).push(
                self.pending_name(),
            )
        }
    }

    /// The kind of what the next request is about: the root is taken for a
    /// directory, whatever it is; an item has the kind it was listed with.
    pub open spec fn pending_kind(self) -> Kind {
        if self.frames.len() == 0 {
            Kind::Directory
        } else {
            self.frames.last().pending().kind
        }
    }

    /// The read that this state waits for: a link has its target read, a
    /// file is measured, a directory is listed.
    pub open spec fn request(self) -> RequestModel
        recommends
            self.waiting(),
    {
        match self.pending_kind() {
            Kind::Symlink => RequestModel::ReadLink(self.location()),
            Kind::File => RequestModel::Measure(self.location()),
            _ => RequestModel::List(self.location()),
        }
    }

    /// The innermost open directory has a pending item that needs a read.
    pub open spec fn waiting(self) -> bool {
        self.frames.len() > 0 ==> {
            &&& !self.frames.last().complete()
            &&& !(self.frames.last().pending().kind is Unknown)
        }
    }

    /// What holds of the open directories at every moment: each one's
    /// children stand for the leading items of its listing; the root frame
    /// bears the root's name; every frame but the innermost waits for a
    /// pending directory, which the frame above it is filling; and the sizes
    /// gathered so far fit in 64 bits.
    pub open spec fn coherent(self) -> bool {
        &&& forall|k: int| 0 <= k < self.frames.len() ==> (#[trigger] self.frames[k]).orderly()
        &&& self.frames.len() > 0 ==> self.frames[0].name == self.root_name
        &&& forall|k: int|
            0 <= k < self.frames.len() - 1 ==> {
                &&& !(#[trigger] self.frames[k]).complete()
                &&& self.frames[k].pending().kind is Directory
                &&& self.frames[k + 1].name == self.frames[k].pending().name
            }
        &&& gathered(self.frames) <= u64::MAX
    }

    /// What holds of a traversal between two answers: it is coherent and
    /// waits for a read.
    pub open spec fn inv(self) -> bool {
        &&& self.coherent()
        &&& self.waiting()
    }

    /// Whether `found` can be taken in this state: it is the kind of answer
    /// that the pending request asks for, and a length leaves the sizes
    /// gathered within 64 bits.
    pub open spec fn accepts(self, found: FoundModel) -> bool {
        &&& found.answers(self.request())
        &&& found matches FoundModel::Length(length) ==> gathered(self.frames) + length
            <= u64::MAX
    }

    /// This state with the pending directory opened on `items`.
    pub open spec fn opened(self, items: Seq<ListedModel>) -> WalkModel {
        WalkModel {
            frames: self.frames.push(
                FrameModel { name: self.pending_name(), listing: items, children: Seq::empty() },
            ),
            ..self
        }
    }

    /// This state with `entry` as the next child of the innermost open directory.
    pub open spec fn recorded(self, entry: EntryModel) -> WalkModel
        recommends
            self.frames.len() > 0,
    {
        WalkModel {
            frames: self.frames.drop_last().push(self.frames.last().with_child(entry)),
            ..self
        }
    }

    /// This state without its innermost open directory.
    pub open spec fn popped(self) -> WalkModel
        recommends
            self.frames.len() > 0,
    {
        WalkModel { frames: self.frames.drop_last(), ..self }
    }

    /// Does all the work that needs no read: gives unknown items their entry,
    /// closes each directory whose items all have one and hands it to the
    /// directory below, and stops at the first item that needs a read or when
    /// the root itself is closed.
    pub open spec fn settle(self) -> ProgressModel
        decreases backlog(self.frames),
    {
        if self.frames.len() == 0 {
            ProgressModel::Pending(self)
        } else {
            let top = self.frames.last();
            if top.complete() {
                if self.frames.len() == 1 {
                    ProgressModel::Finished(
                        FileTreeModel { root_path: self.root_path, root_entry: top.closed() },
                    )
                } else {
                    proof {
                        lemma_backlog_closing(self.frames);
                    }
                    self.popped().recorded(top.closed()).settle()
                }
            } else if top.pending().kind is Unknown {
                proof {
                    lemma_backlog_recording(self.frames, unknown_entry(top.pending().name));
                }
                self.recorded(unknown_entry(top.pending().name)).settle()
            } else {
                ProgressModel::Pending(self)
            }
        }
    }

    /// Where an answer leads: a listing opens the pending directory, a target
    /// or a length gives the pending item its entry, and then all work that
    /// needs no read is done.
    pub open spec fn advance(self, found: FoundModel) -> ProgressModel {
        match found {
            FoundModel::Listing(items) => self.opened(items).settle(),
            FoundModel::Target(target) => self.recorded(
                symlink_entry(self.pending_name(), target),
            ).settle(),
            FoundModel::Length(length) => self.recorded(
                file_entry(self.pending_name(), length),
            ).settle(),
        }
    }
}

/// Giving the innermost frame a child, where it still lacks one, shrinks the backlog.
pub proof fn lemma_backlog_recording(frames: Seq<FrameModel>, entry: EntryModel)
    requires
        frames.len() > 0,
        !frames.last().complete(),
    ensures
        backlog(frames.drop_last().push(frames.last().with_child(entry))) < backlog(frames),
{
    let after = frames.drop_last().push(frames.last().with_child(entry));
    assert(after.drop_last() =~= frames.drop_last());
}

/// Closing the innermost frame into the one below shrinks the backlog.
pub proof fn lemma_backlog_closing(frames: Seq<FrameModel>)
    requires
        frames.len() > 1,
    ensures
        backlog(
            frames.drop_last().drop_last().push(
                frames.drop_last().last().with_child(frames.last().closed()),
            ),
        ) < backlog(frames),
{
    let below = frames.drop_last();
    let after = below.drop_last().push(below.last().with_child(frames.last().closed()));
    assert(after.drop_last() =~= below.drop_last());
    assert(backlog(below) == backlog(below.drop_last()) + 1 + below.last().remaining());
    assert(backlog(after) == backlog(after.drop_last()) + 1 + after.last().remaining());
}

/// Giving the innermost frame a child adds the child's size to what is gathered.
pub proof fn lemma_gathered_recording(frames: Seq<FrameModel>, entry: EntryModel)
    requires
        frames.len() > 0,
    ensures
        gathered(frames.drop_last().push(frames.last().with_child(entry))) == gathered(frames)
            + entry.size,
{
    let after = frames.drop_last().push(frames.last().with_child(entry));
    assert(after.drop_last() =~= frames.drop_last());
    lemma_total_size_push(frames.last().children, entry);
}

/// Closing the innermost frame into the one below leaves what is gathered unchanged.
pub proof fn lemma_gathered_closing(frames: Seq<FrameModel>)
    requires
        frames.len() > 1,
    ensures
        gathered(
            frames.drop_last().drop_last().push(
                frames.drop_last().last().with_child(frames.last().closed()),
            ),
        ) == gathered(frames),
{
    let below = frames.drop_last();
    lemma_gathered_recording(below, frames.last().closed());
    assert(gathered(frames) == gathered(below) + total_size(frames.last().children));
}

impl WalkModel {
    /// Opening the pending directory keeps the state coherent.
    pub proof fn lemma_opened_coherent(self, items: Seq<ListedModel>)
        requires
            self.inv(),
            self.request() is List,
        ensures
            self.opened(items).coherent(),
            gathered(self.opened(items).frames) == gathered(self.frames),
    {
        let after = self.opened(items);
        assert(after.frames.drop_last() =~= self.frames);
        assert forall|k: int| 0 <= k < after.frames.len() implies (#[trigger] after.frames[k]).orderly() by {
            if k < self.frames.len() {
                assert(after.frames[k] == self.frames[k]);
            }
        }
        assert forall|k: int| 0 <= k < after.frames.len() - 1 implies {
            &&& !(#[trigger] after.frames[k]).complete()
            &&& after.frames[k].pending().kind is Directory
            &&& after.frames[k + 1].name == after.frames[k].pending().name
        } by {
            assert(after.frames[k] == self.frames[k]);
            if k < self.frames.len() - 1 {
                assert(after.frames[k + 1] == self.frames[k + 1]);
            }
        }
    }

    /// Giving the pending item an entry that stands for it keeps the state coherent.
    pub proof fn lemma_recorded_coherent(self, entry: EntryModel)
        requires
            self.coherent(),
            self.frames.len() > 0,
            !self.frames.last().complete(),
            mirrors(entry, self.frames.last().pending()),
            gathered(self.frames) + entry.size <= u64::MAX,
        ensures
            self.recorded(entry).coherent(),
            gathered(self.recorded(entry).frames) == gathered(self.frames) + entry.size,
    {
        let after = self.recorded(entry);
        let last = self.frames.len() - 1;
        lemma_gathered_recording(self.frames, entry);
        assert forall|k: int| 0 <= k < after.frames.len() implies (#[trigger] after.frames[k]).orderly() by {
            if k < last {
                assert(after.frames[k] == self.frames[k]);
            } else {
                assert(self.frames[last].orderly());
            }
        }
        assert forall|k: int| 0 <= k < after.frames.len() - 1 implies {
            &&& !(#[trigger] after.frames[k]).complete()
            &&& after.frames[k].pending().kind is Directory
            &&& after.frames[k + 1].name == after.frames[k].pending().name
        } by {
            assert(after.frames[k] == self.frames[k]);
        }
    }

    /// The entry that a complete innermost frame becomes stands for the item
    /// that the frame below it was waiting for.
    pub proof fn lemma_closed_mirrors(self)
        requires
            self.coherent(),
            self.frames.len() > 1,
        ensures
            mirrors(self.frames.last().closed(), self.popped().frames.last().pending()),
    {
        let last = self.frames.len() - 1;
        assert(self.frames[last].orderly());
        assert(!self.frames[last - 1].complete());
        assert(self.popped().frames.last() == self.frames[last - 1]);
    }

    /// Without its innermost frame a coherent state is still coherent.
    pub proof fn lemma_popped_coherent(self)
        requires
            self.coherent(),
            self.frames.len() > 0,
        ensures
            self.popped().coherent(),
    {
        let below = self.popped();
        assert(gathered(self.frames) == gathered(below.frames) + total_size(
            self.frames.last().children,
        ));
        assert forall|k: int| 0 <= k < below.frames.len() implies (#[trigger] below.frames[k]).orderly() by {
            assert(below.frames[k] == self.frames[k]);
        }
        assert forall|k: int| 0 <= k < below.frames.len() - 1 implies {
            &&& !(#[trigger] below.frames[k]).complete()
            &&& below.frames[k].pending().kind is Directory
            &&& below.frames[k + 1].name == below.frames[k].pending().name
        } by {
            assert(below.frames[k] == self.frames[k]);
            assert(below.frames[k + 1] == self.frames[k + 1]);
        }
    }

    /// Closing the innermost frame into the one below keeps the state coherent.
    pub proof fn lemma_closing_coherent(self)
        requires
            self.coherent(),
            self.frames.len() > 1,
        ensures
            self.popped().recorded(self.frames.last().closed()).coherent(),
            gathered(self.popped().recorded(self.frames.last().closed()).frames) == gathered(
                self.frames,
            ),
    {
        let below = self.popped();
        let last = self.frames.len() - 1;
        self.lemma_closed_mirrors();
        lemma_gathered_closing(self.frames);
        lemma_gathered_recording(below.frames, self.frames.last().closed());
        self.lemma_popped_coherent();
        assert(!self.frames[last - 1].complete());
        assert(below.frames.last() == self.frames[last - 1]);
        below.lemma_recorded_coherent(self.frames.last().closed());
    }

    /// Settling a coherent state ends either in a state that waits for a
    /// read, or in the finished tree: the root directory under the root's
    /// name, with sizes aggregated at every level.
    pub proof fn lemma_settle(self)
        requires
            self.coherent(),
            self.frames.len() > 0,
        ensures
            match self.settle() {
                ProgressModel::Pending(next) => {
                    &&& next.inv()
                    &&& next.frames.len() > 0
                    &&& next.root_path == self.root_path
                    &&& next.root_name == self.root_name
                    &&& gathered(next.frames) == gathered(self.frames)
                },
                ProgressModel::Finished(tree) => {
                    &&& tree.root_path == self.root_path
                    &&& tree.root_entry.name == self.root_name
                    &&& tree.root_entry.data is Directory
                    &&& tree.root_entry.aggregated()
                    &&& tree.root_entry.size == gathered(self.frames)
                },
            },
        decreases backlog(self.frames),
    {
        let top = self.frames.last();
        assert(self.frames[self.frames.len() - 1].orderly());
        if top.complete() {
            if self.frames.len() == 1 {
                assert(self.frames.drop_last() =~= Seq::<FrameModel>::empty());
                assert(gathered(self.frames.drop_last()) == 0);
            } else {
                lemma_backlog_closing(self.frames);
                self.lemma_closing_coherent();
                self.popped().recorded(top.closed()).lemma_settle();
            }
        } else if top.pending().kind is Unknown {
            let entry = unknown_entry(top.pending().name);
            lemma_backlog_recording(self.frames, entry);
            self.lemma_recorded_coherent(entry);
            self.recorded(entry).lemma_settle();
        }
    }

    /// A symbolic link is read, never followed: for a pending link the
    /// traversal asks for the link's target, and whatever target comes back
    /// the link becomes a symlink entry of size 0 that carries it as given,
    /// with no directory opened for it and nothing added to the sizes.
    pub proof fn lemma_symlink_read_not_followed(self, target: std::path::PathBuf)
        requires
            self.inv(),
            self.frames.len() > 0,
            self.frames.last().pending().kind is Symlink,
        ensures
            self.request() == RequestModel::ReadLink(self.location()),
            self.accepts(FoundModel::Target(target)),
            ({
                let entry = EntryModel {
                    name: self.frames.last().pending().name,
                    size: 0,
                    data: DataModel::Symlink(target),
                };
                let after = self.recorded(entry);
                &&& self.advance(FoundModel::Target(target)) == after.settle()
                &&& after.frames.len() == self.frames.len()
                &&& after.frames.last().children == self.frames.last().children.push(entry)
                &&& gathered(after.frames) == gathered(self.frames)
            }),
    {
        let entry = symlink_entry(self.pending_name(), target);
        self.lemma_recorded_coherent(entry);
    }

    /// Every answer to the pending request of a sound state leads either to a
    /// sound state again, or to the finished tree: the root directory under
    /// the root's name, with sizes aggregated at every level.
    pub proof fn lemma_advance(self, found: FoundModel)
        requires
            self.inv(),
            self.accepts(found),
        ensures
            match self.advance(found) {
                ProgressModel::Pending(next) => {
                    &&& next.inv()
                    &&& next.frames.len() > 0
                    &&& next.root_path == self.root_path
                    &&& next.root_name == self.root_name
                },
                ProgressModel::Finished(tree) => tree.finishes(self),
            },
    {
        match found {
            FoundModel::Listing(items) => {
                self.lemma_opened_coherent(items);
                self.opened(items).lemma_settle();
            },
            FoundModel::Target(target) => {
                let entry = symlink_entry(self.pending_name(), target);
                self.lemma_recorded_coherent(entry);
                self.recorded(entry).lemma_settle();
            },
            FoundModel::Length(length) => {
                let entry = file_entry(self.pending_name(), length);
                self.lemma_recorded_coherent(entry);
                self.recorded(entry).lemma_settle();
            },
        }
    }
}

} // verus!
