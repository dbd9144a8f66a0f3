//! The traversal itself: a state that says which read it needs next and
//! takes the answer, until the tree is finished or a read has failed.

use vstd::prelude::*;
use crate::entry::{
    entry_models, lemma_entry_models, lemma_total_size_push, total_size, Entry, EntryData,
    FileTree,
};
use crate::listing::{Kind, Listed};
use crate::path::{final_component, final_component_of};
use crate::plan::{
    backlog, gathered, lemma_backlog_closing, lemma_backlog_recording, unknown_entry, FoundModel,
    FrameModel, ProgressModel, RequestModel, WalkModel,
};

verus! {

/// The error of a failed read, `std::io::Error`, carried through unopened.
#[verifier::external_type_specification]
#[verifier::external_body]
pub struct ExIoError(std::io::Error);

/// The read that a traversal needs next. The place is given by the names
/// that lead to it from the root directory, outermost first; for the root
/// itself it is empty.
#[derive(Debug, PartialEq, Eq)]
pub enum Request {
    /// List the directory at this place.
    List(Vec<Vec<u8>>),
    /// Read the raw target of the symbolic link at this place.
    ReadLink(Vec<Vec<u8>>),
    /// Read the length of the regular file at this place.
    Measure(Vec<Vec<u8>>),
}

/// The byte sequences that `names` holds, in order.
pub open spec fn names_of(names: Seq<Vec<u8>>) -> Seq<Seq<u8>> {
    names.map_values(|name: Vec<u8>| name@)
}

impl View for Request {
    type V = RequestModel;

    open spec fn view(&self) -> RequestModel {
        match self {
            Request::List(place) => RequestModel::List(names_of(place@)),
            Request::ReadLink(place) => RequestModel::ReadLink(names_of(place@)),
            Request::Measure(place) => RequestModel::Measure(names_of(place@)),
        }
    }
}

/// What a read found.
#[derive(Debug, PartialEq, Eq)]
pub enum Found {
    /// The items of a directory, in the order the filesystem gave them.
    Listing(Vec<Listed>),
    /// The target of a symbolic link, as the link holds it.
    Target(std::path::PathBuf),
    /// The length of a regular file.
    Length(u64),
}

impl View for Found {
    type V = FoundModel;

    open spec fn view(&self) -> FoundModel {
        match self {
            Found::Listing(items) => FoundModel::Listing(items@.map_values(|item: Listed| item@)),
            Found::Target(target) => FoundModel::Target(*target),
            Found::Length(length) => FoundModel::Length(*length as nat),
        }
    }
}

/// A directory that is being filled.
#[derive(Debug)]
struct Frame {
    name: Vec<u8>,
    listing: Vec<Listed>,
    children: Vec<Entry>,
    total: u64,
}

impl View for Frame {
    type V = FrameModel;

    closed spec fn view(&self) -> FrameModel {
        FrameModel {
            name: self.name@,
            listing: self.listing@.map_values(|item: Listed| item@),
            children: entry_models(self.children@),
        }
    }
}

/// A traversal in progress.
#[derive(Debug)]
pub struct Walk {
    root_path: std::path::PathBuf,
    root_name: Vec<u8>,
    frames: Vec<Frame>,
    measured: u64,
}

impl View for Walk {
    type V = WalkModel;

    closed spec fn view(&self) -> WalkModel {
        WalkModel {
            root_path: self.root_path,
            root_name: self.root_name@,
            frames: self.frames@.map_values(|frame: Frame| frame@),
        }
    }
}

/// Where a traversal stands after an answer.
#[derive(Debug)]
pub enum Progress {
    /// The traversal goes on and needs its next request answered.
    Pending(Walk),
    /// The traversal is over and this is the tree.
    Finished(FileTree),
}

impl View for Progress {
    type V = ProgressModel;

    open spec fn view(&self) -> ProgressModel {
        match self {
            Progress::Pending(walk) => ProgressModel::Pending(walk@),
            Progress::Finished(tree) => ProgressModel::Finished(tree@),
        }
    }
}

/// The name that a root gets from the final component of its path: the
/// component itself, or the empty name where there is none.
pub open spec fn name_or_empty(component: Option<Seq<u8>>) -> Seq<u8> {
    match component {
        Some(name) => name,
        None => Seq::empty(),
    }
}

/// A copy of `bytes`.
fn copy_of(bytes: &Vec<u8>) -> (copy: Vec<u8>)
    ensures
        copy@ == bytes@,
{
    let copy = bytes.clone();
    assert(copy@ =~= bytes@);
    copy
}

impl Frame {
    /// The model's sequences are as long as the vectors, item for item.
    proof fn lemma_view(self)
        ensures
            self@.name == self.name@,
            self@.listing.len() == self.listing@.len(),
            self@.children.len() == self.children@.len(),
            forall|i: int| 0 <= i < self.listing@.len() ==> self@.listing[i] == self.listing@[i]@,
            forall|i: int| 0 <= i < self.children@.len() ==> self@.children[i] == self.children@[i]@,
    {
        lemma_entry_models(self.children@);
    }

    /// Appends `entry` to the children and adds its size to the total.
    fn adopt(&mut self, entry: Entry)
        requires
            old(self).total as nat == total_size(old(self)@.children),
            old(self).total + entry.size <= u64::MAX,
        ensures
            final(self)@ == old(self)@.with_child(entry@),
            final(self).total as nat == total_size(final(self)@.children),
            final(self).total == old(self).total + entry.size,
    {
        proof {
            lemma_total_size_push(self@.children, entry@);
            lemma_entry_models(self.children@);
            lemma_entry_models(self.children@.push(entry));
        }
        self.total = self.total + entry.size;
        self.children.push(entry);
        assert(self@.children =~= old(self)@.children.push(entry@));
    }
}

impl Walk {
    /// Each open directory's running total is the sum of its children's sizes.
    pub closed spec fn counted(&self) -> bool {
        forall|k: int|
            0 <= k < self.frames@.len() ==> (#[trigger] self.frames@[k]).total as nat
                == total_size(self.frames@[k]@.children)
    }

    /// The running totals agree with the entries gathered so far.
    pub closed spec fn tallied(&self) -> bool {
        &&& self.measured as nat == gathered(self@.frames)
        &&& self.counted()
    }

    /// The traversal is sound and waits for a read.
    pub open spec fn wf(&self) -> bool {
        &&& self@.inv()
        &&& self.tallied()
    }

    /// Starts a traversal of the directory at `root_path`. The root entry
    /// will bear the final component of the path as its name, or the empty
    /// name if the path has none. Nothing is read yet: the first request
    /// asks for the listing of the root.
    pub fn begin(root_path: std::path::PathBuf) -> (walk: Walk)
        ensures
            walk.wf(),
            walk@ == WalkModel::fresh(root_path, name_or_empty(final_component(root_path))),
    {
        let file_name = final_component_of(&root_path);
        Walk::begin_named(root_path, file_name)
    }

    /// Starts a traversal of the directory at `root_path` whose root entry
    /// will bear `file_name`, or the empty name if there is none.
    pub fn begin_named(root_path: std::path::PathBuf, file_name: Option<Vec<u8>>) -> (walk: Walk)
        ensures
            walk.wf(),
            walk@ == WalkModel::fresh(
                root_path,
                name_or_empty(
                    match file_name {
                        Some(name) => Some(name@),
                        None => None,
                    },
                ),
            ),
    {
        let root_name = match file_name {
            Some(name) => name,
            None => Vec::new(),
        };
        let walk = Walk { root_path, root_name, frames: Vec::new(), measured: 0 };
        assert(walk@.frames =~= Seq::empty());
        walk
    }

    /// The read that the traversal needs next.
    pub fn request(&self) -> (request: Request)
        requires
            self.wf(),
        ensures
            request@ == self@.request(),
    {
        let depth: usize = self.frames.len();
        if depth == 0 {
            let place: Vec<Vec<u8>> = Vec::new();
            assert(names_of(place@) =~= self@.location());
            return Request::List(place);
        }
        let mut place: Vec<Vec<u8>> = Vec::new();
        let mut i: usize = 1;
        while i < depth
            invariant
                1 <= i <= depth,
                depth == self.frames.len(),
                place.len() == i - 1,
                forall|j: int| 0 <= j < i - 1 ==> place@[j]@ == self@.frames[j + 1].name,
            decreases depth - i,
        {
            proof {
                self.frames@[i as int].lemma_view();
            }
            place.push(copy_of(&self.frames[i].name));
            i = i + 1;
        }
        let top = &self.frames[depth - 1];
        proof {
            top.lemma_view();
            assert(self@.frames.last() == top@);
        }
        let item = &top.listing[top.children.len()];
        place.push(copy_of(&item.name));
        assert(names_of(place@) =~= self@.location());
        match item.kind() {
            Kind::Symlink => Request::ReadLink(place),
            Kind::File => Request::Measure(place),
            _ => Request::List(place),
        }
    }

    /// Gives the innermost open directory its next child.
    fn record(&mut self, entry: Entry)
        requires
            old(self).frames@.len() > 0,
            old(self).counted(),
            old(self).frames@.last().total + entry.size <= u64::MAX,
        ensures
            final(self)@ == old(self)@.recorded(entry@),
            final(self).counted(),
            final(self).measured == old(self).measured,
    {
        let mut top = self.frames.pop().unwrap();
        top.adopt(entry);
        self.frames.push(top);
        assert(self@.frames =~= old(self)@.recorded(entry@).frames);
    }

    /// Does all the work that needs no read.
    fn settle(self) -> (progress: Progress)
        requires
            self@.coherent(),
            self.tallied(),
            self.frames@.len() > 0,
        ensures
            progress@ == self@.settle(),
            progress matches Progress::Pending(next) ==> next.wf(),
    {
        let mut walk = self;
        loop
            invariant
                walk@.coherent(),
                walk.tallied(),
                walk.frames@.len() > 0,
                walk@.settle() == self@.settle(),
            decreases backlog(walk@.frames),
        {
            let ghost before = walk;
            let depth: usize = walk.frames.len();
            let top = &walk.frames[depth - 1];
            proof {
                top.lemma_view();
                assert(walk@.frames.last() == top@);
            }
            if top.children.len() >= top.listing.len() {
                let top = walk.frames.pop().unwrap();
                let closed = Entry {
                    name: top.name,
                    size: top.total,
                    data: EntryData::Directory(top.children),
                };
                assert(closed@ == top@.closed());
                assert(walk@.frames =~= before@.popped().frames);
                if depth == 1 {
                    return Progress::Finished(
                        FileTree { root_path: walk.root_path, root_entry: closed },
                    );
                }
                proof {
                    lemma_backlog_closing(before@.frames);
                    before@.lemma_closing_coherent();
                    let below = before@.frames.drop_last();
                    assert(gathered(before@.frames) == gathered(below) + total_size(
                        before@.frames.last().children,
                    ));
                    assert(gathered(below) == gathered(below.drop_last()) + total_size(
                        below.last().children,
                    ));
                    assert(walk.frames@.last()@ == below.last());
                }
                walk.record(closed);
            } else {
                let item = &top.listing[top.children.len()];
                match item.kind() {
                    Kind::Unknown => {
                        let entry = Entry {
                            name: copy_of(&item.name),
                            size: 0,
                            data: EntryData::Unknown,
                        };
                        proof {
                            assert(entry@ == unknown_entry(top@.pending().name));
                            lemma_backlog_recording(before@.frames, entry@);
                            before@.lemma_recorded_coherent(entry@);
                        }
                        walk.record(entry);
                    },
                    _ => {
                        return Progress::Pending(walk);
                    },
                }
            }
        }
    }

    /// Whether `found` is an answer that the traversal can take now: it is
    /// of the kind that the pending request asks for, and a length leaves
    /// the sizes gathered within 64 bits.
    pub fn accepts(&self, found: &Found) -> (ok: bool)
        requires
            self.wf(),
        ensures
            ok == self@.accepts(found@),
    {
        match (self.pending_kind(), found) {
            (Kind::Symlink, Found::Target(_)) => true,
            (Kind::Symlink, _) => false,
            (Kind::File, Found::Length(length)) => *length <= u64::MAX - self.measured,
            (Kind::File, _) => false,
            (_, Found::Listing(_)) => true,
            (_, _) => false,
        }
    }

    /// Takes the outcome of the read that [`Walk::request`] asked for. A
    /// failure ends the traversal with that failure. What was found is
    /// entered in the tree; the result is the traversal waiting for its next
    /// read, or the finished tree.
    pub fn step(self, reply: Result<Found, std::io::Error>) -> (outcome: Result<
        Progress,
        std::io::Error,
    >)
        requires
            self.wf(),
            reply matches Ok(found) ==> self@.accepts(found@),
        ensures
            reply matches Err(error) ==> outcome == Err::<Progress, std::io::Error>(error),
            reply matches Ok(found) ==> (outcome matches Ok(progress) && progress@
                == self@.advance(found@)),
            outcome matches Ok(Progress::Pending(next)) ==> next.wf(),
            outcome matches Ok(Progress::Finished(tree)) ==> tree@.finishes(self@),
    {
        let found = match reply {
            Ok(found) => found,
            Err(error) => {
                return Err(error);
            },
        };
        proof {
            self@.lemma_advance(found@);
        }
        let mut walk = self;
        match found {
            Found::Listing(items) => {
                let name = walk.pending_name();
                proof {
                    self@.lemma_opened_coherent(items@.map_values(|item: Listed| item@));
                }
                let frame = Frame { name, listing: items, children: Vec::new(), total: 0 };
                assert(frame@ == (FrameModel {
                    name: self@.pending_name(),
                    listing: items@.map_values(|item: Listed| item@),
                    children: Seq::empty(),
                }));
                walk.frames.push(frame);
                assert(walk@.frames =~= self@.opened(found@->Listing_0).frames);
            },
            Found::Target(target) => {
                let entry = Entry {
                    name: walk.pending_name(),
                    size: 0,
                    data: EntryData::Symlink(target),
                };
                proof {
                    self@.lemma_recorded_coherent(entry@);
                }
                walk.record(entry);
            },
            Found::Length(length) => {
                let entry = Entry { name: walk.pending_name(), size: length, data: EntryData::File };
                proof {
                    self@.lemma_recorded_coherent(entry@);
                    assert(gathered(self@.frames) == gathered(self@.frames.drop_last())
                        + total_size(self@.frames.last().children));
                    assert(self.frames@.last()@ == self@.frames.last());
                }
                walk.record(entry);
                walk.measured = walk.measured + length;
            },
        }
        Ok(walk.settle())
    }

    /// The kind of what the next request is about.
    fn pending_kind(&self) -> (kind: Kind)
        requires
            self@.waiting(),
        ensures
            kind == self@.pending_kind(),
    {
        let depth: usize = self.frames.len();
        if depth == 0 {
            Kind::Directory
        } else {
            let top = &self.frames[depth - 1];
            proof {
                top.lemma_view();
                assert(self@.frames.last() == top@);
            }
            top.listing[top.children.len()].kind()
        }
    }

    /// A copy of the name of what the next request is about.
    fn pending_name(&self) -> (name: Vec<u8>)
        requires
            self@.waiting(),
        ensures
            name@ == self@.pending_name(),
    {
        let depth: usize = self.frames.len();
        if depth == 0 {
            copy_of(&self.root_name)
        } else {
            let top = &self.frames[depth - 1];
            proof {
                top.lemma_view();
                assert(self@.frames.last() == top@);
            }
            copy_of(&top.listing[top.children.len()].name)
        }
    }

    /// The total of the sizes gathered so far.
    pub fn measured(&self) -> (total: u64)
        requires
            self.wf(),
        ensures
            total as nat == gathered(self@.frames),
    {
        self.measured
    }
}

} // verus!
