//! A traversal whose reads are answered from a tree rebuilds that tree.

use vstd::prelude::*;
use crate::described::{
    answer, children_of, entry_at, lemma_child_named, lemma_child_sound, lemma_reads_all_push,
    lemma_reads_all_take, lemma_total_size_take, listed, listing_of, reads, reads_all,
};
use crate::entry::{EntryModel, FileTreeModel};
use crate::listing::Kind;
use crate::plan::{
    backlog, file_entry, gathered, lemma_backlog_closing, lemma_backlog_recording, mirrors,
    symlink_entry, unknown_entry, FoundModel, FrameModel, ProgressModel, RequestModel, WalkModel,
};

verus! {

/// The entry reached from `tree` by taking, level by level, the child at
/// each index of `steps`.
pub open spec fn descend(tree: EntryModel, steps: Seq<int>) -> EntryModel
    decreases steps.len(),
{
    if steps.len() == 0 {
        tree
    } else {
        children_of(descend(tree, steps.drop_last()))[steps.last()]
    }
}

/// For each open directory, how many children it has so far: the index of
/// its pending item.
pub open spec fn cursor(frames: Seq<FrameModel>) -> Seq<int> {
    Seq::new(frames.len(), |k: int| frames[k].children.len() as int)
}

/// How many reads the open directories stand for: one for each listing,
/// and those spent on the children built so far.
pub open spec fn answered(frames: Seq<FrameModel>) -> nat
    decreases frames.len(),
{
    if frames.len() == 0 {
        0
    } else {
        answered(frames.drop_last()) + 1 + reads_all(frames.last().children)
    }
}

impl WalkModel {
    /// The entry of `tree` that open directory `k` is filling; for `k` the
    /// number of open directories, the entry of the pending item.
    pub open spec fn node(self, tree: EntryModel, k: int) -> EntryModel {
        descend(tree, cursor(self.frames).take(k))
    }

    /// Open directory `k` holds what `tree` has there: the name, the
    /// listing, and the leading children.
    pub open spec fn frame_fills(self, tree: EntryModel, k: int) -> bool {
        let node = self.node(tree, k);
        let frame = self.frames[k];
        &&& node.data is Directory
        &&& frame.name == node.name
        &&& frame.listing == listing_of(children_of(node))
        &&& frame.children.len() <= children_of(node).len()
        &&& frame.children == children_of(node).take(frame.children.len() as int)
    }

    /// The traversal is on its way through `tree`: what it has built so far
    /// is what `tree` holds there.
    pub open spec fn follows(self, tree: EntryModel) -> bool {
        &&& self.root_name == tree.name
        &&& forall|k: int| 0 <= k < self.frames.len() ==> #[trigger] self.frame_fills(tree, k)
    }

    /// The names that lead from `tree` to the entry that `node` gives for `k`.
    pub open spec fn trail(self, tree: EntryModel, k: int) -> Seq<Seq<u8>> {
        Seq::new(k as nat, |j: int| self.node(tree, j + 1).name)
    }

    /// Every open directory but the innermost has a pending item; the
    /// innermost has one if `k` reaches past it.
    pub open spec fn reaches(self, k: int) -> bool {
        &&& 0 <= k <= self.frames.len()
        &&& k == self.frames.len() && k > 0 ==> !self.frames.last().complete()
    }

    /// Where reads answered from `tree` lead within `fuel` reads: to the
    /// finished tree, or to the state that is reached when the reads are
    /// spent or one fails.
    pub open spec fn run(self, tree: EntryModel, fuel: nat) -> ProgressModel
        decreases fuel,
    {
        if fuel == 0 {
            ProgressModel::Pending(self)
        } else {
            match answer(tree, self.request()) {
                Some(found) => match self.advance(found) {
                    ProgressModel::Pending(next) => next.run(tree, (fuel - 1) as nat),
                    ProgressModel::Finished(built) => ProgressModel::Finished(built),
                },
                None => ProgressModel::Pending(self),
            }
        }
    }
}

/// Giving the innermost frame a child adds the child's reads.
pub proof fn lemma_answered_recording(frames: Seq<FrameModel>, entry: EntryModel)
    requires
        frames.len() > 0,
    ensures
        answered(frames.drop_last().push(frames.last().with_child(entry))) == answered(frames)
            + reads(entry),
{
    let after = frames.drop_last().push(frames.last().with_child(entry));
    assert(after.drop_last() =~= frames.drop_last());
    lemma_reads_all_push(frames.last().children, entry);
}

impl WalkModel {
    /// A traversal that starts under the name of `tree` is on its way
    /// through `tree`.
    pub proof fn lemma_fresh_follows(root_path: std::path::PathBuf, tree: EntryModel)
        ensures
            WalkModel::fresh(root_path, tree.name).inv(),
            WalkModel::fresh(root_path, tree.name).follows(tree),
    {
    }

    /// On the way through a tree, the entry for `k` is the child, at the
    /// pending index, of the entry one level up; it is sound; it is found at
    /// the place that its ancestors' names give; and what is gathered below
    /// it, with its own size, is within the size of the tree.
    pub proof fn lemma_node(self, tree: EntryModel, k: int)
        requires
            self.coherent(),
            self.follows(tree),
            tree.describes(),
            self.reaches(k),
        ensures
            self.node(tree, k).well_named(),
            self.node(tree, k).aggregated(),
            gathered(self.frames.take(k)) + self.node(tree, k).size <= tree.size,
            entry_at(tree, self.trail(tree, k)) == Some(self.node(tree, k)),
            k > 0 ==> {
                &&& self.frames[k - 1].children.len() < children_of(self.node(tree, k - 1)).len()
                &&& self.node(tree, k) == children_of(self.node(tree, k - 1))[self.frames[k
                    - 1].children.len() as int]
                &&& listed(self.node(tree, k)) == self.frames[k - 1].pending()
            },
        decreases k,
    {
        let steps = cursor(self.frames).take(k);
        if k == 0 {
            assert(self.frames.take(0) =~= Seq::<FrameModel>::empty());
            assert(self.trail(tree, 0) =~= Seq::<Seq<u8>>::empty());
        } else {
            self.lemma_node(tree, k - 1);
            let parent = self.node(tree, k - 1);
            let frame = self.frames[k - 1];
            let index = frame.children.len() as int;
            assert(self.frame_fills(tree, k - 1));
            assert(!frame.complete());
            assert(steps.drop_last() =~= cursor(self.frames).take(k - 1));
            assert(steps.last() == index);
            lemma_child_sound(parent, index);
            lemma_total_size_take(children_of(parent), index);
            assert(self.frames.take(k).drop_last() =~= self.frames.take(k - 1));
            assert(self.frames.take(k).last() == frame);
            assert(self.trail(tree, k).drop_last() =~= self.trail(tree, k - 1));
            lemma_child_named(children_of(parent), index);
        }
    }

    /// On the way through a tree, the place of the pending request is the
    /// place of the pending entry.
    pub proof fn lemma_location(self, tree: EntryModel)
        requires
            self.inv(),
            self.follows(tree),
            tree.describes(),
        ensures
            self.location() == self.trail(tree, self.frames.len() as int),
            self.pending_name() == self.node(tree, self.frames.len() as int).name,
            entry_at(tree, self.location()) == Some(self.node(tree, self.frames.len() as int)),
    {
        let depth = self.frames.len() as int;
        self.lemma_node(tree, depth);
        if depth > 0 {
            assert forall|j: int| 0 <= j < depth implies self.location()[j] == self.trail(
                tree,
                depth,
            )[j] by {
                if j < depth - 1 {
                    assert(self.frame_fills(tree, j + 1));
                }
            }
        }
        assert(self.location() =~= self.trail(tree, depth));
    }

    /// On the way through a tree, each read is about the pending entry and
    /// of the kind that the entry calls for: a directory is listed, a link
    /// has its target read, a file is measured, and nothing else is asked.
    pub proof fn lemma_request_is_for_pending_entry(self, tree: EntryModel)
        requires
            self.inv(),
            self.follows(tree),
            tree.describes(),
        ensures
            ({
                let entry = self.node(tree, self.frames.len() as int);
                &&& entry_at(tree, self.location()) == Some(entry)
                &&& self.request() == match entry.kind() {
                    Kind::Symlink => RequestModel::ReadLink(self.location()),
                    Kind::File => RequestModel::Measure(self.location()),
                    _ => RequestModel::List(self.location()),
                }
                &&& !(entry.kind() is Unknown)
            }),
    {
        let depth = self.frames.len() as int;
        self.lemma_location(tree);
        self.lemma_node(tree, depth);
    }

    /// On the way through a tree that describes the filesystem, the pending
    /// read succeeds, and what it finds can be taken.
    pub proof fn lemma_answer_accepted(self, tree: EntryModel)
        requires
            self.inv(),
            self.follows(tree),
            tree.describes(),
        ensures
            answer(tree, self.request()) matches Some(found) && self.accepts(found),
    {
        let depth = self.frames.len() as int;
        self.lemma_location(tree);
        self.lemma_node(tree, depth);
        assert(self.frames.take(depth) =~= self.frames);
    }

    /// Giving the pending item the entry that `tree` has for it keeps the
    /// traversal on its way through `tree`.
    pub proof fn lemma_recorded_follows(self, tree: EntryModel)
        requires
            self.coherent(),
            self.follows(tree),
            tree.describes(),
            self.frames.len() > 0,
            !self.frames.last().complete(),
        ensures
            self.recorded(self.node(tree, self.frames.len() as int)).follows(tree),
            mirrors(self.node(tree, self.frames.len() as int), self.frames.last().pending()),
            gathered(self.frames) + self.node(tree, self.frames.len() as int).size <= u64::MAX,
    {
        let depth = self.frames.len() as int;
        let entry = self.node(tree, depth);
        let after = self.recorded(entry);
        self.lemma_node(tree, depth);
        assert(self.frames.take(depth) =~= self.frames);
        assert forall|k: int| 0 <= k < after.frames.len() implies #[trigger] after.frame_fills(
            tree,
            k,
        ) by {
            assert(self.frame_fills(tree, k));
            assert(cursor(after.frames).take(k) =~= cursor(self.frames).take(k));
            if k == depth - 1 {
                let node = self.node(tree, k);
                let count = self.frames[k].children.len() as int;
                assert(after.frames[k].children =~= children_of(node).take(count + 1));
            } else {
                assert(after.frames[k] == self.frames[k]);
            }
        }
    }

    /// Opening the pending directory on the listing that `tree` has for it
    /// keeps the traversal on its way through `tree`.
    pub proof fn lemma_opened_follows(self, tree: EntryModel)
        requires
            self.inv(),
            self.follows(tree),
            tree.describes(),
            self.request() is List,
        ensures
            self.opened(
                listing_of(children_of(self.node(tree, self.frames.len() as int))),
            ).follows(tree),
    {
        let depth = self.frames.len() as int;
        let entry = self.node(tree, depth);
        let after = self.opened(listing_of(children_of(entry)));
        self.lemma_node(tree, depth);
        self.lemma_location(tree);
        assert forall|k: int| 0 <= k < after.frames.len() implies #[trigger] after.frame_fills(
            tree,
            k,
        ) by {
            assert(cursor(after.frames).take(k) =~= cursor(self.frames).take(k));
            if k < depth {
                assert(self.frame_fills(tree, k));
                assert(after.frames[k] == self.frames[k]);
            } else {
                assert(after.frames[k].children =~= children_of(entry).take(0));
            }
        }
    }

    /// A directory whose items all have their entry closes into the entry
    /// that `tree` has for it, and without it the traversal is still on its
    /// way through `tree`, waiting for that entry.
    pub proof fn lemma_closed_follows(self, tree: EntryModel)
        requires
            self.coherent(),
            self.follows(tree),
            tree.describes(),
            self.frames.len() > 0,
            self.frames.last().complete(),
        ensures
            self.frames.last().closed() == self.node(tree, self.frames.len() - 1),
            self.popped().follows(tree),
            self.popped().node(tree, self.frames.len() - 1) == self.node(
                tree,
                self.frames.len() - 1,
            ),
    {
        let depth = self.frames.len() as int;
        let top = self.frames.last();
        let node = self.node(tree, depth - 1);
        let below = self.popped();
        assert(self.frame_fills(tree, depth - 1));
        self.lemma_node(tree, depth - 1);
        assert(top.children =~= children_of(node));
        assert(cursor(below.frames).take(depth - 1) =~= cursor(self.frames).take(depth - 1));
        assert forall|k: int| 0 <= k < below.frames.len() implies #[trigger] below.frame_fills(
            tree,
            k,
        ) by {
            assert(self.frame_fills(tree, k));
            assert(cursor(below.frames).take(k) =~= cursor(self.frames).take(k));
        }
    }

    /// Settling a traversal that is on its way through `tree` leaves it on
    /// that way, or ends it with `tree`.
    pub proof fn lemma_settle_follows(self, tree: EntryModel)
        requires
            self.coherent(),
            self.follows(tree),
            tree.describes(),
            self.frames.len() > 0,
        ensures
            match self.settle() {
                ProgressModel::Pending(next) => next.inv() && next.follows(tree),
                ProgressModel::Finished(built) => built == (FileTreeModel {
                    root_path: self.root_path,
                    root_entry: tree,
                }),
            },
        decreases backlog(self.frames),
    {
        let depth = self.frames.len() as int;
        let top = self.frames.last();
        self.lemma_settle();
        if top.complete() {
            self.lemma_closed_follows(tree);
            if depth == 1 {
                assert(cursor(self.frames).take(0) =~= Seq::<int>::empty());
            } else {
                let below = self.popped();
                lemma_backlog_closing(self.frames);
                self.lemma_closing_coherent();
                assert(below.coherent()) by {
                    self.lemma_popped_coherent();
                }
                assert(!below.frames.last().complete()) by {
                    assert(!self.frames[depth - 2].complete());
                }
                below.lemma_recorded_follows(tree);
                below.recorded(top.closed()).lemma_settle_follows(tree);
            }
        } else if top.pending().kind is Unknown {
            let entry = unknown_entry(top.pending().name);
            self.lemma_node(tree, depth);
            assert(entry == self.node(tree, depth));
            lemma_backlog_recording(self.frames, entry);
            self.lemma_recorded_coherent(entry);
            self.lemma_recorded_follows(tree);
            self.recorded(entry).lemma_settle_follows(tree);
        }
    }

    /// Answering the pending read from the tree that describes the
    /// filesystem leaves the traversal on its way through that tree, or ends
    /// it with exactly that tree.
    pub proof fn lemma_advance_follows(self, tree: EntryModel)
        requires
            self.inv(),
            self.follows(tree),
            tree.describes(),
        ensures
            answer(tree, self.request()) matches Some(found) && self.accepts(found) && match self.advance(
                found,
            ) {
                ProgressModel::Pending(next) => next.inv() && next.follows(tree),
                ProgressModel::Finished(built) => built == (FileTreeModel {
                    root_path: self.root_path,
                    root_entry: tree,
                }),
            },
    {
        let depth = self.frames.len() as int;
        let entry = self.node(tree, depth);
        self.lemma_answer_accepted(tree);
        self.lemma_location(tree);
        self.lemma_node(tree, depth);
        let found = answer(tree, self.request())->0;
        match found {
            FoundModel::Listing(items) => {
                self.lemma_opened_coherent(items);
                self.lemma_opened_follows(tree);
                self.opened(items).lemma_settle_follows(tree);
            },
            FoundModel::Target(target) => {
                assert(symlink_entry(self.pending_name(), target) == entry);
                self.lemma_recorded_follows(tree);
                self.lemma_recorded_coherent(entry);
                self.recorded(entry).lemma_settle_follows(tree);
            },
            FoundModel::Length(length) => {
                assert(file_entry(self.pending_name(), length) == entry);
                self.lemma_recorded_follows(tree);
                self.lemma_recorded_coherent(entry);
                self.recorded(entry).lemma_settle_follows(tree);
            },
        }
    }

    /// Settling spends no read.
    pub proof fn lemma_settle_answered(self)
        requires
            self.coherent(),
            self.frames.len() > 0,
        ensures
            match self.settle() {
                ProgressModel::Pending(next) => answered(next.frames) == answered(self.frames),
                ProgressModel::Finished(built) => reads(built.root_entry) == answered(self.frames),
            },
        decreases backlog(self.frames),
    {
        let top = self.frames.last();
        if top.complete() {
            if self.frames.len() == 1 {
                assert(self.frames.drop_last() =~= Seq::<FrameModel>::empty());
                assert(answered(self.frames.drop_last()) == 0);
            } else {
                let below = self.popped();
                lemma_backlog_closing(self.frames);
                self.lemma_closing_coherent();
                lemma_answered_recording(below.frames, top.closed());
                below.recorded(top.closed()).lemma_settle_answered();
            }
        } else if top.pending().kind is Unknown {
            let entry = unknown_entry(top.pending().name);
            lemma_backlog_recording(self.frames, entry);
            self.lemma_recorded_coherent(entry);
            lemma_answered_recording(self.frames, entry);
            self.recorded(entry).lemma_settle_answered();
        }
    }

    /// Each answer that leaves the traversal waiting is one more read answered.
    pub proof fn lemma_advance_answered(self, found: FoundModel)
        requires
            self.inv(),
            self.accepts(found),
        ensures
            self.advance(found) matches ProgressModel::Pending(next) ==> answered(next.frames)
                == answered(self.frames) + 1,
    {
        match found {
            FoundModel::Listing(items) => {
                let after = self.opened(items);
                self.lemma_opened_coherent(items);
                assert(after.frames.drop_last() =~= self.frames);
                assert(reads_all(after.frames.last().children) == 0);
                after.lemma_settle_answered();
            },
            FoundModel::Target(target) => {
                let entry = symlink_entry(self.pending_name(), target);
                self.lemma_recorded_coherent(entry);
                lemma_answered_recording(self.frames, entry);
                self.recorded(entry).lemma_settle_answered();
            },
            FoundModel::Length(length) => {
                let entry = file_entry(self.pending_name(), length);
                self.lemma_recorded_coherent(entry);
                lemma_answered_recording(self.frames, entry);
                self.recorded(entry).lemma_settle_answered();
            },
        }
    }

    /// On the way through a tree, the reads answered below the entry for
    /// `k`, with those that the entry itself takes, are within the reads of
    /// the tree.
    pub proof fn lemma_node_reads(self, tree: EntryModel, k: int)
        requires
            self.coherent(),
            self.follows(tree),
            tree.describes(),
            self.reaches(k),
        ensures
            answered(self.frames.take(k)) + reads(self.node(tree, k)) <= reads(tree),
        decreases k,
    {
        if k == 0 {
            assert(self.frames.take(0) =~= Seq::<FrameModel>::empty());
            assert(cursor(self.frames).take(0) =~= Seq::<int>::empty());
        } else {
            self.lemma_node_reads(tree, k - 1);
            self.lemma_node(tree, k);
            let parent = self.node(tree, k - 1);
            let frame = self.frames[k - 1];
            assert(self.frame_fills(tree, k - 1));
            lemma_reads_all_take(children_of(parent), frame.children.len() as int);
            assert(self.frames.take(k).drop_last() =~= self.frames.take(k - 1));
            assert(self.frames.take(k).last() == frame);
        }
    }

    /// A traversal on its way through a tree still has a read to make.
    pub proof fn lemma_reads_left(self, tree: EntryModel)
        requires
            self.inv(),
            self.follows(tree),
            tree.describes(),
        ensures
            answered(self.frames) < reads(tree),
    {
        let depth = self.frames.len() as int;
        self.lemma_node_reads(tree, depth);
        self.lemma_node(tree, depth);
        assert(self.frames.take(depth) =~= self.frames);
    }

    /// A traversal on its way through the tree that describes the
    /// filesystem ends with exactly that tree, within as many reads as the
    /// tree still takes.
    pub proof fn lemma_run_rebuilds(self, tree: EntryModel, fuel: nat)
        requires
            self.inv(),
            self.follows(tree),
            tree.describes(),
            answered(self.frames) + fuel >= reads(tree),
        ensures
            self.run(tree, fuel) == ProgressModel::Finished(
                FileTreeModel { root_path: self.root_path, root_entry: tree },
            ),
        decreases fuel,
    {
        self.lemma_reads_left(tree);
        self.lemma_advance_follows(tree);
        let found = answer(tree, self.request())->0;
        self.lemma_advance(found);
        self.lemma_advance_answered(found);
        match self.advance(found) {
            ProgressModel::Pending(next) => {
                next.lemma_run_rebuilds(tree, (fuel - 1) as nat);
            },
            ProgressModel::Finished(built) => {},
        }
    }
}

/// A traversal of the filesystem that `tree` describes, started under the
/// tree's name, rebuilds `tree`: it ends with that tree and the path it was
/// given, after no more reads than the tree has directories, links and files.
pub proof fn lemma_walk_rebuilds(root_path: std::path::PathBuf, tree: EntryModel)
    requires
        tree.describes(),
    ensures
        WalkModel::fresh(root_path, tree.name).run(tree, reads(tree)) == ProgressModel::Finished(
            FileTreeModel { root_path, root_entry: tree },
        ),
{
    WalkModel::lemma_fresh_follows(root_path, tree);
    WalkModel::fresh(root_path, tree.name).lemma_run_rebuilds(tree, reads(tree));
}

} // verus!
