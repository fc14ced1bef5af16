//! A repository: the object store, the index, the working directory, the
//! branches and HEAD, with the operations that add, commit and branch.
use vstd::prelude::*;
use crate::bytes::{copy_bytes, to_bytes};
use crate::error::GitError;
use crate::index::{stage_spec, Index, IndexV};
use crate::object::{ids_view, object_id, Commit, CommitV, Object, ObjectV, Signature};
use crate::pathmap::{map_of, sorted, EntryV, FileV, PathMap};
use crate::store::{put_spec, store_both, store_outcome, ObjectStore};

verus! {

/// The mode of a regular, non-executable file.
pub const REGULAR_FILE: u32 = 33188;

/// Where HEAD points: at a branch (attached) or straight at a commit (detached).
pub enum Head {
    Branch(Vec<u8>),
    Detached(Vec<u8>),
}

pub enum HeadV {
    Branch(Seq<u8>),
    Detached(Seq<u8>),
}

impl Head {
    pub open spec fn view(&self) -> HeadV {
        match self {
            Head::Branch(b) => HeadV::Branch(b@),
            Head::Detached(id) => HeadV::Detached(id@),
        }
    }
}

pub type Objects = Map<Seq<u8>, ObjectV>;

/// The commit stored under `id`, if there is one.
pub open spec fn commit_at(objs: Objects, id: Seq<u8>) -> Option<CommitV> {
    if objs.contains_key(id) {
        match objs[id] {
            ObjectV::Commit(c) => Some(c),
            _ => None,
        }
    } else {
        None
    }
}

/// The entries of the tree stored under `id`, if there is one.
pub open spec fn tree_at(objs: Objects, id: Seq<u8>) -> Option<Seq<EntryV>> {
    if objs.contains_key(id) {
        match objs[id] {
            ObjectV::Tree(t) => Some(t),
            _ => None,
        }
    } else {
        None
    }
}

/// The entries of the tree of the commit stored under `id`.
pub open spec fn commit_tree_at(objs: Objects, id: Seq<u8>) -> Option<Seq<EntryV>> {
    match commit_at(objs, id) {
        Some(c) => tree_at(objs, c.tree),
        None => None,
    }
}

/// Every stored tree lists its paths in order.
pub open spec fn trees_sorted(objs: Objects) -> bool {
    forall|id: Seq<u8>| #[trigger] objs.contains_key(id) ==> (objs[id] matches ObjectV::Tree(t) ==> sorted(t))
}

/// The objects only grow: whatever was stored stays, under the same id.
pub open spec fn grows(before: Objects, after: Objects) -> bool {
    forall|id: Seq<u8>| #[trigger] before.contains_key(id) ==> after.contains_key(id) && after[id] == before[id]
}

/// The commit HEAD points at: the target of its branch, or its own id when detached.
pub open spec fn head_target(head: HeadV, branches: Map<Seq<u8>, FileV>) -> Option<Seq<u8>> {
    match head {
        HeadV::Branch(b) => if branches.contains_key(b) {
            Some(branches[b].1)
        } else {
            None
        },
        HeadV::Detached(id) => Some(id),
    }
}

/// The branches once HEAD's target is moved to `id`.
pub open spec fn moved_branches(head: HeadV, branches: Map<Seq<u8>, FileV>, id: Seq<u8>) -> Map<
    Seq<u8>,
    FileV,
> {
    match head {
        HeadV::Branch(b) => branches.insert(b, (0, id)),
        HeadV::Detached(_) => branches,
    }
}

/// HEAD once its target is moved to `id`.
pub open spec fn moved_head(head: HeadV, id: Seq<u8>) -> HeadV {
    match head {
        HeadV::Branch(b) => HeadV::Branch(b),
        HeadV::Detached(_) => HeadV::Detached(id),
    }
}

/// The name `main`.
fn main_branch() -> (r: Vec<u8>)
    ensures
        r@ == seq![109u8, 97u8, 105u8, 110u8],
{
    let mut r: Vec<u8> = Vec::new();
    r.push(109u8);
    r.push(97u8);
    r.push(105u8);
    r.push(110u8);
    assert(r@ =~= seq![109u8, 97u8, 105u8, 110u8]);
    r
}

pub struct Repository {
    pub objects: ObjectStore,
    pub index: Index,
    /// The working directory: path to (mode, content).
    pub workdir: PathMap,
    /// The branches: name to (0, commit id).
    pub branches: PathMap,
    pub head: Head,
}

impl Repository {
    pub open spec fn wf(&self) -> bool {
        &&& self.objects.wf()
        &&& self.index.wf()
        &&& self.workdir.wf()
        &&& self.branches.wf()
        &&& trees_sorted(self.objects@)
    }

    pub open spec fn head_id(&self) -> Option<Seq<u8>> {
        head_target(self.head@, self.branches@)
    }

    /// Only the object store may have changed, and only by growing.
    pub open spec fn same_state(&self, other: &Repository) -> bool {
        &&& other.index@ == self.index@
        &&& other.workdir@ == self.workdir@
        &&& other.branches@ == self.branches@
        &&& other.head@ == self.head@
        &&& grows(self.objects@, other.objects@)
    }

    /// An empty repository with HEAD on the unborn branch `main`.
    pub fn new() -> (r: Repository)
        ensures
            r.wf(),
            r.objects@ == Objects::empty(),
            r.index@ == IndexV::clean(Map::empty()),
            r.workdir@ == Map::<Seq<u8>, FileV>::empty(),
            r.branches@ == Map::<Seq<u8>, FileV>::empty(),
            r.head@ == HeadV::Branch(seq![109u8, 97u8, 105u8, 110u8]),
    {
        let r = Repository {
            objects: ObjectStore::new(),
            index: Index::new(),
            workdir: PathMap::new(),
            branches: PathMap::new(),
            head: Head::Branch(main_branch()),
        };
        r
    }

    /// Writes a regular file into the working directory.
    pub fn write_file(&mut self, path: Vec<u8>, content: Vec<u8>)
        requires
            old(self).wf(),
        ensures
            final(self).wf(),
            final(self).workdir@ == old(self).workdir@.insert(path@, (REGULAR_FILE, content@)),
            final(self).objects@ == old(self).objects@,
            final(self).index@ == old(self).index@,
            final(self).branches@ == old(self).branches@,
            final(self).head@ == old(self).head@,
    {
        self.workdir.insert(path, REGULAR_FILE, content);
    }

    /// Removes a file from the working directory.
    pub fn delete_file(&mut self, path: &[u8])
        requires
            old(self).wf(),
        ensures
            final(self).wf(),
            final(self).workdir@ == old(self).workdir@.remove(path@),
            final(self).objects@ == old(self).objects@,
            final(self).index@ == old(self).index@,
            final(self).branches@ == old(self).branches@,
            final(self).head@ == old(self).head@,
    {
        self.workdir.remove(path);
    }

    /// The content of a file of the working directory.
    pub fn read_file(&self, path: &[u8]) -> (r: Option<&Vec<u8>>)
        requires
            self.wf(),
        ensures
            r is None <==> !self.workdir@.contains_key(path@),
            r matches Some(c) ==> c@ == self.workdir@[path@].1,
    {
        match self.workdir.find(path) {
            Some(i) => Some(&self.workdir.entries[i].data),
            None => None,
        }
    }

    /// Stores `o` and keeps the invariant of the repository.
    pub(crate) fn store(&mut self, o: Object) -> (r: Result<Vec<u8>, GitError>)
        requires
            old(self).wf(),
            o@ matches ObjectV::Tree(t) ==> sorted(t),
        ensures
            final(self).wf(),
            put_spec(old(self).objects@, final(self).objects@, o@, r),
            old(self).same_state(final(self)),
            final(self).index.entries.seq() == old(self).index.entries.seq(),
    {
        let ghost ov = o@;
        let r = self.objects.put(o);
        proof {
            assert forall|id: Seq<u8>| #[trigger] self.objects@.contains_key(id) implies (
            self.objects@[id] matches ObjectV::Tree(t) ==> sorted(t)) by {
                if id != object_id(ov) {
                    assert(old(self).objects@.contains_key(id));
                }
            }
        }
        r
    }

    /// Stages the working-directory copy of `path`: its content is stored as
    /// a blob and the index entry of `path` is set to it.
    pub fn add(&mut self, path: &[u8]) -> (r: Result<(), GitError>)
        requires
            old(self).wf(),
        ensures
            final(self).wf(),
            add_spec(*old(self), *final(self), path@, r),
    {
        let (mode, content) = match self.workdir.find(path) {
            Some(i) => (self.workdir.entries[i].mode, copy_bytes(&self.workdir.entries[i].data)),
            None => {
                return Err(GitError::NotFound);
            },
        };
        let ghost blob = ObjectV::Blob(content@);
        match self.store(Object::Blob(content)) {
            Ok(id) => {
                self.index.stage(to_bytes(path), mode, id);
                Ok(())
            },
            Err(e) => Err(e),
        }
    }

    /// Stores the index's stage-0 entries as a tree and returns its id.
    pub fn write_tree(&mut self) -> (r: Result<Vec<u8>, GitError>)
        requires
            old(self).wf(),
        ensures
            final(self).wf(),
            write_tree_spec(*old(self), *final(self), r),
    {
        if self.index.has_conflicts() {
            return Err(GitError::Conflict);
        }
        let t = self.index.entries.copy();
        self.store(Object::Tree(t))
    }

    /// Replaces the index with the entries of the tree stored under `id`;
    /// conflict stages are dropped.
    pub fn read_tree(&mut self, id: &[u8]) -> (r: Result<(), GitError>)
        requires
            old(self).wf(),
        ensures
            final(self).wf(),
            read_tree_spec(*old(self), *final(self), id@, r),
    {
        let t = match self.objects.get(id) {
            Some(Object::Tree(t)) => t.copy(),
            _ => {
                return Err(GitError::NotFound);
            },
        };
        self.index = Index::from_entries(t);
        Ok(())
    }

    /// The commit HEAD points at, if HEAD resolves.
    pub fn head_commit(&self) -> (r: Option<Vec<u8>>)
        requires
            self.wf(),
        ensures
            r is None <==> self.head_id() is None,
            r matches Some(id) ==> self.head_id() == Some(id@),
    {
        match &self.head {
            Head::Branch(b) => match self.branches.find(b.as_slice()) {
                Some(i) => Some(copy_bytes(&self.branches.entries[i].data)),
                None => None,
            },
            Head::Detached(id) => Some(copy_bytes(id)),
        }
    }

    /// Points HEAD's target (its branch, or HEAD itself when detached) at `id`.
    pub(crate) fn move_head(&mut self, id: Vec<u8>)
        requires
            old(self).wf(),
        ensures
            final(self).wf(),
            final(self).branches@ == moved_branches(old(self).head@, old(self).branches@, id@),
            final(self).head@ == moved_head(old(self).head@, id@),
            final(self).objects@ == old(self).objects@,
            final(self).index@ == old(self).index@,
            final(self).workdir@ == old(self).workdir@,
    {
        match &self.head {
            Head::Branch(b) => {
                let name = copy_bytes(b);
                self.branches.insert(name, 0, id);
            },
            Head::Detached(_) => {
                self.head = Head::Detached(id);
            },
        }
    }

    /// Stores a commit of `tree` with the given parents and message, and moves
    /// HEAD's target to it.
    pub(crate) fn record_commit(
        &mut self,
        tree: Vec<u8>,
        parents: Vec<Vec<u8>>,
        message: Vec<u8>,
        author: &Signature,
    ) -> (r: Result<Vec<u8>, GitError>)
        requires
            old(self).wf(),
        ensures
            final(self).wf(),
            record_commit_spec(
                *old(self),
                *final(self),
                CommitV {
                    tree: tree@,
                    parents: ids_view(parents@),
                    author: author@,
                    committer: author@,
                    message: message@,
                },
                r,
            ),
    {
        let c = Commit {
            tree,
            parents,
            author: Signature { name: copy_bytes(&author.name), time: author.time },
            committer: Signature { name: copy_bytes(&author.name), time: author.time },
            message,
        };
        match self.store(Object::Commit(c)) {
            Ok(id) => {
                self.move_head(copy_bytes(&id));
                Ok(id)
            },
            Err(e) => Err(e),
        }
    }

    /// Records the index as a new commit on top of HEAD and moves HEAD's
    /// target to it.
    pub fn commit(&mut self, message: &[u8], author: &Signature) -> (r: Result<Vec<u8>, GitError>)
        requires
            old(self).wf(),
        ensures
            final(self).wf(),
            commit_spec(*old(self), *final(self), message@, author@, r),
    {
        let tree = match self.write_tree() {
            Ok(t) => t,
            Err(e) => {
                return Err(e);
            },
        };
        let mut parents: Vec<Vec<u8>> = Vec::new();
        match self.head_commit() {
            Some(p) => parents.push(p),
            None => {},
        }
        let c = Commit {
            tree,
            parents,
            author: Signature { name: copy_bytes(&author.name), time: author.time },
            committer: Signature { name: copy_bytes(&author.name), time: author.time },
            message: to_bytes(message),
        };
        proof {
            assert(ids_view(c.parents@) =~= commit_parents(*old(self)));
        }
        match self.store(Object::Commit(c)) {
            Ok(id) => {
                self.move_head(copy_bytes(&id));
                Ok(id)
            },
            Err(e) => Err(e),
        }
    }
}

/// The parents of a commit made now: HEAD's commit, if HEAD resolves.
pub open spec fn commit_parents(r: Repository) -> Seq<Seq<u8>> {
    match r.head_id() {
        Some(id) => seq![id],
        None => Seq::empty(),
    }
}

pub open spec fn record_commit_spec(before: Repository, after: Repository, c: CommitV, r: Result<Vec<u8>, GitError>) -> bool {
    &&& (r is Ok <==> store_outcome(before.objects@, ObjectV::Commit(c)) is None)
    &&& (r matches Err(e) ==> store_outcome(before.objects@, ObjectV::Commit(c)) == Some(e))
    &&& after.index@ == before.index@
    &&& after.workdir@ == before.workdir@
    &&& grows(before.objects@, after.objects@)
    &&& match r {
        Ok(id) => {
            &&& after.objects@ == before.objects@.insert(id@, ObjectV::Commit(c))
            &&& (before.objects@.contains_key(id@) ==> before.objects@[id@] == ObjectV::Commit(c))
            &&& id@ == object_id(ObjectV::Commit(c))
            &&& after.branches@ == moved_branches(before.head@, before.branches@, id@)
            &&& after.head@ == moved_head(before.head@, id@)
        },
        Err(e) => {
            &&& after.objects@ == before.objects@
            &&& after.branches@ == before.branches@
            &&& after.head@ == before.head@
            &&& (e == GitError::Corrupt || e == GitError::Digest)
        },
    }
}

pub open spec fn add_spec(before: Repository, after: Repository, path: Seq<u8>, r: Result<(), GitError>) -> bool {
    &&& (r == Err::<(), GitError>(GitError::NotFound) <==> !before.workdir@.contains_key(path))
    &&& before.workdir@.contains_key(path) ==> {
        let blob = ObjectV::Blob(before.workdir@[path].1);
        &&& (r is Ok <==> store_outcome(before.objects@, blob) is None)
        &&& (r matches Err(e) ==> store_outcome(before.objects@, blob) == Some(e))
    }
    &&& match r {
        Ok(_) => {
            let f = before.workdir@[path];
            let blob = ObjectV::Blob(f.1);
            &&& after.objects@ == before.objects@.insert(object_id(blob), blob)
            &&& (before.objects@.contains_key(object_id(blob)) ==> before.objects@[object_id(blob)] == blob)
            &&& after.index@ == stage_spec(before.index@, path, (f.0, object_id(blob)))
            &&& after.workdir@ == before.workdir@
            &&& after.branches@ == before.branches@
            &&& after.head@ == before.head@
        },
        Err(e) => before.same_state(&after) && (e == GitError::NotFound || e == GitError::Corrupt || e
            == GitError::Digest),
    }
}

pub open spec fn write_tree_spec(before: Repository, after: Repository, r: Result<Vec<u8>, GitError>) -> bool {
    &&& before.same_state(&after)
    &&& after.index.entries.seq() == before.index.entries.seq()
    &&& (r == Err::<Vec<u8>, GitError>(GitError::Conflict) <==> before.index@.has_conflicts())
    &&& !before.index@.has_conflicts() ==> put_spec(
        before.objects@,
        after.objects@,
        ObjectV::Tree(before.index.entries.seq()),
        r,
    )
}

pub open spec fn read_tree_spec(before: Repository, after: Repository, id: Seq<u8>, r: Result<(), GitError>) -> bool {
    &&& after.objects@ == before.objects@
    &&& after.workdir@ == before.workdir@
    &&& after.branches@ == before.branches@
    &&& after.head@ == before.head@
    &&& match tree_at(before.objects@, id) {
        Some(t) => r is Ok && after.index@ == IndexV::clean(map_of(t)) && after.index.entries.seq() == t,
        None => r == Err::<(), GitError>(GitError::NotFound) && after.index@ == before.index@,
    }
}

pub open spec fn commit_spec(
    before: Repository,
    after: Repository,
    message: Seq<u8>,
    author: (Seq<u8>, u64),
    r: Result<Vec<u8>, GitError>,
) -> bool {
    let tree = ObjectV::Tree(before.index.entries.seq());
    let c = CommitV {
        tree: object_id(tree),
        parents: commit_parents(before),
        author,
        committer: author,
        message,
    };
    &&& (r == Err::<Vec<u8>, GitError>(GitError::Conflict) <==> before.index@.has_conflicts())
    &&& grows(before.objects@, after.objects@)
    &&& !before.index@.has_conflicts() ==> (r is Ok <==> store_both(before.objects@, tree, ObjectV::Commit(c)) is None)
    &&& !before.index@.has_conflicts() ==> (r matches Err(e) ==> store_both(before.objects@, tree, ObjectV::Commit(c))
        == Some(e))
    &&& after.index@ == before.index@
    &&& after.workdir@ == before.workdir@
    &&& (r matches Err(e) ==> e == GitError::Conflict || e == GitError::Corrupt || e == GitError::Digest)
    &&& match r {
        Ok(id) => {
            &&& id@ == object_id(ObjectV::Commit(c))
            &&& after.objects@.contains_key(object_id(tree)) && after.objects@[object_id(tree)] == tree
            &&& after.objects@.contains_key(id@) && after.objects@[id@] == ObjectV::Commit(c)
            &&& after.branches@ == moved_branches(before.head@, before.branches@, id@)
            &&& after.head@ == moved_head(before.head@, id@)
        },
        Err(_) => after.branches@ == before.branches@ && after.head@ == before.head@,
    }
}

} // verus!
