//! Properties that hold across operations, stated over the operations'
//! contracts and proved.
use vstd::prelude::*;
use crate::error::GitError;
use crate::index::IndexV;
use crate::merge::{agrees_where_changed, cell_at, merge_index, merge_inputs, merge_spec, merge_worktree};
use crate::object::{object_id, ObjectV};
use crate::ops::{reset_spec, revert_spec, ResetMode};
use crate::pathmap::{map_of, FileV};
use crate::refs::delete_branch_spec;
use crate::repo::{add_spec, commit_at, commit_spec, commit_tree_at, read_tree_spec, write_tree_spec, HeadV, Objects, Repository};
use crate::store::put_spec;
use crate::sync::{at, blob_at, blobs_present, checked_out, file_content, touched};

verus! {

/// Content addressing: equal byte strings stored as blobs get the same id,
/// and storing a blob a second time leaves the store exactly as it was.
pub proof fn law_content_addressing(
    s0: Objects,
    s1: Objects,
    s2: Objects,
    b1: Seq<u8>,
    b2: Seq<u8>,
    r1: Result<Vec<u8>, GitError>,
    r2: Result<Vec<u8>, GitError>,
)
    requires
        b1 == b2,
        put_spec(s0, s1, ObjectV::Blob(b1), r1),
        put_spec(s1, s2, ObjectV::Blob(b2), r2),
        r1 is Ok,
    ensures
        r2 is Ok,
        r2->Ok_0@ == r1->Ok_0@,
        s2 == s1,
{
    let id = r1->Ok_0@;
    assert(s1.contains_key(id) && s1[id] == ObjectV::Blob(b1));
    assert(s1.insert(id, ObjectV::Blob(b1)) =~= s1);
}

/// Staging a file again, unchanged, succeeds and changes neither the store
/// nor the index.
pub proof fn law_re_add_unchanged(
    r0: Repository,
    r1: Repository,
    r2: Repository,
    path: Seq<u8>,
    rr: Result<(), GitError>,
)
    requires
        add_spec(r0, r1, path, Ok(())),
        add_spec(r1, r2, path, rr),
    ensures
        rr is Ok,
        r2.objects@ == r1.objects@,
        r2.index@ == r1.index@,
{
    let blob = ObjectV::Blob(r0.workdir@[path].1);
    let id = object_id(blob);
    assert(r1.objects@.contains_key(id) && r1.objects@[id] == blob);
    assert(r1.objects@.insert(id, blob) =~= r1.objects@);
    let i2 = r2.index@;
    let i1 = r1.index@;
    assert(i2.entries =~= i1.entries);
    assert(i2.base =~= i1.base);
    assert(i2.ours =~= i1.ours);
    assert(i2.theirs =~= i1.theirs);
}

/// Reading back the tree just written from an unconflicted index gives the
/// same index.
pub proof fn law_tree_round_trip(
    r0: Repository,
    r1: Repository,
    r2: Repository,
    id: Vec<u8>,
    rr: Result<(), GitError>,
)
    requires
        r0.wf(),
        !r0.index@.has_conflicts(),
        write_tree_spec(r0, r1, Ok(id)),
        read_tree_spec(r1, r2, id@, rr),
    ensures
        rr is Ok,
        r2.index@ == r0.index@,
        r2.index.entries.seq() == r0.index.entries.seq(),
{
    assert(r0.index@.base =~= Map::empty());
    assert(r0.index@.ours =~= Map::empty());
    assert(r0.index@.theirs =~= Map::empty());
}

/// Reverting a commit right after making it, from a working directory that
/// held the committed files, cannot fail for want of the commit, of a single
/// parent, or of a clean index and working directory: it fails only on a
/// damaged store or a refused digest. When it succeeds, every path that the
/// commit changed is back to the parent's version, in the working directory
/// and in the index.
pub proof fn law_revert_undoes_commit(
    r0: Repository,
    r1: Repository,
    r2: Repository,
    message: Seq<u8>,
    author: (Seq<u8>, u64),
    c: Vec<u8>,
    author2: (Seq<u8>, u64),
    rr: Result<Vec<u8>, GitError>,
)
    requires
        r0.wf(),
        r0.head_id() is Some,
        blobs_present(r0.objects@, r0.index@.entries),
        checked_out(r0.workdir@, r0.objects@, r0.index@.entries),
        commit_spec(r0, r1, message, author, Ok(c)),
        revert_spec(r1, r2, c@, author2, rr),
    ensures
        rr is Err ==> rr == Err::<Vec<u8>, GitError>(GitError::Corrupt) || rr == Err::<Vec<u8>, GitError>(
            GitError::Digest,
        ),
        rr is Ok ==> commit_tree_at(r1.objects@, r0.head_id()->0) is Some,
        rr is Ok ==> forall|p: Seq<u8>|
            #![trigger touched(r0.index@.entries, map_of(commit_tree_at(r1.objects@, r0.head_id()->0)->0), p, false)]
            touched(
                r0.index@.entries,
                map_of(commit_tree_at(r1.objects@, r0.head_id()->0)->0),
                p,
                false,
            ) ==> {
                let parent = map_of(commit_tree_at(r1.objects@, r0.head_id()->0)->0);
                &&& at(r2.index@.entries, p) == at(parent, p)
                &&& at(r2.workdir@, p) == if parent.contains_key(p) {
                    Some((parent[p].0, blob_at(r1.objects@, parent[p].1)))
                } else {
                    None
                }
            },
{
    let h0 = r0.head_id()->0;
    let cv = commit_at(r1.objects@, c@)->0;
    assert(commit_at(r1.objects@, c@) is Some);
    assert(cv.parents == seq![h0]);
    assert(cv.parents[0] == h0);
    assert(commit_tree_at(r1.objects@, c@) == Some(r0.index.entries.seq()));
    assert(map_of(r0.index.entries.seq()) == r0.index@.entries);
    assert(r1.head_id() is Some);
    assert(!r1.index@.has_conflicts());
    if let Some(pt) = commit_tree_at(r1.objects@, h0) {
        assert(agrees_where_changed(r1.index@.entries, map_of(r0.index.entries.seq()), map_of(pt)));
        assert forall|p: Seq<u8>| #[trigger] touched(r0.index@.entries, map_of(pt), p, false) implies at(
            r1.workdir@,
            p,
        ) == file_content(r1.objects@, at(r0.index@.entries, p)) by {
            assert(at(r0.workdir@, p) == file_content(r0.objects@, at(r0.index@.entries, p)));
            if r0.index@.entries.contains_key(p) {
                assert(r0.objects@.contains_key(r0.index@.entries[p].1));
            }
        }
    }
}

/// A soft reset changes neither the index nor the working directory.
pub proof fn law_soft_reset_keeps_content(
    r0: Repository,
    r1: Repository,
    target: Seq<u8>,
    scope: Option<Seq<u8>>,
    rr: Result<(), GitError>,
)
    requires
        reset_spec(r0, r1, target, ResetMode::Soft, scope, rr),
    ensures
        r1.index@ == r0.index@,
        r1.workdir@ == r0.workdir@,
        r1.objects@ == r0.objects@,
{
}

/// After a hard reset every path in scope holds, in the working directory,
/// exactly the target tree's content (or is absent where the tree has none).
pub proof fn law_hard_reset_matches_tree(
    r0: Repository,
    r1: Repository,
    target: Seq<u8>,
    scope: Option<Seq<u8>>,
)
    requires
        reset_spec(r0, r1, target, ResetMode::Hard, scope, Ok(())),
    ensures
        commit_tree_at(r0.objects@, target) is Some,
        forall|p: Seq<u8>|
            #![trigger r1.workdir@.contains_key(p)]
            (scope is None || scope == Some(p)) && map_of(commit_tree_at(r0.objects@, target)->0).contains_key(p)
                ==> r1.workdir@.contains_key(p) && r1.workdir@[p] == (
                map_of(commit_tree_at(r0.objects@, target)->0)[p].0,
                blob_at(r0.objects@, map_of(commit_tree_at(r0.objects@, target)->0)[p].1),
            ),
        forall|p: Seq<u8>|
            scope == Some(p) && !map_of(commit_tree_at(r0.objects@, target)->0).contains_key(p)
                ==> !#[trigger] r1.workdir@.contains_key(p),
{
}

/// The inputs of the merge that `merge_spec` describes, when HEAD and the
/// branch resolve and their trees can be read.
pub open spec fn merge_trees_of(r: Repository, branch: Seq<u8>) -> Option<
    (Map<Seq<u8>, FileV>, Map<Seq<u8>, FileV>, Map<Seq<u8>, FileV>),
> {
    if r.branches@.contains_key(branch) && r.head_id() is Some {
        merge_inputs(r.objects@, r.head_id()->0, r.branches@[branch].1, r.objects.ids@.len() as nat)
    } else {
        None
    }
}

proof fn lemma_worktree_blobs(objs: Objects, b: Map<Seq<u8>, FileV>, o: Map<Seq<u8>, FileV>, t: Map<Seq<u8>, FileV>)
    requires
        blobs_present(objs, o),
        blobs_present(objs, t),
    ensures
        blobs_present(objs, merge_worktree(merge_index(b, o, t))),
{
    let w = merge_worktree(merge_index(b, o, t));
    assert forall|p: Seq<u8>| #[trigger] w.contains_key(p) implies objs.contains_key(w[p].1) && objs[w[p].1] is Blob by {
        if o.contains_key(p) {
            assert(objs.contains_key(o[p].1));
        }
        if t.contains_key(p) {
            assert(objs.contains_key(t[p].1));
        }
    }
}

/// Merging a branch whose changes touch no path that HEAD's side changed,
/// from an index and a working directory that hold HEAD's tree, never
/// conflicts and fails only on a clash in the store or a refused digest; when
/// it succeeds it commits with HEAD's commit and the branch's as the two
/// parents, and leaves no stages.
pub proof fn law_disjoint_merge_commits(
    r0: Repository,
    r1: Repository,
    branch: Seq<u8>,
    author: (Seq<u8>, u64),
    rr: Result<Vec<u8>, GitError>,
)
    requires
        r0.wf(),
        merge_spec(r0, r1, branch, author, rr),
        merge_trees_of(r0, branch) is Some,
        ({
            let (b, o, t) = merge_trees_of(r0, branch)->0;
            &&& r0.index@ == IndexV::clean(o)
            &&& checked_out(r0.workdir@, r0.objects@, o)
            &&& blobs_present(r0.objects@, o)
            &&& blobs_present(r0.objects@, t)
            &&& forall|p: Seq<u8>| #![auto] !(at(o, p) != at(b, p) && at(t, p) != at(b, p))
        }),
    ensures
        rr != Err::<Vec<u8>, GitError>(GitError::Conflict),
        rr is Err ==> rr == Err::<Vec<u8>, GitError>(GitError::Corrupt) || rr == Err::<Vec<u8>, GitError>(
            GitError::Digest,
        ),
        rr matches Ok(id) ==> r1.objects@.contains_key(id@) && r1.objects@[id@] is Commit
            && r1.objects@[id@]->Commit_0.parents == seq![r0.head_id()->0, r0.branches@[branch].1]
            && !r1.index@.has_conflicts(),
{
    let (b, o, t) = merge_trees_of(r0, branch)->0;
    let m = merge_index(b, o, t);
    lemma_worktree_blobs(r0.objects@, b, o, t);
    assert forall|p: Seq<u8>| !(#[trigger] cell_at(b, o, t, p) is Clash) by {
        assert(!(at(o, p) != at(b, p) && at(t, p) != at(b, p)));
    }
    assert(m.base =~= Map::empty());
    assert(m.ours =~= Map::empty());
    assert(m.theirs =~= Map::empty());
    assert(!m.has_conflicts());
    assert(r0.index@.entries == o);
}

/// Merging a branch that changed a path differently from HEAD's side, from an
/// index and a working directory that hold HEAD's tree, fails with
/// `Conflict`, keeps the base, ours and theirs versions of that path as
/// stages 1 to 3, and makes no commit.
pub proof fn law_clashing_merge_conflicts(
    r0: Repository,
    r1: Repository,
    branch: Seq<u8>,
    author: (Seq<u8>, u64),
    rr: Result<Vec<u8>, GitError>,
    q: Seq<u8>,
)
    requires
        r0.wf(),
        merge_spec(r0, r1, branch, author, rr),
        merge_trees_of(r0, branch) is Some,
        ({
            let (b, o, t) = merge_trees_of(r0, branch)->0;
            &&& r0.index@ == IndexV::clean(o)
            &&& checked_out(r0.workdir@, r0.objects@, o)
            &&& blobs_present(r0.objects@, o)
            &&& blobs_present(r0.objects@, t)
            &&& b.contains_key(q) && o.contains_key(q) && t.contains_key(q)
            &&& o[q] != b[q] && t[q] != b[q] && o[q] != t[q]
        }),
    ensures
        rr == Err::<Vec<u8>, GitError>(GitError::Conflict),
        r1.index@.base.contains_key(q),
        r1.index@.ours.contains_key(q),
        r1.index@.theirs.contains_key(q),
        r1.objects@ == r0.objects@,
        r1.branches@ == r0.branches@,
        r1.head@ == r0.head@,
{
    let (b, o, t) = merge_trees_of(r0, branch)->0;
    let m = merge_index(b, o, t);
    lemma_worktree_blobs(r0.objects@, b, o, t);
    assert(cell_at(b, o, t, q) is Clash);
    assert(m.base.contains_key(q));
    assert(m.has_conflicts()) by {
        assert(m.base.dom().contains(q));
    }
    assert(r0.index@.entries == o);
}

/// The branch HEAD is on cannot be deleted.
pub proof fn law_current_branch_not_deletable(
    r0: Repository,
    r1: Repository,
    name: Seq<u8>,
    rr: Result<(), GitError>,
)
    requires
        r0.head@ == HeadV::Branch(name),
        delete_branch_spec(r0, r1, name, rr),
    ensures
        rr == Err::<(), GitError>(GitError::InvalidState),
        r1.branches@ == r0.branches@,
{
}

} // verus!
