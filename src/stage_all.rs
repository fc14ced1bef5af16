//! Staging every file of the working directory at once.
use vstd::prelude::*;
use crate::error::GitError;
use crate::index::{Index, IndexV};
use crate::object::{object_id, refused, ObjectV};
use crate::store::clashes;
use crate::pathmap::{map_of, FileV};
use crate::repo::{add_spec, grows, Repository};

verus! {

/// The index entries that staging every file of `files` gives: each file's
/// mode with the id of its content as a blob.
pub open spec fn blob_entries(files: Map<Seq<u8>, FileV>) -> Map<Seq<u8>, FileV> {
    Map::new(
        |p: Seq<u8>| files.contains_key(p),
        |p: Seq<u8>| (files[p].0, object_id(ObjectV::Blob(files[p].1))),
    )
}

/// The index once every file of `files` is staged: their entries replace
/// stage 0 at their paths, and their conflict stages are dropped.
pub open spec fn stage_files(i: IndexV, files: Map<Seq<u8>, FileV>) -> IndexV {
    IndexV {
        entries: i.entries.union_prefer_right(blob_entries(files)),
        base: i.base.remove_keys(files.dom()),
        ours: i.ours.remove_keys(files.dom()),
        theirs: i.theirs.remove_keys(files.dom()),
    }
}

/// Staging every file of `files` into a store holding `objs` succeeds: no
/// blob is refused by the digest, none clashes with a stored object, and no
/// two files of different content share an id.
pub open spec fn stages_cleanly(objs: Map<Seq<u8>, ObjectV>, files: Map<Seq<u8>, FileV>) -> bool {
    &&& forall|p: Seq<u8>| #[trigger] files.contains_key(p) ==> !refused(ObjectV::Blob(files[p].1))
        && !clashes(objs, ObjectV::Blob(files[p].1))
    &&& forall|p: Seq<u8>, q: Seq<u8>|
        #[trigger] files.contains_key(p) && #[trigger] files.contains_key(q) && object_id(ObjectV::Blob(files[p].1))
            == object_id(ObjectV::Blob(files[q].1)) ==> files[p].1 == files[q].1
}

impl Index {
    /// A copy with the same entries at every stage.
    pub fn copy(&self) -> (r: Index)
        requires
            self.wf(),
        ensures
            r.wf(),
            r@ == self@,
    {
        Index {
            entries: self.entries.copy(),
            base: self.base.copy(),
            ours: self.ours.copy(),
            theirs: self.theirs.copy(),
        }
    }
}

impl Repository {
    /// Stages every file of the working directory. On failure the index is
    /// left as it was.
    pub fn add_all(&mut self) -> (r: Result<(), GitError>)
        requires
            old(self).wf(),
        ensures
            final(self).wf(),
            grows(old(self).objects@, final(self).objects@),
            final(self).workdir@ == old(self).workdir@,
            final(self).branches@ == old(self).branches@,
            final(self).head@ == old(self).head@,
            r is Err ==> final(self).index@ == old(self).index@ && (r == Err::<(), GitError>(GitError::Corrupt)
                || r == Err::<(), GitError>(GitError::Digest)),
            r is Ok <==> stages_cleanly(old(self).objects@, old(self).workdir@),
            r == Err::<(), GitError>(GitError::Digest) ==> exists|p: Seq<u8>| #[trigger]
                old(self).workdir@.contains_key(p) && refused(ObjectV::Blob(old(self).workdir@[p].1)),
            r is Ok ==> final(self).index@ == stage_files(old(self).index@, old(self).workdir@),
            r is Ok ==> forall|p: Seq<u8>| #[trigger]
                old(self).workdir@.contains_key(p) ==> final(self).objects@.contains_key(
                    object_id(ObjectV::Blob(old(self).workdir@[p].1)),
                ) && final(self).objects@[object_id(ObjectV::Blob(old(self).workdir@[p].1))] == ObjectV::Blob(
                    old(self).workdir@[p].1,
                ),
    {
        let saved = self.index.copy();
        let files = self.workdir.copy();
        let ghost start = *self;
        let ghost ws = files.seq();
        let mut i: usize = 0;
        proof {
            let e = map_of(ws.subrange(0, 0));
            assert(e =~= Map::empty());
            let want = stage_files(start.index@, e);
            assert(self.index@.entries =~= want.entries);
            assert(self.index@.base =~= want.base);
            assert(self.index@.ours =~= want.ours);
            assert(self.index@.theirs =~= want.theirs);
        }
        while i < files.entries.len()
            invariant
                self.wf(),
                saved.wf(),
                saved@ == start.index@,
                start == *old(self),
                files.wf(),
                ws == files.seq(),
                files@ == start.workdir@,
                i <= ws.len(),
                grows(start.objects@, self.objects@),
                self.workdir@ == start.workdir@,
                self.branches@ == start.branches@,
                self.head@ == start.head@,
                self.index@ == stage_files(start.index@, map_of(ws.subrange(0, i as int))),
                forall|id: Seq<u8>| #[trigger]
                    self.objects@.contains_key(id) ==> (start.objects@.contains_key(id) && self.objects@[id]
                        == start.objects@[id]) || exists|p: Seq<u8>| #[trigger]
                        map_of(ws.subrange(0, i as int)).contains_key(p) && id == object_id(
                            ObjectV::Blob(start.workdir@[p].1),
                        ),
                forall|p: Seq<u8>| #[trigger]
                    map_of(ws.subrange(0, i as int)).contains_key(p) ==> self.objects@.contains_key(
                        object_id(ObjectV::Blob(start.workdir@[p].1)),
                    ) && self.objects@[object_id(ObjectV::Blob(start.workdir@[p].1))] == ObjectV::Blob(
                        start.workdir@[p].1,
                    ) && !refused(ObjectV::Blob(start.workdir@[p].1)),
            decreases ws.len() - i,
        {
            let ghost before = *self;
            let ghost q = ws[i as int].0;
            proof {
                crate::pathmap::lemma_map_of_value(ws, i as int);
            }
            let res = self.add(files.entries[i].path.as_slice());
            assert(add_spec(before, *self, q, res));
            match res {
                Ok(()) => {},
                Err(e) => {
                    proof {
                        assert(before.same_state(&*self));
                        assert forall|id: Seq<u8>| #[trigger] start.objects@.contains_key(id) implies self.objects@.contains_key(id)
                            && self.objects@[id] == start.objects@[id] by {
                            assert(before.objects@.contains_key(id));
                        }
                        assert(start.workdir@.contains_key(q));
                        let blob = ObjectV::Blob(start.workdir@[q].1);
                        assert(start.workdir@[q].1 == ws[i as int].2);
                        if e == GitError::Corrupt {
                            let kid = object_id(blob);
                            assert(before.objects@.contains_key(kid));
                            if !(start.objects@.contains_key(kid) && before.objects@[kid] == start.objects@[kid]) {
                                let p = choose|p: Seq<u8>| #[trigger]
                                    map_of(ws.subrange(0, i as int)).contains_key(p) && kid == object_id(
                                        ObjectV::Blob(start.workdir@[p].1),
                                    );
                                assert(before.objects@[kid] == ObjectV::Blob(start.workdir@[p].1));
                                crate::pathmap::lemma_map_of_domain(ws.subrange(0, i as int), p);
                                let k = choose|k: int| 0 <= k < i && #[trigger] ws.subrange(0, i as int)[k].0 == p;
                                crate::pathmap::lemma_map_of_value(ws, k);
                                assert(start.workdir@.contains_key(p));
                            } else {
                                assert(clashes(start.objects@, blob));
                            }
                        }
                        assert(!stages_cleanly(start.objects@, start.workdir@));
                    }
                    self.index = saved;
                    return Err(e);
                },
            }
            proof {
                let pre = ws.subrange(0, i as int);
                let post = ws.subrange(0, i + 1);
                assert(post.drop_last() =~= pre);
                assert(map_of(post) == map_of(pre).insert(q, (ws[i as int].1, ws[i as int].2)));
                let blob = ObjectV::Blob(start.workdir@[q].1);
                assert forall|id: Seq<u8>| #[trigger] start.objects@.contains_key(id) implies self.objects@.contains_key(id)
                    && self.objects@[id] == start.objects@[id] by {
                    assert(before.objects@.contains_key(id));
                }
                assert forall|p: Seq<u8>| #[trigger] map_of(post).contains_key(p) implies self.objects@.contains_key(
                    object_id(ObjectV::Blob(start.workdir@[p].1)),
                ) && self.objects@[object_id(ObjectV::Blob(start.workdir@[p].1))] == ObjectV::Blob(
                    start.workdir@[p].1,
                ) && !refused(ObjectV::Blob(start.workdir@[p].1)) by {
                    if p != q {
                        assert(map_of(pre).contains_key(p));
                        assert(before.objects@.contains_key(object_id(ObjectV::Blob(start.workdir@[p].1))));
                    }
                }
                assert forall|id: Seq<u8>| #[trigger] self.objects@.contains_key(id) implies (
                start.objects@.contains_key(id) && self.objects@[id] == start.objects@[id]) || exists|p: Seq<u8>|
                    #[trigger] map_of(post).contains_key(p) && id == object_id(ObjectV::Blob(start.workdir@[p].1)) by {
                    if id == object_id(blob) {
                        assert(map_of(post).contains_key(q));
                    } else {
                        assert(before.objects@.contains_key(id));
                        if !(start.objects@.contains_key(id) && before.objects@[id] == start.objects@[id]) {
                            let p = choose|p: Seq<u8>| #[trigger]
                                map_of(pre).contains_key(p) && id == object_id(ObjectV::Blob(start.workdir@[p].1));
                            assert(map_of(post).contains_key(p));
                        }
                    }
                }
                let want = stage_files(start.index@, map_of(post));
                assert(self.index@.entries =~= want.entries);
                assert(self.index@.base =~= want.base);
                assert(self.index@.ours =~= want.ours);
                assert(self.index@.theirs =~= want.theirs);
            }
            i = i + 1;
        }
        proof {
            assert(ws.subrange(0, i as int) =~= ws);
            assert forall|p: Seq<u8>| #[trigger] start.workdir@.contains_key(p) implies self.objects@.contains_key(
                object_id(ObjectV::Blob(start.workdir@[p].1)),
            ) && self.objects@[object_id(ObjectV::Blob(start.workdir@[p].1))] == ObjectV::Blob(
                start.workdir@[p].1,
            ) by {
                assert(map_of(ws.subrange(0, i as int)).contains_key(p));
            }
            let fin = self.objects@;
            assert forall|p: Seq<u8>| #[trigger] start.workdir@.contains_key(p) implies !refused(
                ObjectV::Blob(start.workdir@[p].1),
            ) && !clashes(start.objects@, ObjectV::Blob(start.workdir@[p].1)) by {
                assert(map_of(ws.subrange(0, i as int)).contains_key(p));
                assert(fin.contains_key(object_id(ObjectV::Blob(start.workdir@[p].1))));
            }
            assert forall|p: Seq<u8>, q: Seq<u8>|
                #[trigger] start.workdir@.contains_key(p) && #[trigger] start.workdir@.contains_key(q) && object_id(
                    ObjectV::Blob(start.workdir@[p].1),
                ) == object_id(ObjectV::Blob(start.workdir@[q].1)) implies start.workdir@[p].1
                == start.workdir@[q].1 by {
                assert(map_of(ws.subrange(0, i as int)).contains_key(p));
                assert(map_of(ws.subrange(0, i as int)).contains_key(q));
            }
        }
        Ok(())
    }
}

} // verus!
