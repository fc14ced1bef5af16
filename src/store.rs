//! The content-addressed object store: every object is kept under the digest
//! of its canonical serialisation, once.
use vstd::prelude::*;
use crate::bytes::{bytes_eq, copy_bytes};
use crate::error::GitError;
use crate::object::{id_of, object_eq, object_id, refused, Object, ObjectV};

verus! {

pub struct ObjectStore {
    pub ids: Vec<Vec<u8>>,
    pub objects: Vec<Object>,
}

impl ObjectStore {
    pub open spec fn wf(&self) -> bool {
        &&& self.ids@.len() == self.objects@.len()
        &&& forall|i: int, j: int|
            0 <= i < j < self.ids@.len() ==> #[trigger] self.ids@[i]@ != #[trigger] self.ids@[j]@
    }

    pub open spec fn has(&self, id: Seq<u8>) -> bool {
        exists|i: int| 0 <= i < self.ids@.len() && #[trigger] self.ids@[i]@ == id
    }

    pub open spec fn view(&self) -> Map<Seq<u8>, ObjectV> {
        Map::new(
            |id: Seq<u8>| self.has(id),
            |id: Seq<u8>|
                self.objects@[choose|i: int| 0 <= i < self.ids@.len() && #[trigger] self.ids@[i]@ == id]@,
        )
    }

    proof fn lemma_at(&self, i: int)
        requires
            self.wf(),
            0 <= i < self.ids@.len(),
        ensures
            self@.contains_key(self.ids@[i]@),
            self@[self.ids@[i]@] == self.objects@[i]@,
    {
        let id = self.ids@[i]@;
        assert(self.has(id));
        let j = choose|j: int| 0 <= j < self.ids@.len() && #[trigger] self.ids@[j]@ == id;
        if j != i {
            if j < i {
                assert(self.ids@[j]@ != self.ids@[i]@);
            } else {
                assert(self.ids@[i]@ != self.ids@[j]@);
            }
        }
    }

    pub fn new() -> (r: ObjectStore)
        ensures
            r.wf(),
            r@ == Map::<Seq<u8>, ObjectV>::empty(),
    {
        let r = ObjectStore { ids: Vec::new(), objects: Vec::new() };
        assert(r@ =~= Map::<Seq<u8>, ObjectV>::empty());
        r
    }

    fn find(&self, id: &[u8]) -> (r: Option<usize>)
        requires
            self.wf(),
        ensures
            r is None <==> !self@.contains_key(id@),
            r matches Some(i) ==> i < self.ids@.len() && self.ids@[i as int]@ == id@
                && self@[id@] == self.objects@[i as int]@,
    {
        let mut i: usize = 0;
        while i < self.ids.len()
            invariant
                self.wf(),
                i <= self.ids@.len(),
                forall|k: int| 0 <= k < i ==> self.ids@[k]@ != id@,
            decreases self.ids@.len() - i,
        {
            if bytes_eq(self.ids[i].as_slice(), id) {
                proof {
                    self.lemma_at(i as int);
                }
                return Some(i);
            }
            i = i + 1;
        }
        None
    }

    /// The object stored under `id`.
    pub fn get(&self, id: &[u8]) -> (r: Option<&Object>)
        requires
            self.wf(),
        ensures
            r is None <==> !self@.contains_key(id@),
            r matches Some(o) ==> o@ == self@[id@],
    {
        match self.find(id) {
            Some(i) => Some(&self.objects[i]),
            None => None,
        }
    }

    /// Whether an object is stored under `id`.
    pub fn contains(&self, id: &[u8]) -> (r: bool)
        requires
            self.wf(),
        ensures
            r == self@.contains_key(id@),
    {
        self.find(id).is_some()
    }

    /// Checks the object stored under `id` against its id: `NotFound` when
    /// there is none, `Corrupt` when its digest names another id.
    pub fn check(&self, id: &[u8]) -> (r: Result<(), GitError>)
        requires
            self.wf(),
        ensures
            r == Err::<(), GitError>(GitError::NotFound) <==> !self@.contains_key(id@),
            r is Ok <==> self@.contains_key(id@) && !refused(self@[id@]) && object_id(self@[id@]) == id@,
            r == Err::<(), GitError>(GitError::Digest) <==> self@.contains_key(id@) && refused(self@[id@]),
            r == Err::<(), GitError>(GitError::Corrupt) <==> self@.contains_key(id@) && !refused(self@[id@])
                && object_id(self@[id@]) != id@,
    {
        match self.get(id) {
            None => Err(GitError::NotFound),
            Some(o) => match id_of(o) {
                Some(d) => if bytes_eq(d.as_slice(), id) {
                    Ok(())
                } else {
                    Err(GitError::Corrupt)
                },
                None => Err(GitError::Digest),
            },
        }
    }

    /// Stores `o` under its id, unless it is there already; two different
    /// objects under one id are reported as `Corrupt`.
    pub fn put(&mut self, o: Object) -> (r: Result<Vec<u8>, GitError>)
        requires
            old(self).wf(),
        ensures
            final(self).wf(),
            put_spec(old(self)@, final(self)@, o@, r),
    {
        let id = match id_of(&o) {
            Some(id) => id,
            None => {
                return Err(GitError::Digest);
            },
        };
        match self.find(id.as_slice()) {
            Some(i) => {
                if object_eq(&self.objects[i], &o) {
                    assert(self@.insert(id@, o@) =~= self@);
                    Ok(id)
                } else {
                    Err(GitError::Corrupt)
                }
            },
            None => {
                let ghost before = *self;
                self.ids.push(copy_bytes(&id));
                self.objects.push(o);
                proof {
                    let n = before.ids@.len() as int;
                    assert forall|a: int, b: int| 0 <= a < b < self.ids@.len() implies #[trigger] self.ids@[a]@
                        != #[trigger] self.ids@[b]@ by {
                        if b == n {
                            assert(!before.has(id@));
                            assert(before.ids@[a] == self.ids@[a]);
                        } else {
                            assert(before.ids@[a]@ != before.ids@[b]@);
                        }
                    }
                    assert forall|k: Seq<u8>| #![auto] self@.contains_key(k) == before@.insert(id@, o@).contains_key(k) by {
                        if before.has(k) {
                            let j = choose|j: int| 0 <= j < before.ids@.len() && #[trigger] before.ids@[j]@ == k;
                            assert(self.ids@[j]@ == k);
                        }
                        if self.has(k) && k != id@ {
                            let j = choose|j: int| 0 <= j < self.ids@.len() && #[trigger] self.ids@[j]@ == k;
                            assert(before.ids@[j]@ == k);
                        }
                        assert(self.ids@[n]@ == id@);
                    }
                    assert forall|k: Seq<u8>| #![auto] self@.contains_key(k) implies self@[k] == before@.insert(id@, o@)[k] by {
                        let j = choose|j: int| 0 <= j < self.ids@.len() && #[trigger] self.ids@[j]@ == k;
                        self.lemma_at(j);
                        if j < n {
                            before.lemma_at(j);
                            assert(before.ids@[j] == self.ids@[j]);
                            assert(before.objects@[j] == self.objects@[j]);
                        }
                    }
                    assert(self@ =~= before@.insert(id@, o@));
                }
                Ok(id)
            },
        }
    }
}

/// The store already holds another object under the id of `o`.
pub open spec fn clashes(objs: Map<Seq<u8>, ObjectV>, o: ObjectV) -> bool {
    objs.contains_key(object_id(o)) && objs[object_id(o)] != o
}

/// How storing `o` into `objs` ends: `Digest` when the digest refuses it,
/// `Corrupt` when another object holds its id, and success otherwise.
pub open spec fn store_outcome(objs: Map<Seq<u8>, ObjectV>, o: ObjectV) -> Option<GitError> {
    if refused(o) {
        Some(GitError::Digest)
    } else if clashes(objs, o) {
        Some(GitError::Corrupt)
    } else {
        None
    }
}

/// How storing `a` and then `b` ends: the first failure, if any.
pub open spec fn store_both(objs: Map<Seq<u8>, ObjectV>, a: ObjectV, b: ObjectV) -> Option<GitError> {
    match store_outcome(objs, a) {
        Some(e) => Some(e),
        None => store_outcome(objs.insert(object_id(a), a), b),
    }
}

/// What storing `o` does: on success the store holds `o` under its id and
/// nothing else changes; a clash under that id or a failed digest changes nothing.
pub open spec fn put_spec(
    before: Map<Seq<u8>, ObjectV>,
    after: Map<Seq<u8>, ObjectV>,
    o: ObjectV,
    r: Result<Vec<u8>, GitError>,
) -> bool {
    let id = object_id(o);
    &&& (r is Ok <==> store_outcome(before, o) is None)
    &&& (r matches Err(e) ==> store_outcome(before, o) == Some(e))
    &&& match r {
        Ok(got) => got@ == id && after == before.insert(id, o) && (before.contains_key(id) ==> before[id] == o),
        Err(e) => after == before && (e == GitError::Corrupt ==> before.contains_key(id) && before[id] != o)
            && (e == GitError::Corrupt || e == GitError::Digest),
    }
}

} // verus!
