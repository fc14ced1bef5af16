//! Bringing the working directory from one tree's state to another's: the
//! step shared by checkout, reset, merge and revert.
use vstd::prelude::*;
use crate::bytes::copy_bytes;
use crate::object::{Object, ObjectV};
use crate::pathmap::{lemma_map_of_domain, lemma_map_of_value, EntryV, FileV, PathMap};
use crate::repo::Objects;
use crate::store::ObjectStore;

verus! {

/// What `m` holds at `p`, if anything.
pub open spec fn at(m: Map<Seq<u8>, FileV>, p: Seq<u8>) -> Option<FileV> {
    if m.contains_key(p) {
        Some(m[p])
    } else {
        None
    }
}

/// Whether going from `from` to `to` touches `p`: when forced, every path of
/// either; otherwise the paths whose entry differs.
pub open spec fn touched(from: Map<Seq<u8>, FileV>, to: Map<Seq<u8>, FileV>, p: Seq<u8>, force: bool) -> bool {
    if force {
        from.contains_key(p) || to.contains_key(p)
    } else {
        at(from, p) != at(to, p)
    }
}

/// The content of the blob stored under `id`.
pub open spec fn blob_at(objs: Objects, id: Seq<u8>) -> Seq<u8> {
    match objs[id] {
        ObjectV::Blob(b) => b,
        _ => Seq::empty(),
    }
}

/// Every entry of `m` names a stored blob.
pub open spec fn blobs_present(objs: Objects, m: Map<Seq<u8>, FileV>) -> bool {
    forall|p: Seq<u8>| #[trigger] m.contains_key(p) ==> objs.contains_key(m[p].1) && objs[m[p].1] is Blob
}

/// The working directory `wd` once the paths touched between `from` and
/// `to` hold `to`'s files (or are gone where `to` has none).
pub open spec fn synced(
    wd: Map<Seq<u8>, FileV>,
    from: Map<Seq<u8>, FileV>,
    to: Map<Seq<u8>, FileV>,
    objs: Objects,
    force: bool,
) -> Map<Seq<u8>, FileV> {
    Map::new(
        |p: Seq<u8>|
            if touched(from, to, p, force) {
                to.contains_key(p)
            } else {
                wd.contains_key(p)
            },
        |p: Seq<u8>|
            if touched(from, to, p, force) {
                (to[p].0, blob_at(objs, to[p].1))
            } else {
                wd[p]
            },
    )
}

/// Syncing reads only blobs that `to` names, so a store that has only grown
/// gives the same result.
pub proof fn lemma_synced_grows(
    wd: Map<Seq<u8>, FileV>,
    from: Map<Seq<u8>, FileV>,
    to: Map<Seq<u8>, FileV>,
    o1: Objects,
    o2: Objects,
    force: bool,
)
    requires
        crate::repo::grows(o1, o2),
        blobs_present(o1, to),
    ensures
        blobs_present(o2, to),
        synced(wd, from, to, o1, force) == synced(wd, from, to, o2, force),
{
    assert forall|p: Seq<u8>| #[trigger] to.contains_key(p) implies o2.contains_key(to[p].1) && o2[to[p].1] is Blob by {
        assert(o1.contains_key(to[p].1));
    }
    assert forall|p: Seq<u8>| #![auto] synced(wd, from, to, o1, force).contains_key(p) implies synced(
        wd,
        from,
        to,
        o1,
        force,
    )[p] == synced(wd, from, to, o2, force)[p] by {
        if touched(from, to, p, force) {
            assert(o1.contains_key(to[p].1));
        }
    }
    assert(synced(wd, from, to, o1, force) =~= synced(wd, from, to, o2, force));
}

pub open spec fn seen(s: Seq<EntryV>, i: int, p: Seq<u8>) -> bool {
    exists|k: int| 0 <= k < i && #[trigger] s[k].0 == p
}

/// The stored content of the blob `id`.
pub fn blob_content(objs: &ObjectStore, id: &[u8]) -> (r: Vec<u8>)
    requires
        objs.wf(),
        objs@.contains_key(id@),
        objs@[id@] is Blob,
    ensures
        r@ == blob_at(objs@, id@),
{
    match objs.get(id) {
        Some(Object::Blob(b)) => copy_bytes(b),
        _ => Vec::new(),
    }
}

/// Sets the paths of `wd` touched between `from` and `to` to `to`'s files.
pub fn sync_workdir(wd: &mut PathMap, objs: &ObjectStore, from: &PathMap, to: &PathMap, force: bool)
    requires
        old(wd).wf(),
        objs.wf(),
        from.wf(),
        to.wf(),
        blobs_present(objs@, to@),
    ensures
        final(wd).wf(),
        final(wd)@ == synced(old(wd)@, from@, to@, objs@, force),
{
    let ghost w0 = wd@;
    let ghost fs = from.seq();
    let ghost ts = to.seq();
    let mut i: usize = 0;
    while i < from.entries.len()
        invariant
            wd.wf(),
            from.wf(),
            to.wf(),
            fs == from.seq(),
            i <= fs.len(),
            forall|p: Seq<u8>| #[trigger]
                wd@.contains_key(p) == (w0.contains_key(p) && !(seen(fs, i as int, p) && !to@.contains_key(p))),
            forall|p: Seq<u8>| #[trigger] wd@.contains_key(p) ==> wd@[p] == w0[p],
        decreases fs.len() - i,
    {
        let q = &from.entries[i].path;
        let ghost before = wd@;
        if to.find(q.as_slice()).is_none() {
            wd.remove(q.as_slice());
        }
        proof {
            assert forall|p: Seq<u8>| #[trigger] seen(fs, i + 1, p) == (seen(fs, i as int, p) || p == fs[i as int].0) by {
                if seen(fs, i + 1, p) {
                    let k = choose|k: int| 0 <= k < i + 1 && #[trigger] fs[k].0 == p;
                    if k < i {
                        assert(seen(fs, i as int, p));
                    }
                }
                if seen(fs, i as int, p) {
                    let k = choose|k: int| 0 <= k < i && #[trigger] fs[k].0 == p;
                    assert(fs[k].0 == p);
                }
                if p == fs[i as int].0 {
                    assert(fs[i as int].0 == p);
                }
            }
        }
        i = i + 1;
    }
    let ghost w1 = wd@;
    proof {
        assert forall|p: Seq<u8>| seen(fs, fs.len() as int, p) == #[trigger] from@.contains_key(p) by {
            lemma_map_of_domain(fs, p);
        }
    }
    let mut j: usize = 0;
    while j < to.entries.len()
        invariant
            wd.wf(),
            objs.wf(),
            from.wf(),
            to.wf(),
            ts == to.seq(),
            blobs_present(objs@, to@),
            j <= ts.len(),
            forall|p: Seq<u8>| #[trigger]
                wd@.contains_key(p) == (w1.contains_key(p) || (seen(ts, j as int, p) && touched(
                    from@,
                    to@,
                    p,
                    force,
                ))),
            forall|p: Seq<u8>| #[trigger]
                wd@.contains_key(p) ==> wd@[p] == if seen(ts, j as int, p) && touched(from@, to@, p, force) {
                    (to@[p].0, blob_at(objs@, to@[p].1))
                } else {
                    w1[p]
                },
        decreases ts.len() - j,
    {
        let e = &to.entries[j];
        proof {
            lemma_map_of_value(ts, j as int);
        }
        let write = if force {
            true
        } else {
            match from.find(e.path.as_slice()) {
                None => true,
                Some(k) => from.entries[k].mode != e.mode || !crate::bytes::bytes_eq(
                    from.entries[k].data.as_slice(),
                    e.data.as_slice(),
                ),
            }
        };
        proof {
            assert(to@.contains_key(ts[j as int].0));
            assert(write == touched(from@, to@, ts[j as int].0, force));
        }
        if write {
            let content = blob_content(objs, e.data.as_slice());
            wd.insert(copy_bytes(&e.path), e.mode, content);
        }
        proof {
            assert forall|p: Seq<u8>| #[trigger] seen(ts, j + 1, p) == (seen(ts, j as int, p) || p == ts[j as int].0) by {
                if seen(ts, j + 1, p) {
                    let k = choose|k: int| 0 <= k < j + 1 && #[trigger] ts[k].0 == p;
                    if k < j {
                        assert(seen(ts, j as int, p));
                    }
                }
                if seen(ts, j as int, p) {
                    let k = choose|k: int| 0 <= k < j && #[trigger] ts[k].0 == p;
                    assert(ts[k].0 == p);
                }
                if p == ts[j as int].0 {
                    assert(ts[j as int].0 == p);
                }
            }
        }
        j = j + 1;
    }
    proof {
        assert forall|p: Seq<u8>| seen(ts, ts.len() as int, p) == #[trigger] to@.contains_key(p) by {
            lemma_map_of_domain(ts, p);
        }
        let target = synced(w0, from@, to@, objs@, force);
        assert forall|p: Seq<u8>| #![auto] wd@.contains_key(p) == target.contains_key(p) by {
            assert(seen(ts, ts.len() as int, p) == to@.contains_key(p));
            assert(seen(fs, fs.len() as int, p) == from@.contains_key(p));
        }
        assert forall|p: Seq<u8>| #![auto] wd@.contains_key(p) implies wd@[p] == target[p] by {
            assert(seen(ts, ts.len() as int, p) == to@.contains_key(p));
            assert(seen(fs, fs.len() as int, p) == from@.contains_key(p));
        }
        assert(wd@ =~= target);
    }
}

/// The entries `m` once the paths touched between `from` and `to` hold
/// `to`'s entries (or none where `to` has none).
pub open spec fn applied(
    m: Map<Seq<u8>, FileV>,
    from: Map<Seq<u8>, FileV>,
    to: Map<Seq<u8>, FileV>,
    force: bool,
) -> Map<Seq<u8>, FileV> {
    Map::new(
        |p: Seq<u8>|
            if touched(from, to, p, force) {
                to.contains_key(p)
            } else {
                m.contains_key(p)
            },
        |p: Seq<u8>|
            if touched(from, to, p, force) {
                to[p]
            } else {
                m[p]
            },
    )
}

/// Sets the entries of `idx` at the paths touched between `from` and `to` to `to`'s entries.
pub fn apply_entries(wd: &mut PathMap, from: &PathMap, to: &PathMap, force: bool)
    requires
        old(wd).wf(),
        from.wf(),
        to.wf(),
    ensures
        final(wd).wf(),
        final(wd)@ == applied(old(wd)@, from@, to@, force),
{
    let ghost w0 = wd@;
    let ghost fs = from.seq();
    let ghost ts = to.seq();
    let mut i: usize = 0;
    while i < from.entries.len()
        invariant
            wd.wf(),
            from.wf(),
            to.wf(),
            fs == from.seq(),
            i <= fs.len(),
            forall|p: Seq<u8>| #[trigger]
                wd@.contains_key(p) == (w0.contains_key(p) && !(seen(fs, i as int, p) && !to@.contains_key(p))),
            forall|p: Seq<u8>| #[trigger] wd@.contains_key(p) ==> wd@[p] == w0[p],
        decreases fs.len() - i,
    {
        let q = &from.entries[i].path;
        let ghost before = wd@;
        if to.find(q.as_slice()).is_none() {
            wd.remove(q.as_slice());
        }
        proof {
            assert forall|p: Seq<u8>| #[trigger] seen(fs, i + 1, p) == (seen(fs, i as int, p) || p == fs[i as int].0) by {
                if seen(fs, i + 1, p) {
                    let k = choose|k: int| 0 <= k < i + 1 && #[trigger] fs[k].0 == p;
                    if k < i {
                        assert(seen(fs, i as int, p));
                    }
                }
                if seen(fs, i as int, p) {
                    let k = choose|k: int| 0 <= k < i && #[trigger] fs[k].0 == p;
                    assert(fs[k].0 == p);
                }
                if p == fs[i as int].0 {
                    assert(fs[i as int].0 == p);
                }
            }
        }
        i = i + 1;
    }
    let ghost w1 = wd@;
    proof {
        assert forall|p: Seq<u8>| seen(fs, fs.len() as int, p) == #[trigger] from@.contains_key(p) by {
            lemma_map_of_domain(fs, p);
        }
    }
    let mut j: usize = 0;
    while j < to.entries.len()
        invariant
            wd.wf(),
            from.wf(),
            to.wf(),
            ts == to.seq(),
            j <= ts.len(),
            forall|p: Seq<u8>| #[trigger]
                wd@.contains_key(p) == (w1.contains_key(p) || (seen(ts, j as int, p) && touched(
                    from@,
                    to@,
                    p,
                    force,
                ))),
            forall|p: Seq<u8>| #[trigger]
                wd@.contains_key(p) ==> wd@[p] == if seen(ts, j as int, p) && touched(from@, to@, p, force) {
                    to@[p]
                } else {
                    w1[p]
                },
        decreases ts.len() - j,
    {
        let e = &to.entries[j];
        proof {
            lemma_map_of_value(ts, j as int);
        }
        let write = if force {
            true
        } else {
            match from.find(e.path.as_slice()) {
                None => true,
                Some(k) => from.entries[k].mode != e.mode || !crate::bytes::bytes_eq(
                    from.entries[k].data.as_slice(),
                    e.data.as_slice(),
                ),
            }
        };
        proof {
            assert(to@.contains_key(ts[j as int].0));
            assert(write == touched(from@, to@, ts[j as int].0, force));
        }
        if write {
            wd.insert(copy_bytes(&e.path), e.mode, copy_bytes(&e.data));
        }
        proof {
            assert forall|p: Seq<u8>| #[trigger] seen(ts, j + 1, p) == (seen(ts, j as int, p) || p == ts[j as int].0) by {
                if seen(ts, j + 1, p) {
                    let k = choose|k: int| 0 <= k < j + 1 && #[trigger] ts[k].0 == p;
                    if k < j {
                        assert(seen(ts, j as int, p));
                    }
                }
                if seen(ts, j as int, p) {
                    let k = choose|k: int| 0 <= k < j && #[trigger] ts[k].0 == p;
                    assert(ts[k].0 == p);
                }
                if p == ts[j as int].0 {
                    assert(ts[j as int].0 == p);
                }
            }
        }
        j = j + 1;
    }
    proof {
        assert forall|p: Seq<u8>| seen(ts, ts.len() as int, p) == #[trigger] to@.contains_key(p) by {
            lemma_map_of_domain(ts, p);
        }
        let target = applied(w0, from@, to@, force);
        assert forall|p: Seq<u8>| #![auto] wd@.contains_key(p) == target.contains_key(p) by {
            assert(seen(ts, ts.len() as int, p) == to@.contains_key(p));
            assert(seen(fs, fs.len() as int, p) == from@.contains_key(p));
        }
        assert forall|p: Seq<u8>| #![auto] wd@.contains_key(p) implies wd@[p] == target[p] by {
            assert(seen(ts, ts.len() as int, p) == to@.contains_key(p));
            assert(seen(fs, fs.len() as int, p) == from@.contains_key(p));
        }
        assert(wd@ =~= target);
    }
}

/// The stored content of the blob `id`, or nothing when no blob is stored there.
pub open spec fn stored_blob(objs: Objects, id: Seq<u8>) -> Seq<u8> {
    if objs.contains_key(id) {
        blob_at(objs, id)
    } else {
        Seq::empty()
    }
}

/// The file that an entry stands for in the working directory.
pub open spec fn file_content(objs: Objects, f: Option<FileV>) -> Option<FileV> {
    match f {
        Some(x) => Some((x.0, stored_blob(objs, x.1))),
        None => None,
    }
}

/// The working directory holds exactly the files that the entries `m` stand for.
pub open spec fn checked_out(wd: Map<Seq<u8>, FileV>, objs: Objects, m: Map<Seq<u8>, FileV>) -> bool {
    forall|p: Seq<u8>| #![trigger at(wd, p)] at(wd, p) == file_content(objs, at(m, p))
}

/// At every path touched between `from` and `to`, the working directory
/// holds exactly `from`'s file: going to `to` overwrites no local change.
pub open spec fn workdir_clean(
    wd: Map<Seq<u8>, FileV>,
    objs: Objects,
    from: Map<Seq<u8>, FileV>,
    to: Map<Seq<u8>, FileV>,
    force: bool,
) -> bool {
    forall|p: Seq<u8>| #[trigger] touched(from, to, p, force) ==> at(wd, p) == file_content(objs, at(from, p))
}

fn stored_blob_exec(objs: &ObjectStore, id: &[u8]) -> (r: Vec<u8>)
    requires
        objs.wf(),
    ensures
        r@ == stored_blob(objs@, id@),
{
    match objs.get(id) {
        Some(Object::Blob(b)) => copy_bytes(b),
        _ => Vec::new(),
    }
}

fn clean_at(wd: &PathMap, objs: &ObjectStore, from: &PathMap, to: &PathMap, force: bool, p: &[u8]) -> (r: bool)
    requires
        wd.wf(),
        objs.wf(),
        from.wf(),
        to.wf(),
    ensures
        r == (touched(from@, to@, p@, force) ==> at(wd@, p@) == file_content(objs@, at(from@, p@))),
{
    let f = from.find(p);
    let t = to.find(p);
    let is_touched = if force {
        f.is_some() || t.is_some()
    } else {
        match (f, t) {
            (Some(i), Some(j)) => from.entries[i].mode != to.entries[j].mode || !crate::bytes::bytes_eq(
                from.entries[i].data.as_slice(),
                to.entries[j].data.as_slice(),
            ),
            (None, None) => false,
            _ => true,
        }
    };
    if !is_touched {
        return true;
    }
    let w = wd.find(p);
    match (f, w) {
        (None, None) => true,
        (Some(i), Some(k)) => {
            let content = stored_blob_exec(objs, from.entries[i].data.as_slice());
            wd.entries[k].mode == from.entries[i].mode && crate::bytes::bytes_eq(
                wd.entries[k].data.as_slice(),
                content.as_slice(),
            )
        },
        _ => false,
    }
}

/// Whether `wd` holds `from`'s file at every path touched between `from` and `to`.
pub fn workdir_clean_exec(wd: &PathMap, objs: &ObjectStore, from: &PathMap, to: &PathMap, force: bool) -> (r: bool)
    requires
        wd.wf(),
        objs.wf(),
        from.wf(),
        to.wf(),
    ensures
        r == workdir_clean(wd@, objs@, from@, to@, force),
{
    let ghost fs = from.seq();
    let ghost ts = to.seq();
    let mut i: usize = 0;
    while i < from.entries.len()
        invariant
            wd.wf(),
            objs.wf(),
            from.wf(),
            to.wf(),
            fs == from.seq(),
            i <= fs.len(),
            forall|k: int|
                0 <= k < i ==> (touched(from@, to@, #[trigger] fs[k].0, force) ==> at(wd@, fs[k].0) == file_content(
                    objs@,
                    at(from@, fs[k].0),
                )),
        decreases fs.len() - i,
    {
        if !clean_at(wd, objs, from, to, force, from.entries[i].path.as_slice()) {
            return false;
        }
        i = i + 1;
    }
    let mut j: usize = 0;
    while j < to.entries.len()
        invariant
            wd.wf(),
            objs.wf(),
            from.wf(),
            to.wf(),
            ts == to.seq(),
            j <= ts.len(),
            forall|k: int|
                0 <= k < j ==> (touched(from@, to@, #[trigger] ts[k].0, force) ==> at(wd@, ts[k].0) == file_content(
                    objs@,
                    at(from@, ts[k].0),
                )),
        decreases ts.len() - j,
    {
        if !clean_at(wd, objs, from, to, force, to.entries[j].path.as_slice()) {
            return false;
        }
        j = j + 1;
    }
    proof {
        assert forall|p: Seq<u8>| #[trigger] touched(from@, to@, p, force) implies at(wd@, p) == file_content(
            objs@,
            at(from@, p),
        ) by {
            lemma_map_of_domain(fs, p);
            lemma_map_of_domain(ts, p);
            if from@.contains_key(p) {
                let k = choose|k: int| 0 <= k < fs.len() && #[trigger] fs[k].0 == p;
                assert(touched(from@, to@, fs[k].0, force));
            } else {
                let k = choose|k: int| 0 <= k < ts.len() && #[trigger] ts[k].0 == p;
                assert(touched(from@, to@, ts[k].0, force));
            }
        }
    }
    true
}

} // verus!
