//! Objects (blobs, trees, commits), their canonical encoding, and the digest
//! that names them.
use vstd::prelude::*;
use crate::bytes::{bytes_eq, copy_bytes};
use crate::pathmap::{EntryV, PathMap};

verus! {

#[derive(Clone, Copy, Debug, PartialEq, Eq, Structural)]
pub enum ObjectKind {
    Blob,
    Tree,
    Commit,
}

/// The object id that the digest gives to `content` stored as an object of `kind`.
pub uninterp spec fn object_digest(kind: ObjectKind, content: Seq<u8>) -> Seq<u8>;

/// Whether the digest refuses `content` stored as an object of `kind` (its
/// collision detection fires).
pub uninterp spec fn digest_refused(kind: ObjectKind, content: Seq<u8>) -> bool;

/// The error type of git2, carried as an opaque value.
#[verifier::external_type_specification]
#[verifier::external_body]
pub struct ExGitError(git2::Error);

/// Relies on `git2::Oid::hash_object`, which hashes `content` under the header
/// of `kind` without touching any repository; the id depends on `kind` and
/// `content` alone, and so does whether it fails.
#[verifier::external_body]
fn hash_object(kind: ObjectKind, content: &[u8]) -> (r: Result<Vec<u8>, git2::Error>)
    ensures
        r is Err <==> digest_refused(kind, content@),
        r matches Ok(id) ==> id@ == object_digest(kind, content@),
{
    let t = match kind {
        ObjectKind::Blob => git2::ObjectType::Blob,
        ObjectKind::Tree => git2::ObjectType::Tree,
        ObjectKind::Commit => git2::ObjectType::Commit,
    };
    match git2::Oid::hash_object(t, content) {
        Ok(oid) => Ok(oid.as_bytes().to_vec()),
        Err(e) => Err(e),
    }
}

/// Who made a commit, and when (seconds since the epoch).
pub struct Signature {
    pub name: Vec<u8>,
    pub time: u64,
}

impl Signature {
    pub open spec fn view(&self) -> (Seq<u8>, u64) {
        (self.name@, self.time)
    }
}

/// The ids that a vector holds.
pub open spec fn ids_view(v: Seq<Vec<u8>>) -> Seq<Seq<u8>> {
    v.map_values(|p: Vec<u8>| p@)
}

pub struct Commit {
    pub tree: Vec<u8>,
    pub parents: Vec<Vec<u8>>,
    pub author: Signature,
    pub committer: Signature,
    pub message: Vec<u8>,
}

pub struct CommitV {
    pub tree: Seq<u8>,
    pub parents: Seq<Seq<u8>>,
    pub author: (Seq<u8>, u64),
    pub committer: (Seq<u8>, u64),
    pub message: Seq<u8>,
}

impl Commit {
    pub open spec fn view(&self) -> CommitV {
        CommitV {
            tree: self.tree@,
            parents: ids_view(self.parents@),
            author: self.author@,
            committer: self.committer@,
            message: self.message@,
        }
    }
}

pub enum Object {
    /// File content.
    Blob(Vec<u8>),
    /// A snapshot: every file under its full path (directories are the
    /// `/`-separated prefixes), in byte order of the paths, with its mode and
    /// the id of its blob.
    Tree(PathMap),
    Commit(Commit),
}

pub enum ObjectV {
    Blob(Seq<u8>),
    Tree(Seq<EntryV>),
    Commit(CommitV),
}

impl Object {
    pub open spec fn view(&self) -> ObjectV {
        match self {
            Object::Blob(b) => ObjectV::Blob(b@),
            Object::Tree(t) => ObjectV::Tree(t.seq()),
            Object::Commit(c) => ObjectV::Commit(c@),
        }
    }

    pub fn kind(&self) -> (r: ObjectKind)
        ensures
            r == kind_of(self@),
    {
        match self {
            Object::Blob(_) => ObjectKind::Blob,
            Object::Tree(_) => ObjectKind::Tree,
            Object::Commit(_) => ObjectKind::Commit,
        }
    }
}

pub open spec fn kind_of(o: ObjectV) -> ObjectKind {
    match o {
        ObjectV::Blob(_) => ObjectKind::Blob,
        ObjectV::Tree(_) => ObjectKind::Tree,
        ObjectV::Commit(_) => ObjectKind::Commit,
    }
}

pub open spec fn u64_be(x: u64) -> Seq<u8> {
    seq![
        (x >> 56u64) as u8,
        (x >> 48u64) as u8,
        (x >> 40u64) as u8,
        (x >> 32u64) as u8,
        (x >> 24u64) as u8,
        (x >> 16u64) as u8,
        (x >> 8u64) as u8,
        x as u8,
    ]
}

/// A byte string preceded by its length, so that fields cannot run together.
pub open spec fn field(b: Seq<u8>) -> Seq<u8> {
    u64_be(b.len() as u64) + b
}

pub open spec fn encode_entries(s: Seq<EntryV>) -> Seq<u8>
    decreases s.len(),
{
    if s.len() == 0 {
        Seq::empty()
    } else {
        encode_entries(s.drop_last()) + field(s.last().0) + u64_be(s.last().1 as u64) + field(
            s.last().2,
        )
    }
}

pub open spec fn encode_ids(s: Seq<Seq<u8>>) -> Seq<u8>
    decreases s.len(),
{
    if s.len() == 0 {
        Seq::empty()
    } else {
        encode_ids(s.drop_last()) + field(s.last())
    }
}

pub open spec fn encode_signature(s: (Seq<u8>, u64)) -> Seq<u8> {
    field(s.0) + u64_be(s.1)
}

pub open spec fn encode_commit(c: CommitV) -> Seq<u8> {
    field(c.tree) + u64_be(c.parents.len() as u64) + encode_ids(c.parents) + encode_signature(
        c.author,
    ) + encode_signature(c.committer) + c.message
}

/// The canonical serialisation of an object, the input of its digest.
pub open spec fn encode(o: ObjectV) -> Seq<u8> {
    match o {
        ObjectV::Blob(b) => b,
        ObjectV::Tree(s) => encode_entries(s),
        ObjectV::Commit(c) => encode_commit(c),
    }
}

/// The id of an object: the digest of its canonical serialisation.
pub open spec fn object_id(o: ObjectV) -> Seq<u8> {
    object_digest(kind_of(o), encode(o))
}

/// Whether the digest refuses the canonical serialisation of an object.
pub open spec fn refused(o: ObjectV) -> bool {
    digest_refused(kind_of(o), encode(o))
}

fn push_u64(out: &mut Vec<u8>, x: u64)
    ensures
        final(out)@ == old(out)@ + u64_be(x),
{
    out.push((x >> 56u64) as u8);
    out.push((x >> 48u64) as u8);
    out.push((x >> 40u64) as u8);
    out.push((x >> 32u64) as u8);
    out.push((x >> 24u64) as u8);
    out.push((x >> 16u64) as u8);
    out.push((x >> 8u64) as u8);
    out.push(x as u8);
    assert(final(out)@ =~= old(out)@ + u64_be(x));
}

fn push_bytes(out: &mut Vec<u8>, b: &[u8])
    ensures
        final(out)@ == old(out)@ + b@,
{
    let ghost start = out@;
    let mut i: usize = 0;
    while i < b.len()
        invariant
            i <= b@.len(),
            out@ == start + b@.subrange(0, i as int),
        decreases b@.len() - i,
    {
        out.push(b[i]);
        assert(b@.subrange(0, i + 1) =~= b@.subrange(0, i as int).push(b@[i as int]));
        i = i + 1;
    }
    assert(b@.subrange(0, i as int) =~= b@);
}

fn push_field(out: &mut Vec<u8>, b: &[u8])
    ensures
        final(out)@ == old(out)@ + field(b@),
{
    let ghost start = out@;
    push_u64(out, b.len() as u64);
    push_bytes(out, b);
    assert(out@ =~= start + field(b@));
}

fn encode_tree_exec(t: &PathMap) -> (r: Vec<u8>)
    ensures
        r@ == encode_entries(t.seq()),
{
    let mut out: Vec<u8> = Vec::new();
    let mut i: usize = 0;
    while i < t.entries.len()
        invariant
            i <= t.entries@.len(),
            out@ == encode_entries(t.seq().subrange(0, i as int)),
        decreases t.entries@.len() - i,
    {
        let e = &t.entries[i];
        let ghost before = out@;
        push_field(&mut out, e.path.as_slice());
        push_u64(&mut out, e.mode as u64);
        push_field(&mut out, e.data.as_slice());
        proof {
            let s = t.seq().subrange(0, i + 1);
            assert(s.drop_last() =~= t.seq().subrange(0, i as int));
            assert(out@ =~= encode_entries(s));
        }
        i = i + 1;
    }
    assert(t.seq().subrange(0, i as int) =~= t.seq());
    out
}

fn push_signature(out: &mut Vec<u8>, s: &Signature)
    ensures
        final(out)@ == old(out)@ + encode_signature(s@),
{
    let ghost start = out@;
    push_field(out, s.name.as_slice());
    push_u64(out, s.time);
    assert(out@ =~= start + encode_signature(s@));
}

fn encode_commit_exec(c: &Commit) -> (r: Vec<u8>)
    ensures
        r@ == encode_commit(c@),
{
    let mut out: Vec<u8> = Vec::new();
    push_field(&mut out, c.tree.as_slice());
    push_u64(&mut out, c.parents.len() as u64);
    let ghost head = out@;
    let mut i: usize = 0;
    while i < c.parents.len()
        invariant
            i <= c.parents@.len(),
            out@ == head + encode_ids(ids_view(c.parents@).subrange(0, i as int)),
        decreases c.parents@.len() - i,
    {
        push_field(&mut out, c.parents[i].as_slice());
        proof {
            let s = ids_view(c.parents@).subrange(0, i + 1);
            assert(s.drop_last() =~= ids_view(c.parents@).subrange(0, i as int));
            assert(out@ =~= head + encode_ids(s));
        }
        i = i + 1;
    }
    assert(ids_view(c.parents@).subrange(0, i as int) =~= ids_view(c.parents@));
    push_signature(&mut out, &c.author);
    push_signature(&mut out, &c.committer);
    push_bytes(&mut out, c.message.as_slice());
    assert(out@ =~= encode_commit(c@));
    out
}

/// The canonical serialisation of `o`.
pub fn encode_object(o: &Object) -> (r: Vec<u8>)
    ensures
        r@ == encode(o@),
{
    match o {
        Object::Blob(b) => copy_bytes(b),
        Object::Tree(t) => encode_tree_exec(t),
        Object::Commit(c) => encode_commit_exec(c),
    }
}

/// The id of `o`, or `None` where the digest could not be computed.
pub fn id_of(o: &Object) -> (r: Option<Vec<u8>>)
    ensures
        r is None <==> refused(o@),
        r matches Some(id) ==> id@ == object_id(o@),
{
    let bytes = encode_object(o);
    match hash_object(o.kind(), bytes.as_slice()) {
        Ok(id) => Some(id),
        Err(_) => None,
    }
}

fn entries_eq(a: &PathMap, b: &PathMap) -> (r: bool)
    ensures
        r == (a.seq() == b.seq()),
{
    if a.entries.len() != b.entries.len() {
        return false;
    }
    let mut i: usize = 0;
    while i < a.entries.len()
        invariant
            a.entries@.len() == b.entries@.len(),
            i <= a.entries@.len(),
            forall|k: int| 0 <= k < i ==> a.seq()[k] == b.seq()[k],
        decreases a.entries@.len() - i,
    {
        let x = &a.entries[i];
        let y = &b.entries[i];
        if !bytes_eq(x.path.as_slice(), y.path.as_slice()) || x.mode != y.mode || !bytes_eq(
            x.data.as_slice(),
            y.data.as_slice(),
        ) {
            assert(a.seq()[i as int] != b.seq()[i as int]);
            return false;
        }
        i = i + 1;
    }
    assert(a.seq() =~= b.seq());
    true
}

fn ids_eq(a: &Vec<Vec<u8>>, b: &Vec<Vec<u8>>) -> (r: bool)
    ensures
        r == (ids_view(a@) == ids_view(b@)),
{
    if a.len() != b.len() {
        return false;
    }
    let mut i: usize = 0;
    while i < a.len()
        invariant
            a@.len() == b@.len(),
            i <= a@.len(),
            forall|k: int| 0 <= k < i ==> ids_view(a@)[k] == ids_view(b@)[k],
        decreases a@.len() - i,
    {
        if !bytes_eq(a[i].as_slice(), b[i].as_slice()) {
            assert(ids_view(a@)[i as int] != ids_view(b@)[i as int]);
            return false;
        }
        i = i + 1;
    }
    assert(ids_view(a@) =~= ids_view(b@));
    true
}

fn commit_eq(a: &Commit, b: &Commit) -> (r: bool)
    ensures
        r == (a@ == b@),
{
    bytes_eq(a.tree.as_slice(), b.tree.as_slice()) && ids_eq(&a.parents, &b.parents) && bytes_eq(
        a.author.name.as_slice(),
        b.author.name.as_slice(),
    ) && a.author.time == b.author.time && bytes_eq(
        a.committer.name.as_slice(),
        b.committer.name.as_slice(),
    ) && a.committer.time == b.committer.time && bytes_eq(
        a.message.as_slice(),
        b.message.as_slice(),
    )
}

/// Whether two objects are the same value.
pub fn object_eq(a: &Object, b: &Object) -> (r: bool)
    ensures
        r == (a@ == b@),
{
    match (a, b) {
        (Object::Blob(x), Object::Blob(y)) => bytes_eq(x.as_slice(), y.as_slice()),
        (Object::Tree(x), Object::Tree(y)) => entries_eq(x, y),
        (Object::Commit(x), Object::Commit(y)) => commit_eq(x, y),
        _ => false,
    }
}

} // verus!
