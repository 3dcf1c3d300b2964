use vstd::prelude::*;
use crate::bytes::{concat, push_bytes, push_u64_be, u64_be};
use crate::chunk::Chunk;
use crate::directory::{name_bytes, Directory};
use crate::file::File;
use crate::object::{push_hash, sha256_digest, Object};

verus! {

/// What a resource holds, as plain values: a chunk's bytes; a file's chunk
/// hashes and size; a directory's (name, hash) entries in order.
pub enum ResourceModel {
    Chunk(Seq<u8>),
    File(Seq<Seq<u8>>, u64),
    Directory(Seq<(Seq<char>, Seq<u8>)>),
}

/// The hashed payload: one of the three kinds of resource.
#[derive(Debug)]
pub enum Resource {
    Chunk(Chunk),
    File(File),
    Directory(Directory),
}

impl View for Resource {
    type V = ResourceModel;

    open spec fn view(&self) -> ResourceModel {
        match self {
            Resource::Chunk(c) => ResourceModel::Chunk(c@),
            Resource::File(f) => ResourceModel::File(f@.0, f@.1),
            Resource::Directory(d) => ResourceModel::Directory(d@),
        }
    }
}

/// One directory entry in the canonical encoding: the name's byte length,
/// its UTF-8 bytes, then the 32 hash bytes.
pub open spec fn entry_bytes(e: (Seq<char>, Seq<u8>)) -> Seq<u8> {
    u64_be(name_bytes(e.0).len() as u64) + name_bytes(e.0) + e.1
}

/// The entries of a directory in the canonical encoding, in order.
pub open spec fn entries_bytes(es: Seq<(Seq<char>, Seq<u8>)>) -> Seq<u8>
    decreases es.len(),
{
    if es.len() == 0 {
        Seq::empty()
    } else {
        entries_bytes(es.drop_last()) + entry_bytes(es.last())
    }
}

/// The canonical encoding of a resource: a tag byte (0 chunk, 1 file,
/// 2 directory), then its fields, each integer as eight big-endian bytes.
pub open spec fn encoding(r: ResourceModel) -> Seq<u8> {
    match r {
        ResourceModel::Chunk(data) => seq![0u8] + u64_be(data.len() as u64) + data,
        ResourceModel::File(hashes, size) => seq![1u8] + u64_be(size) + u64_be(hashes.len() as u64)
            + concat(hashes),
        ResourceModel::Directory(es) => seq![2u8] + u64_be(es.len() as u64) + entries_bytes(es),
    }
}

/// The identity of a resource: the digest of its canonical encoding.
pub open spec fn object_id(r: ResourceModel) -> Seq<u8> {
    sha256_digest(encoding(r))
}

/// Appends the hashes of `objects` to `out`, in order.
pub fn push_hashes(out: &mut Vec<u8>, objects: &Vec<Object>)
    ensures
        final(out)@ == old(out)@ + concat(crate::file::hashes_of(objects@)),
{
    let ghost start = out@;
    let ghost hs = crate::file::hashes_of(objects@);
    let mut i: usize = 0;
    while i < objects.len()
        invariant
            i <= objects@.len(),
            hs == crate::file::hashes_of(objects@),
            out@ == start + concat(hs.subrange(0, i as int)),
        decreases objects@.len() - i,
    {
        push_hash(out, &objects[i]);
        proof {
            assert(hs.subrange(0, i + 1).drop_last() =~= hs.subrange(0, i as int));
        }
        i = i + 1;
        assert(out@ =~= start + concat(hs.subrange(0, i as int)));
    }
    assert(hs.subrange(0, i as int) =~= hs);
}

impl Resource {
    /// The canonical encoding of this resource.
    pub fn encode(&self) -> (b: Vec<u8>)
        ensures
            b@ == encoding(self@),
    {
        let mut out: Vec<u8> = Vec::new();
        match self {
            Resource::Chunk(c) => {
                out.push(0u8);
                push_u64_be(&mut out, c.data.len() as u64);
                push_bytes(&mut out, c.data.as_slice());
            },
            Resource::File(f) => {
                out.push(1u8);
                push_u64_be(&mut out, f.size);
                push_u64_be(&mut out, f.contents.len() as u64);
                push_hashes(&mut out, &f.contents);
            },
            Resource::Directory(d) => {
                out.push(2u8);
                d.push_encoding(&mut out);
            },
        }
        assert(out@ =~= encoding(self@));
        out
    }

    /// A copy of this resource.
    pub fn duplicate(&self) -> (r: Resource)
        ensures
            r@ == self@,
    {
        match self {
            Resource::Chunk(c) => Resource::Chunk(c.duplicate()),
            Resource::File(f) => Resource::File(f.duplicate()),
            Resource::Directory(d) => Resource::Directory(d.duplicate()),
        }
    }

    /// The chunk this resource is, if it is one.
    pub fn into_chunk(self) -> (r: Option<Chunk>)
        ensures
            self is Chunk <==> r is Some,
            r matches Some(c) ==> self@ == ResourceModel::Chunk(c@),
    {
        match self {
            Resource::Chunk(c) => Some(c),
            _ => None,
        }
    }

    /// The file this resource is, if it is one.
    pub fn into_file(self) -> (r: Option<File>)
        ensures
            self is File <==> r is Some,
            r matches Some(f) ==> self@ == ResourceModel::File(f@.0, f@.1),
    {
        match self {
            Resource::File(f) => Some(f),
            _ => None,
        }
    }

    /// The directory this resource is, if it is one.
    pub fn into_directory(self) -> (r: Option<Directory>)
        ensures
            self is Directory <==> r is Some,
            r matches Some(d) ==> self@ == ResourceModel::Directory(d@),
    {
        match self {
            Resource::Directory(d) => Some(d),
            _ => None,
        }
    }
}

impl Object {
    /// The object naming `r`: the SHA-256 digest of its canonical encoding.
    pub fn from_resource(r: &Resource) -> (o: Object)
        ensures
            o@ == object_id(r@),
    {
        let bytes = r.encode();
        Object::digest_of(bytes.as_slice())
    }
}

} // verus!
