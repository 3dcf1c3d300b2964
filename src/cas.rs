//! The store interface: three primitives every store provides, and the
//! typed fetches, ranged reads and path resolution built on them alone.
use vstd::prelude::*;
use crate::bytes::{copy_bytes, push_bytes};
use crate::chunk::{Chunk, CHUNK_SIZE};
use crate::directory::{name_bytes, Directory};
use crate::error::{FilesystemError, PathResolutionError};
use crate::file::File;
use crate::object::Object;
use crate::path::{decode_hash, find_slash, resolve, walk, SLASH};
use crate::resource::{object_id, Resource, ResourceModel};
use crate::store::{
    ascending, chunk_data, chunk_held, first_chunk, joined_chunks, last_chunk, listed, read_window, roots_of,
    window_end,
};

verus! {

/// A store of resources, each filed under its own object.
pub trait ContentAddressedStore {
    /// What the store holds, by object.
    spec fn contents(&self) -> Map<Seq<u8>, ResourceModel>;

    /// A copy of the resource held under `object`; `None` when there is none.
    /// What comes back always hashes to `object`.
    fn get_resource(&self, object: &Object) -> (r: Option<Resource>)
        ensures
            r is Some <==> self.contents().contains_key(object@),
            r matches Some(x) ==> x@ == self.contents()[object@],
            r matches Some(x) ==> object_id(x@) == object@,
    ;

    /// Whether `object` is held.
    fn has(&self, object: &Object) -> (r: bool)
        ensures
            r == self.contents().contains_key(object@),
    ;

    /// The objects of the held files and directories, in strictly ascending
    /// byte order of their hashes (so each once); chunks are never roots. A
    /// store may not offer a listing.
    fn accessible_objects(&self) -> (r: Result<Vec<Object>, PathResolutionError>)
        ensures
            r matches Ok(v) ==> (forall|k: Seq<u8>| #[trigger] roots_of(self.contents()).contains(k) <==> listed(v@, k)),
            r matches Ok(v) ==> ascending(v@),
    ;

    /// The chunk stored under `object`; `None` when nothing or something else is stored there.
    fn get_chunk(&self, object: &Object) -> (r: Option<Chunk>)
        ensures
            r is Some <==> chunk_held(self.contents(), object@),
            r matches Some(c) ==> c@ == chunk_data(self.contents(), object@),
    {
        match self.get_resource(object) {
            Some(r) => r.into_chunk(),
            None => None,
        }
    }

    /// The file stored under `object`; `None` when nothing or something else is stored there.
    fn get_file(&self, object: &Object) -> (r: Option<File>)
        ensures
            r is Some <==> (self.contents().contains_key(object@) && self.contents()[object@] is File),
            r matches Some(f) ==> self.contents()[object@] == ResourceModel::File(f@.0, f@.1),
            r matches Some(f) ==> object_id(ResourceModel::File(f@.0, f@.1)) == object@,
    {
        match self.get_resource(object) {
            Some(r) => r.into_file(),
            None => None,
        }
    }

    /// The directory stored under `object`; `None` when nothing or something else is stored there.
    fn get_directory(&self, object: &Object) -> (r: Option<Directory>)
        ensures
            r is Some <==> (self.contents().contains_key(object@) && self.contents()[object@] is Directory),
            r matches Some(d) ==> self.contents()[object@] == ResourceModel::Directory(d@),
            r matches Some(d) ==> object_id(ResourceModel::Directory(d@)) == object@,
    {
        match self.get_resource(object) {
            Some(r) => r.into_directory(),
            None => None,
        }
    }

    /// Reads `size` bytes at `offset` of `file`, clamped to the file's size:
    /// fetches the covering chunks in order, joins them and cuts out the
    /// window. Fails when a covering chunk is missing; no partial result.
    fn read_file(&self, file: &File, offset: u64, size: u64) -> (r: Result<Vec<u8>, FilesystemError>)
        ensures
            r is Ok <==> read_window(self.contents(), file@.0, file.size, offset, size) is Some,
            r matches Ok(b) ==> b@ == read_window(self.contents(), file@.0, file.size, offset, size)->0,
    {
        let ghost m = self.contents();
        let ghost hs = file@.0;
        let end: u64 = if size <= file.size && offset <= file.size - size {
            offset + size
        } else {
            file.size
        };
        if offset > end {
            return Ok(Vec::new());
        }
        let first: u64 = offset / CHUNK_SIZE;
        let last: u64 = if end % CHUNK_SIZE == 0 {
            end / CHUNK_SIZE
        } else {
            end / CHUNK_SIZE + 1
        };
        assert(last == last_chunk(end as int));
        if last > file.contents.len() as u64 {
            return Err(FilesystemError::new("file refers to more chunks than it lists"));
        }
        let base: u64 = first * CHUNK_SIZE;
        assert(end == window_end(file.size, offset, size));
        assert(first == first_chunk(offset as int));
        assert(last == last_chunk(end as int));
        assert(last <= file.contents@.len());
        let last_i: usize = last as usize;
        let mut data: Vec<u8> = Vec::new();
        let mut i: usize = first as usize;
        while i < last_i
            invariant
                first <= i <= last,
                last_i == last,
                end == window_end(file.size, offset, size),
                offset <= end,
                first == first_chunk(offset as int),
                last == last_chunk(end as int),
                base == first * CHUNK_SIZE,
                last <= file.contents@.len(),
                hs == file@.0,
                m == self.contents(),
                forall|j: int| first <= j < i ==> chunk_held(m, #[trigger] hs[j]),
                data@ == joined_chunks(m, hs, first as int, i as int),
            decreases last - i,
        {
            match self.get_chunk(&file.contents[i]) {
                Some(c) => {
                    push_bytes(&mut data, c.data.as_slice());
                    proof {
                        let f = |k: int| chunk_data(m, hs[first + k]);
                        let s1 = Seq::new((i + 1 - first) as nat, f);
                        assert(s1.drop_last() =~= Seq::new((i - first) as nat, f));
                    }
                },
                None => {
                    assert(hs[i as int] == file.contents@[i as int]@);
                    assert(!chunk_held(m, hs[i as int]));
                    assert(!(forall|j: int| first <= j < last ==> chunk_held(m, #[trigger] hs[j])));

                    return Err(FilesystemError::new("a chunk of the file is unavailable"));
                },
            }
            i = i + 1;
        }
        if (data.len() as u64) < end - base {
            return Err(FilesystemError::new("the chunks of the file are shorter than its size"));
        }
        let lo = (offset - base) as usize;
        let hi = (end - base) as usize;
        Ok(copy_bytes(&data.as_slice()[lo..hi]))
    }

    /// The object that `path` names: `/`, the root directory's object in hex,
    /// then names walked from the root. Fails on a malformed path or root, a
    /// root that is not a stored directory, a name that is not bound, an
    /// object that is not stored, and a name after a file.
    fn resolve_path(&self, path: &str) -> (r: Result<Object, PathResolutionError>)
        ensures
            r is Ok <==> resolve(self.contents(), name_bytes(path@)) is Some,
            r matches Ok(o) ==> o@ == resolve(self.contents(), name_bytes(path@))->0,
    {
        let p = path.as_bytes();
        let ghost m = self.contents();
        if p.len() == 0 || p[0] != SLASH {
            return Err(PathResolutionError::new("paths must begin with '/'"));
        }
        let stop = find_slash(p, 1);
        let root_hash = match decode_hash(&p[1..stop]) {
            Some(h) => h,
            None => {
                return Err(PathResolutionError::new("root name is not a valid sha256 hash"));
            },
        };
        let root = Object::new(root_hash);
        let mut dir = match self.get_directory(&root) {
            Some(d) => d,
            None => {
                return Err(PathResolutionError::new("unable to find root"));
            },
        };
        let mut item = root;
        if stop == p.len() {
            return Ok(item);
        }
        let mut pos = stop + 1;
        loop
            invariant
                m == self.contents(),
                p@ == name_bytes(path@),
                0 < pos <= p@.len(),
                walk(m, p@, pos as int, dir@, item@) == resolve(m, p@),
            decreases p@.len() + 1 - pos,
        {
            let stop = find_slash(p, pos);
            let name = &p[pos..stop];
            assert(name@ == p@.subrange(pos as int, stop as int));
            let child = if name.len() == 0 {
                let here = Resource::Directory(dir.duplicate());
                Object::from_resource(&here)
            } else {
                match dir.child_by_bytes(name) {
                    Some(c) => c,
                    None => {
                        return Err(PathResolutionError::new("unable to find entry"));
                    },
                }
            };
            match self.get_resource(&child) {
                None => {
                    return Err(PathResolutionError::new("unable to find entry"));
                },
                Some(Resource::Directory(d)) => {
                    dir = d;
                    item = child;
                },
                Some(Resource::File(_)) => {
                    if stop == p.len() {
                        return Ok(child);
                    } else {
                        return Err(PathResolutionError::new("a file has no entries"));
                    }
                },
                Some(Resource::Chunk(_)) => {
                    item = child;
                },
            }
            assert(walk(m, p@, stop + 1, dir@, item@) == resolve(m, p@));
            if stop == p.len() {
                assert(walk(m, p@, stop + 1, dir@, item@) == Some(item@));
                return Ok(item);
            }
            pos = stop + 1;
        }
    }
}

} // verus!
