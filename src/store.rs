use vstd::prelude::*;
use crate::bytes::{bytes_lt, compare_bytes, concat, lemma_bytes_lt_total, lemma_bytes_lt_transitive};
use crate::chunk::{chunk_at, chunk_count, Chunk, CHUNK_SIZE};
use crate::directory::{binds, entries_view, last_binding, names_sorted, Directory, DirectoryEntry};
use crate::error::PathResolutionError;
use crate::file::{hashes_of, File};
use crate::cas::ContentAddressedStore;
use crate::object::Object;
use crate::resource::{object_id, Resource, ResourceModel};

verus! {

/// The keys of `m` that name a file or a directory.
pub open spec fn roots_of(m: Map<Seq<u8>, ResourceModel>) -> Set<Seq<u8>> {
    Set::new(|k: Seq<u8>| m.contains_key(k) && !(m[k] is Chunk))
}

/// An in-memory store: a mapping from object to resource, filled only by
/// inserting resources under their own object, never overwritten.
#[derive(Debug)]
pub struct LocalStore {
    resources: Vec<(Object, Resource)>,
}

spec fn keys_distinct(rs: Seq<(Object, Resource)>) -> bool {
    forall|i: int, j: int| 0 <= i < rs.len() && 0 <= j < rs.len() && i != j ==> (#[trigger] rs[i]).0@ != (#[trigger] rs[j]).0@
}

spec fn keys_match(rs: Seq<(Object, Resource)>) -> bool {
    forall|i: int| 0 <= i < rs.len() ==> (#[trigger] rs[i]).0@ == object_id(rs[i].1@)
}

spec fn has_key(rs: Seq<(Object, Resource)>, k: Seq<u8>) -> bool {
    exists|i: int| 0 <= i < rs.len() && (#[trigger] rs[i]).0@ == k
}

spec fn root_before(rs: Seq<(Object, Resource)>, n: int, k: Seq<u8>) -> bool {
    exists|j: int| 0 <= j < n && (#[trigger] rs[j]).0@ == k && !(rs[j].1@ is Chunk)
}

/// Objects in strictly ascending byte order of their hashes.
pub open spec fn ascending(v: Seq<Object>) -> bool {
    forall|a: int, b: int| 0 <= a < b < v.len() ==> bytes_lt(#[trigger] v[a]@, #[trigger] v[b]@)
}

/// Puts `o`, which `v` does not hold, where it belongs in ascending `v`.
fn insert_ascending(v: &mut Vec<Object>, o: Object)
    requires
        ascending(old(v)@),
        !listed(old(v)@, o@),
    ensures
        ascending(final(v)@),
        forall|k: Seq<u8>| #[trigger] listed(final(v)@, k) <==> (listed(old(v)@, k) || k == o@),
{
    let ghost old_v = v@;
    let mut i: usize = 0;
    while i < v.len() && compare_bytes(&v[i].hash, &o.hash) == -1
        invariant
            i <= v@.len(),
            v@ == old_v,
            forall|j: int| 0 <= j < i ==> bytes_lt(#[trigger] v@[j]@, o@),
        decreases v@.len() - i,
    {
        i = i + 1;
    }
    proof {
        if i < old_v.len() {
            assert(old_v[i as int]@ != o@) by {
                if old_v[i as int]@ == o@ {
                    assert(listed(old_v, o@));
                }
            }
            if !bytes_lt(old_v[i as int]@, o@) {
                lemma_bytes_lt_total(old_v[i as int]@, o@);
            }
            assert(bytes_lt(o@, old_v[i as int]@));
        }
    }
    v.insert(i, o);
    proof {
        let nv = v@;
        assert(nv == old_v.insert(i as int, o));
        assert forall|a: int, b: int| 0 <= a < b < nv.len() implies bytes_lt(#[trigger] nv[a]@, #[trigger] nv[b]@) by {
            if b < i {
                assert(bytes_lt(old_v[a]@, old_v[b]@));
            } else if b == i {
                assert(bytes_lt(old_v[a]@, o@));
            } else if a == i {
                if b - 1 > i {
                    assert(bytes_lt(old_v[i as int]@, old_v[b - 1]@));
                    lemma_bytes_lt_transitive(o@, old_v[i as int]@, old_v[b - 1]@);
                }
            } else if a < i {
                assert(bytes_lt(old_v[a]@, o@));
                lemma_bytes_lt_transitive(old_v[a]@, o@, old_v[i as int]@);
                if b - 1 > i {
                    assert(bytes_lt(old_v[i as int]@, old_v[b - 1]@));
                    lemma_bytes_lt_transitive(old_v[a]@, old_v[i as int]@, old_v[b - 1]@);
                }
            } else {
                assert(bytes_lt(old_v[a - 1]@, old_v[b - 1]@));
            }
        }
        assert forall|k: Seq<u8>| #[trigger] listed(nv, k) <==> (listed(old_v, k) || k == o@) by {
            if listed(nv, k) {
                let j = choose|j: int| 0 <= j < nv.len() && #[trigger] nv[j]@ == k;
                if j < i {
                    assert(old_v[j]@ == k);
                } else if j > i {
                    assert(old_v[j - 1]@ == k);
                }
            }
            if listed(old_v, k) {
                let j = choose|j: int| 0 <= j < old_v.len() && #[trigger] old_v[j]@ == k;
                if j < i {
                    assert(nv[j]@ == k);
                } else {
                    assert(nv[j + 1]@ == k);
                }
            }
            if k == o@ {
                assert(nv[i as int]@ == k);
            }
        }
    }
}

/// Some object of `v` is `k`.
pub open spec fn listed(v: Seq<Object>, k: Seq<u8>) -> bool {
    exists|i: int| 0 <= i < v.len() && #[trigger] v[i]@ == k
}

spec fn map_of(rs: Seq<(Object, Resource)>) -> Map<Seq<u8>, ResourceModel> {
    Map::new(
        |k: Seq<u8>| has_key(rs, k),
        |k: Seq<u8>| rs[choose|i: int| 0 <= i < rs.len() && (#[trigger] rs[i]).0@ == k].1@,
    )
}

proof fn lemma_map_at(rs: Seq<(Object, Resource)>, i: int)
    requires
        keys_distinct(rs),
        0 <= i < rs.len(),
    ensures
        map_of(rs).contains_key(rs[i].0@),
        map_of(rs)[rs[i].0@] == rs[i].1@,
{
    let k = rs[i].0@;
    assert(has_key(rs, k));
    let j = choose|j: int| 0 <= j < rs.len() && (#[trigger] rs[j]).0@ == k;
    assert(i == j);
}

proof fn lemma_map_push(rs: Seq<(Object, Resource)>, e: (Object, Resource))
    requires
        keys_distinct(rs),
        !has_key(rs, e.0@),
    ensures
        keys_distinct(rs.push(e)),
        map_of(rs.push(e)) == map_of(rs).insert(e.0@, e.1@),
{
    let ns = rs.push(e);
    assert forall|i: int, j: int| 0 <= i < ns.len() && 0 <= j < ns.len() && i != j implies (#[trigger] ns[i]).0@
        != (#[trigger] ns[j]).0@ by {
        if i < rs.len() && j < rs.len() {
            assert(rs[i] == ns[i] && rs[j] == ns[j]);
        } else if i < rs.len() {
            assert(rs[i] == ns[i]);
        } else if j < rs.len() {
            assert(rs[j] == ns[j]);
        }
    }
    let m = map_of(rs).insert(e.0@, e.1@);
    assert forall|k: Seq<u8>| #[trigger] map_of(ns).contains_key(k) <==> m.contains_key(k) by {
        if has_key(ns, k) {
            let i = choose|i: int| 0 <= i < ns.len() && (#[trigger] ns[i]).0@ == k;
            if i < rs.len() {
                assert(rs[i] == ns[i]);
            }
        }
        if has_key(rs, k) {
            let i = choose|i: int| 0 <= i < rs.len() && (#[trigger] rs[i]).0@ == k;
            assert(ns[i] == rs[i]);
        }
        if k == e.0@ {
            assert(ns[rs.len() as int] == e);
        }
    }
    assert forall|k: Seq<u8>| #[trigger] map_of(ns).contains_key(k) implies map_of(ns)[k] == m[k] by {
        let i = choose|i: int| 0 <= i < ns.len() && (#[trigger] ns[i]).0@ == k;
        lemma_map_at(ns, i);
        if i < rs.len() {
            assert(rs[i] == ns[i]);
            lemma_map_at(rs, i);
        }
    }
    assert(map_of(ns) =~= m);
}

/// Whether `m` holds a chunk under `h`.
pub open spec fn chunk_held(m: Map<Seq<u8>, ResourceModel>, h: Seq<u8>) -> bool {
    m.contains_key(h) && m[h] is Chunk
}

/// The bytes of the chunk that `m` holds under `h`.
pub open spec fn chunk_data(m: Map<Seq<u8>, ResourceModel>, h: Seq<u8>) -> Seq<u8> {
    m[h]->Chunk_0
}

/// One past the last byte a read of `size` bytes at `offset` covers in a file
/// of `file_size` bytes.
pub open spec fn window_end(file_size: u64, offset: u64, size: u64) -> int {
    if offset + size <= file_size {
        offset + size
    } else {
        file_size as int
    }
}

/// The index of the chunk holding byte `offset`.
pub open spec fn first_chunk(offset: int) -> int {
    offset / (CHUNK_SIZE as int)
}

/// The number of chunks that cover bytes up to `end` (exclusive): `end`
/// divided by the chunk size, rounded up.
pub open spec fn last_chunk(end: int) -> int {
    (end + CHUNK_SIZE - 1) / (CHUNK_SIZE as int)
}

/// The bytes of the chunks `hashes[first..last]` as `m` holds them, joined.
pub open spec fn joined_chunks(m: Map<Seq<u8>, ResourceModel>, hashes: Seq<Seq<u8>>, first: int, last: int) -> Seq<u8> {
    concat(Seq::new((last - first) as nat, |k: int| chunk_data(m, hashes[first + k])))
}

/// What a ranged read returns: for a file of `file_size` bytes made of the
/// chunks `hashes`, the bytes from `offset` up to `offset + size` clamped to
/// the file's size. The chunks from `offset / CHUNK_SIZE` up to that end
/// divided by `CHUNK_SIZE` rounded up are fetched, also for an empty window;
/// `None` where one of them is not held or they are too short. An offset past
/// the end of the file gives nothing.
pub open spec fn read_window(
    m: Map<Seq<u8>, ResourceModel>,
    hashes: Seq<Seq<u8>>,
    file_size: u64,
    offset: u64,
    size: u64,
) -> Option<Seq<u8>> {
    let end = window_end(file_size, offset, size);
    if offset > end {
        Some(Seq::empty())
    } else {
        let first = first_chunk(offset as int);
        let last = last_chunk(end);
        if last > hashes.len() {
            None
        } else if !(forall|i: int| first <= i < last ==> chunk_held(m, #[trigger] hashes[i])) {
            None
        } else {
            let data = joined_chunks(m, hashes, first, last);
            let base = first * CHUNK_SIZE;
            if data.len() < end - base {
                None
            } else {
                Some(data.subrange(offset - base, end - base))
            }
        }
    }
}

/// Adds `r` to `m` under its object unless that object is present.
pub open spec fn insert_new(m: Map<Seq<u8>, ResourceModel>, r: ResourceModel) -> Map<Seq<u8>, ResourceModel> {
    if m.contains_key(object_id(r)) {
        m
    } else {
        m.insert(object_id(r), r)
    }
}

/// Adds each of `rs` in turn, as `insert_new` does.
pub open spec fn insert_all(m: Map<Seq<u8>, ResourceModel>, rs: Seq<ResourceModel>) -> Map<Seq<u8>, ResourceModel>
    decreases rs.len(),
{
    if rs.len() == 0 {
        m
    } else {
        insert_new(insert_all(m, rs.drop_last()), rs.last())
    }
}

/// The chunks of `data`, as resources.
pub open spec fn chunk_resources(data: Seq<u8>) -> Seq<ResourceModel> {
    Seq::new(chunk_count(data.len()), |i: int| ResourceModel::Chunk(chunk_at(data, i)))
}

/// The objects of the chunks of `data`.
pub open spec fn chunk_objects(data: Seq<u8>) -> Seq<Seq<u8>> {
    Seq::new(chunk_count(data.len()), |i: int| object_id(ResourceModel::Chunk(chunk_at(data, i))))
}

/// The file resource made of the chunks of `data`.
pub open spec fn file_resource(data: Seq<u8>) -> ResourceModel {
    ResourceModel::File(chunk_objects(data), data.len() as u64)
}

impl View for LocalStore {
    type V = Map<Seq<u8>, ResourceModel>;

    closed spec fn view(&self) -> Map<Seq<u8>, ResourceModel> {
        map_of(self.resources@)
    }
}

impl LocalStore {
    #[verifier::type_invariant]
    spec fn wf(self) -> bool {
        keys_distinct(self.resources@) && keys_match(self.resources@)
    }

    /// An empty store.
    pub fn new() -> (s: LocalStore)
        ensures
            s@ == Map::<Seq<u8>, ResourceModel>::empty(),
    {
        let s = LocalStore { resources: Vec::new() };
        assert(map_of(s.resources@) =~= Map::<Seq<u8>, ResourceModel>::empty());
        s
    }

    /// Where `object` is filed, if it is.
    fn position(&self, object: &Object) -> (r: Option<usize>)
        ensures
            r is Some <==> self@.contains_key(object@),
            r matches Some(i) ==> i < self.resources@.len() && self.resources@[i as int].0@ == object@
                && self.resources@[i as int].1@ == self@[object@] && object_id(self@[object@]) == object@,
    {
        proof {
            use_type_invariant(self);
        }
        let mut i: usize = 0;
        while i < self.resources.len()
            invariant
                i <= self.resources@.len(),
                keys_distinct(self.resources@),
                keys_match(self.resources@),
                forall|j: int| 0 <= j < i ==> (#[trigger] self.resources@[j]).0@ != object@,
            decreases self.resources@.len() - i,
        {
            if self.resources[i].0.same(object) {
                proof {
                    lemma_map_at(self.resources@, i as int);
                }
                return Some(i);
            }
            i = i + 1;
        }
        None
    }

    /// Files `resource` under its object unless that object is stored already,
    /// and returns the object. A stored resource is never replaced.
    pub fn add_resource(&mut self, resource: Resource) -> (o: Object)
        ensures
            o@ == object_id(resource@),
            final(self)@ == (if old(self)@.contains_key(o@) {
                old(self)@
            } else {
                old(self)@.insert(o@, resource@)
            }),
    {
        let object = Object::from_resource(&resource);
        if self.position(&object).is_none() {
            proof {
                use_type_invariant(&*self);
                lemma_map_push(self.resources@, (object, resource));
            }
            let mut taken = LocalStore { resources: Vec::new() };
            core::mem::swap(self, &mut taken);
            let LocalStore { mut resources } = taken;
            resources.push((object, resource));
            assert(keys_match(resources@));
            *self = LocalStore { resources };
        }
        object
    }
}

} // verus!

verus! {

impl ContentAddressedStore for LocalStore {
    open spec fn contents(&self) -> Map<Seq<u8>, ResourceModel> {
        self@
    }

    fn has(&self, object: &Object) -> (r: bool) {
        self.position(object).is_some()
    }

    fn get_resource(&self, object: &Object) -> (r: Option<Resource>) {
        let ghost m = self.contents();
        assert(m == self@);
        match self.position(object) {
            Some(i) => {
                let x = self.resources[i].1.duplicate();
                assert(x@ == m[object@]);
                Some(x)
            },
            None => None,
        }
    }

    /// The objects of the stored files and directories, in ascending byte
    /// order of their hashes; chunks are never roots.
    fn accessible_objects(&self) -> (r: Result<Vec<Object>, PathResolutionError>)
        ensures
            r is Ok,
    {
        proof {
            use_type_invariant(self);
        }
        let mut v: Vec<Object> = Vec::new();
        let mut i: usize = 0;
        while i < self.resources.len()
            invariant
                i <= self.resources@.len(),
                keys_distinct(self.resources@),
                forall|k: Seq<u8>| #[trigger] root_before(self.resources@, i as int, k) <==> listed(v@, k),
                ascending(v@),
            decreases self.resources@.len() - i,
        {
            let rs = Ghost(self.resources@);
            let is_root = match &self.resources[i].1 {
                Resource::Chunk(_) => false,
                _ => true,
            };
            let ghost before = v@;
            let ghost key = rs@[i as int].0@;
            if is_root {
                proof {
                    if listed(before, key) {
                        assert(root_before(rs@, i as int, key));
                        let w = choose|w: int| 0 <= w < i && (#[trigger] rs@[w]).0@ == key && !(rs@[w].1@ is Chunk);
                        assert(rs@[w].0@ != rs@[i as int].0@);
                    }
                }
                insert_ascending(&mut v, self.resources[i].0);
            }
            proof {
                assert forall|k: Seq<u8>| #[trigger] root_before(rs@, i + 1, k) <==> listed(v@, k) by {
                    if root_before(rs@, i + 1, k) {
                        let j = choose|j: int| 0 <= j < i + 1 && (#[trigger] rs@[j]).0@ == k && !(rs@[j].1@ is Chunk);
                        if j < i {
                            assert(root_before(rs@, i as int, k));
                        } else {
                            assert(is_root);
                        }
                    }
                    if listed(v@, k) {
                        if listed(before, k) {
                            assert(root_before(rs@, i as int, k));
                            let w = choose|w: int| 0 <= w < i && (#[trigger] rs@[w]).0@ == k && !(rs@[w].1@ is Chunk);
                            assert(root_before(rs@, i + 1, k));
                        } else {
                            assert(is_root && k == key);
                            assert(root_before(rs@, i + 1, k));
                        }
                    }
                }
            }
            i = i + 1;
        }
        proof {
            let rs = self.resources@;
            assert forall|k: Seq<u8>| #[trigger] roots_of(self@).contains(k) <==> listed(v@, k) by {
                if roots_of(self@).contains(k) {
                    let j = choose|j: int| 0 <= j < rs.len() && (#[trigger] rs[j]).0@ == k;
                    lemma_map_at(rs, j);
                }
                if root_before(rs, rs.len() as int, k) {
                    let j = choose|j: int| 0 <= j < rs.len() && (#[trigger] rs[j]).0@ == k && !(rs[j].1@ is Chunk);
                    lemma_map_at(rs, j);
                }
            }
        }
        Ok(v)
    }
}

impl LocalStore {
    /// Splits `contents` into chunks, stores each and then the file made of
    /// them, and returns the file's object.
    pub fn create_file(&mut self, contents: &[u8]) -> (o: Object)
        requires
            contents@.len() <= u64::MAX,
        ensures
            o@ == object_id(file_resource(contents@)),
            final(self)@ == insert_new(insert_all(old(self)@, chunk_resources(contents@)), file_resource(contents@)),
            final(self)@.contains_key(o@),
    {
        let chunks = Chunk::chunks_from_data(contents);
        let ghost start = self@;
        let ghost crs = chunk_resources(contents@);
        let ghost cos = chunk_objects(contents@);
        let mut objects: Vec<Object> = Vec::new();
        let mut i: usize = 0;
        while i < chunks.len()
            invariant
                i <= chunks@.len(),
                chunks@.len() == chunk_count(contents@.len() as nat),
                forall|j: int| 0 <= j < chunks@.len() ==> #[trigger] chunks@[j]@ == chunk_at(contents@, j),
                crs == chunk_resources(contents@),
                cos == chunk_objects(contents@),
                self@ == insert_all(start, crs.subrange(0, i as int)),
                objects@.len() == i,
                forall|j: int| 0 <= j < i ==> #[trigger] objects@[j]@ == cos[j],
            decreases chunks@.len() - i,
        {
            let c = chunks[i].duplicate();
            let o = self.add_resource(Resource::Chunk(c));
            objects.push(o);
            proof {
                assert(crs.subrange(0, i + 1).drop_last() =~= crs.subrange(0, i as int));
            }
            i = i + 1;
        }
        assert(crs.subrange(0, i as int) =~= crs);
        assert(hashes_of(objects@) =~= cos);
        let file = File::new(objects, contents.len() as u64);
        let o = self.add_resource(Resource::File(file));
        o
    }

    /// Stores the directory made of `entries` (the last entry of a repeated
    /// name wins) and returns its object.
    pub fn create_directory(&mut self, entries: Vec<DirectoryEntry>) -> (o: Object)
        ensures
            final(self)@.contains_key(o@),
            exists|d: Seq<(Seq<char>, Seq<u8>)>|
                names_sorted(d)
                && (forall|n: Seq<char>, h: Seq<u8>|
                    #[trigger] binds(d, n, h)
                        <==> last_binding(entries_view(entries@), n, h))
                && o@ == object_id(ResourceModel::Directory(d))
                && final(self)@ == insert_new(old(self)@, ResourceModel::Directory(d)),
    {
        let dir = Directory::new(entries);
        let ghost dv = dir@;
        let o = self.add_resource(Resource::Directory(dir));
        assert(names_sorted(dv));
        o
    }

}

} // verus!
