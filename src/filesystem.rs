//! A local store used as the authoritative cache in front of the network.
//! Fetching goes to the local store first; on a miss the caller asks the
//! peers and hands their answer back here, which caches it.
use vstd::prelude::*;
use crate::cas::ContentAddressedStore;
use crate::directory::{binds, entries_view, last_binding, names_sorted, DirectoryEntry};
use crate::error::PathResolutionError;
use crate::file::File;
use crate::object::Object;
use crate::resource::{object_id, Resource, ResourceModel};
use crate::store::{
    chunk_resources, file_resource, first_chunk, insert_all, insert_new, last_chunk, window_end, LocalStore,
};

verus! {

/// What to do after looking `object` up locally.
#[derive(Debug)]
pub enum Lookup {
    /// Found in the local store.
    Local(Resource),
    /// Not held here: ask the peers, then call `Filesystem::fill`.
    AskPeers,
}

/// The local store of a node that can also ask peers.
#[derive(Debug)]
pub struct Filesystem {
    store: LocalStore,
}

impl View for Filesystem {
    type V = Map<Seq<u8>, ResourceModel>;

    closed spec fn view(&self) -> Map<Seq<u8>, ResourceModel> {
        self.store@
    }
}

impl Filesystem {
    pub fn new() -> (f: Filesystem)
        ensures
            f@ == Map::<Seq<u8>, ResourceModel>::empty(),
    {
        Filesystem { store: LocalStore::new() }
    }

    /// The local store, for the reads that need only it.
    pub fn store(&self) -> (s: &LocalStore)
        ensures
            s@ == self@,
    {
        &self.store
    }

    pub fn create_file(&mut self, contents: &[u8]) -> (o: Object)
        requires
            contents@.len() <= u64::MAX,
        ensures
            o@ == object_id(file_resource(contents@)),
            final(self)@ == insert_new(
                insert_all(old(self)@, chunk_resources(contents@)),
                file_resource(contents@),
            ),
            final(self)@.contains_key(o@),
    {
        self.store.create_file(contents)
    }

    pub fn create_directory(&mut self, entries: Vec<DirectoryEntry>) -> (o: Object)
        ensures
            final(self)@.contains_key(o@),
            exists|d: Seq<(Seq<char>, Seq<u8>)>|
                names_sorted(d)
                && (forall|n: Seq<char>, h: Seq<u8>|
                    #[trigger] binds(d, n, h)
                        <==> last_binding(entries_view(entries@), n, h))
                && o@ == object_id(ResourceModel::Directory(d))
                && final(self)@ == insert_new(old(self)@, ResourceModel::Directory(d)),
    {
        self.store.create_directory(entries)
    }

    /// The first step of a fetch: the local copy, or the word to ask the peers.
    pub fn lookup(&self, object: &Object) -> (r: Lookup)
        ensures
            self@.contains_key(object@) ==> (r matches Lookup::Local(x) && x@ == self@[object@]),
            r matches Lookup::Local(x) ==> object_id(x@) == object@,
            !self@.contains_key(object@) ==> r is AskPeers,
    {
        match self.store.get_resource(object) {
            Some(r) => Lookup::Local(r),
            None => Lookup::AskPeers,
        }
    }

    /// The second step of a fetch, with what the peers answered: a resource
    /// they sent is cached here, then handed back.
    pub fn fill(&mut self, fetched: Option<Resource>) -> (r: Option<Resource>)
        ensures
            fetched is None ==> r is None && final(self)@ == old(self)@,
            fetched matches Some(x) ==> (r matches Some(y) && y@ == x@ && final(self)@ == insert_new(old(self)@, x@)),
    {
        match fetched {
            Some(x) => {
                let copy = x.duplicate();
                self.store.add_resource(copy);
                Some(x)
            },
            None => None,
        }
    }
}

/// The store interface over what is held locally. Its fetches, and so the
/// `read_file` and `resolve_path` built on them, never ask the peers: a
/// caller that wants the peers' resources fetches them first, through
/// `lookup` and `fill` (for a read, the objects `covering_chunks` names), and
/// a path whose directories are not held locally does not resolve.
impl ContentAddressedStore for Filesystem {
    open spec fn contents(&self) -> Map<Seq<u8>, ResourceModel> {
        self@
    }

    fn get_resource(&self, object: &Object) -> (r: Option<Resource>) {
        self.store.get_resource(object)
    }

    /// Peers are not asked.
    fn has(&self, object: &Object) -> (r: bool) {
        self.store.has(object)
    }

    /// The local roots; peers are not asked.
    fn accessible_objects(&self) -> (r: Result<Vec<Object>, PathResolutionError>)
        ensures
            r is Ok,
    {
        let r = self.store.accessible_objects();
        assert(self.store.contents() == self.contents());
        r
    }
}

/// The chunks a read of `size` bytes at `offset` fetches, in order; those past
/// the end of the file's list are left out. None when `offset` lies past the
/// end of the file.
pub fn covering_chunks(file: &File, offset: u64, size: u64) -> (r: Vec<Object>)
    ensures
        ({
            let end = window_end(file.size, offset, size);
            let last = last_chunk(end);
            let stop = if last < file.contents@.len() { last } else { file.contents@.len() as int };
            if offset <= end && first_chunk(offset as int) < stop {
                r@ == file.contents@.subrange(first_chunk(offset as int), stop)
            } else {
                r@.len() == 0
            }
        }),
{
    let end: u64 = if size <= file.size && offset <= file.size - size {
        offset + size
    } else {
        file.size
    };
    let mut r: Vec<Object> = Vec::new();
    if offset > end {
        return r;
    }
    let first: u64 = offset / crate::chunk::CHUNK_SIZE;
    let last: u64 = if end % crate::chunk::CHUNK_SIZE == 0 {
        end / crate::chunk::CHUNK_SIZE
    } else {
        end / crate::chunk::CHUNK_SIZE + 1
    };
    assert(last == last_chunk(end as int));
    let stop: usize = if last < file.contents.len() as u64 {
        last as usize
    } else {
        file.contents.len()
    };
    if first >= stop as u64 {
        return r;
    }
    let mut i: usize = first as usize;
    while i < stop
        invariant
            first <= i <= stop,
            stop <= file.contents@.len(),
            r@ == file.contents@.subrange(first as int, i as int),
        decreases stop - i,
    {
        r.push(file.contents[i]);
        i = i + 1;
        assert(r@ =~= file.contents@.subrange(first as int, i as int));
    }
    r
}

} // verus!
