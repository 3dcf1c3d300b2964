use dfs::cas::ContentAddressedStore;
use dfs::chunk::{Chunk, CHUNK_SIZE};
use dfs::directory::{Directory, DirectoryEntry};
use dfs::file::File;
use dfs::filesystem::{covering_chunks, Filesystem, Lookup};
use dfs::object::Object;
use dfs::protocol::{
    availability_from_response, frame, frame_length, resource_from_response, AvailabilityCheckRequest,
    AvailabilityCheckResponse, ClientError, ConnectRequest, RedirectResponse, Request, ResourceRequest,
    Response, ServerAction,
};
use dfs::resource::Resource;
use dfs::store::LocalStore;

const C: usize = CHUNK_SIZE as usize;

fn pattern(len: usize) -> Vec<u8> {
    (0..len).map(|i| (i % 251) as u8).collect()
}

fn entry(name: &str, file: Object) -> DirectoryEntry {
    DirectoryEntry { name: name.to_string(), file }
}

fn round_trip(len: usize) {
    let data = pattern(len);
    let mut store = LocalStore::new();
    let o = store.create_file(&data);
    let file = store.get_file(&o).expect("file stored");
    assert_eq!(file.size, len as u64);
    let back = store.read_file(&file, 0, len as u64).expect("read");
    assert_eq!(back, data);
}

#[test]
fn chunks_from_empty_data() {
    assert!(Chunk::chunks_from_data(&[]).is_empty());
}

#[test]
fn chunks_from_data_splits_at_chunk_size() {
    let data = pattern(C + 1);
    let chunks = Chunk::chunks_from_data(&data);
    assert_eq!(chunks.len(), 2);
    assert_eq!(chunks[0].data.len(), C);
    assert_eq!(chunks[1].data, vec![data[C]]);
}

#[test]
fn sha256_digest_of_known_input() {
    let o = Object::digest_of(b"abc");
    assert_eq!(o.to_hex(), "ba7816bf8f01cfea414140de5dae2223b00361a396177a9cb410ff61f20015ad");
}

#[test]
fn to_hex_is_lowercase_two_digits_per_byte() {
    let o = Object::new([0xab; 32]);
    assert_eq!(o.to_hex(), "ab".repeat(32));
}

#[test]
fn canonical_encoding_of_chunk() {
    let r = Resource::Chunk(Chunk { data: vec![1, 2] });
    assert_eq!(r.encode(), vec![0, 0, 0, 0, 0, 0, 0, 0, 2, 1, 2]);
}

#[test]
fn canonical_encoding_of_file() {
    let o = Object::new([7; 32]);
    let r = Resource::File(File::new(vec![o], 5));
    let mut want = vec![1, 0, 0, 0, 0, 0, 0, 0, 5, 0, 0, 0, 0, 0, 0, 0, 1];
    want.extend_from_slice(&[7; 32]);
    assert_eq!(r.encode(), want);
}

#[test]
fn same_content_same_object() {
    let a = Resource::Chunk(Chunk { data: b"same".to_vec() });
    let b = Resource::Chunk(Chunk { data: b"same".to_vec() });
    let c = Resource::Chunk(Chunk { data: b"other".to_vec() });
    assert_eq!(Object::from_resource(&a), Object::from_resource(&b));
    assert_ne!(Object::from_resource(&a), Object::from_resource(&c));
}

#[test]
fn directory_object_ignores_entry_order() {
    let x = Object::new([1; 32]);
    let y = Object::new([2; 32]);
    let d1 = Directory::new(vec![entry("a", x), entry("b", y)]);
    let d2 = Directory::new(vec![entry("b", y), entry("a", x)]);
    assert_eq!(
        Object::from_resource(&Resource::Directory(d1)),
        Object::from_resource(&Resource::Directory(d2))
    );
}

#[test]
fn adding_same_resource_twice() {
    let mut store = LocalStore::new();
    let o1 = store.add_resource(Resource::Directory(Directory::new(vec![])));
    let o2 = store.add_resource(Resource::Directory(Directory::new(vec![])));
    assert_eq!(o1, o2);
    assert_eq!(store.accessible_objects().unwrap().len(), 1);
}

#[test]
fn creating_same_file_twice() {
    let mut store = LocalStore::new();
    let o1 = store.create_file(b"twice");
    let o2 = store.create_file(b"twice");
    assert_eq!(o1, o2);
    assert_eq!(store.accessible_objects().unwrap(), vec![o1]);
}

#[test]
fn round_trip_empty() {
    round_trip(0);
}

#[test]
fn round_trip_one_byte() {
    round_trip(1);
}

#[test]
fn round_trip_just_under_chunk() {
    round_trip(C - 1);
}

#[test]
fn round_trip_exact_chunk() {
    round_trip(C);
}

#[test]
fn round_trip_just_over_chunk() {
    round_trip(C + 1);
}

#[test]
fn round_trip_two_chunks() {
    round_trip(2 * C);
}

#[test]
fn ranged_read_across_chunk_boundary() {
    let data = pattern(C + 10);
    let mut store = LocalStore::new();
    let o = store.create_file(&data);
    let file = store.get_file(&o).unwrap();
    assert_eq!(file.contents.len(), 2);
    let got = store.read_file(&file, (C - 5) as u64, 10).unwrap();
    assert_eq!(got, data[C - 5..C + 5].to_vec());
    let tail = store.read_file(&file, (C + 8) as u64, 100).unwrap();
    assert_eq!(tail, data[C + 8..].to_vec());
    let past = store.read_file(&file, (C + 20) as u64, 4).unwrap();
    assert!(past.is_empty());
}

#[test]
fn ranged_read_missing_chunk_fails() {
    let store = LocalStore::new();
    let file = File::new(vec![Object::new([9; 32])], 3);
    assert!(store.read_file(&file, 0, 3).is_err());
}

#[test]
fn hello_world_file_in_directory() {
    let mut store = LocalStore::new();
    let h1 = store.create_file(b"hello world");
    let file = store.get_file(&h1).unwrap();
    assert_eq!(file.contents.len(), 1);
    let h2 = store.create_directory(vec![entry("greeting", h1)]);
    let path = format!("/{}/greeting", h2.to_hex());
    assert_eq!(store.resolve_path(&path).unwrap(), h1);
    assert_eq!(store.read_file(&file, 6, 5).unwrap(), b"world".to_vec());
}

fn tree() -> (LocalStore, Object, Object, Object) {
    let mut store = LocalStore::new();
    let b = store.create_file(b"contents of b");
    let a = store.create_directory(vec![entry("b", b)]);
    let root = store.create_directory(vec![entry("a", a)]);
    (store, root, a, b)
}

#[test]
fn resolve_root_alone() {
    let (store, root, _, _) = tree();
    assert_eq!(store.resolve_path(&format!("/{}", root.to_hex())).unwrap(), root);
}

#[test]
fn resolve_nested_file() {
    let (store, root, a, b) = tree();
    assert_eq!(store.resolve_path(&format!("/{}/a/b", root.to_hex())).unwrap(), b);
    assert_eq!(store.resolve_path(&format!("/{}/a", root.to_hex())).unwrap(), a);
}

#[test]
fn resolve_trailing_slash_names_directory() {
    let (store, root, a, _) = tree();
    assert_eq!(store.resolve_path(&format!("/{}/a/", root.to_hex())).unwrap(), a);
}

#[test]
fn resolve_uppercase_root() {
    let (store, root, _, _) = tree();
    let path = format!("/{}", root.to_hex().to_uppercase());
    assert_eq!(store.resolve_path(&path).unwrap(), root);
}

#[test]
fn resolve_past_file_fails() {
    let (store, root, _, _) = tree();
    assert!(store.resolve_path(&format!("/{}/a/b/c", root.to_hex())).is_err());
}

#[test]
fn resolve_invalid_root_fails() {
    let (store, _, _, _) = tree();
    assert!(store.resolve_path("/not-hex").is_err());
    assert!(store.resolve_path(&format!("/{}", "ab".repeat(31))).is_err());
    assert!(store.resolve_path(&format!("/{}", "zz".repeat(32))).is_err());
}

#[test]
fn resolve_without_leading_slash_fails() {
    let (store, root, _, _) = tree();
    assert!(store.resolve_path(&root.to_hex()).is_err());
}

#[test]
fn resolve_unknown_name_fails() {
    let (store, root, _, _) = tree();
    assert!(store.resolve_path(&format!("/{}/missing", root.to_hex())).is_err());
}

#[test]
fn resolve_root_that_is_a_file_fails() {
    let (store, _, _, b) = tree();
    assert!(store.resolve_path(&format!("/{}", b.to_hex())).is_err());
}

#[test]
fn typed_fetch_wrong_kind_is_a_miss() {
    let (store, root, _, b) = tree();
    assert!(store.get_file(&root).is_none());
    assert!(store.get_directory(&b).is_none());
    assert!(store.get_chunk(&root).is_none());
    assert!(store.get_directory(&root).is_some());
}

#[test]
fn accessible_objects_exclude_chunks() {
    let (store, root, a, b) = tree();
    let roots = store.accessible_objects().unwrap();
    assert_eq!(roots.len(), 3);
    for o in [root, a, b] {
        assert!(roots.contains(&o));
    }
}

#[test]
fn availability_after_creation() {
    let mut store = LocalStore::new();
    let f = store.create_file(b"x");
    let d = store.create_directory(vec![entry("x", f)]);
    assert!(store.has(&f));
    assert!(store.has(&d));
    assert!(!store.has(&Object::digest_of(b"unrelated")));
}

// Guards the rule that adding refuses a name that is already bound and
// accepts one that is not.
#[test]
fn add_resource_rejects_existing_name() {
    let d = Directory::new(vec![entry("a", Object::new([1; 32]))]);
    assert!(d.add_resource(entry("a", Object::new([2; 32]))).is_err());
}

#[test]
fn add_resource_new_name_leaves_receiver() {
    let d = Directory::new(vec![entry("b", Object::new([1; 32]))]);
    let e = d.add_resource(entry("a", Object::new([2; 32]))).unwrap();
    assert_eq!(e.get_child("a").unwrap(), Object::new([2; 32]));
    assert_eq!(e.get_child("b").unwrap(), Object::new([1; 32]));
    assert!(d.get_child("a").is_err());
    let names: Vec<String> = e.get_children().into_iter().map(|c| c.name).collect();
    assert_eq!(names, vec!["a".to_string(), "b".to_string()]);
}

#[test]
fn replace_resource_removes_every_entry_with_that_object() {
    let x = Object::new([1; 32]);
    let y = Object::new([2; 32]);
    let z = Object::new([3; 32]);
    let d = Directory::new(vec![entry("a", x), entry("b", x), entry("c", y)]);
    let e = d.replace_resource(x, entry("n", z)).unwrap();
    assert!(e.get_child("a").is_err());
    assert!(e.get_child("b").is_err());
    assert_eq!(e.get_child("c").unwrap(), y);
    assert_eq!(e.get_child("n").unwrap(), z);
    assert_eq!(d.get_child("a").unwrap(), x);
}

#[test]
fn directory_new_last_entry_wins() {
    let d = Directory::new(vec![entry("a", Object::new([1; 32])), entry("a", Object::new([2; 32]))]);
    assert_eq!(d.get_children().len(), 1);
    assert_eq!(d.get_child("a").unwrap(), Object::new([2; 32]));
}

#[test]
fn get_child_empty_name_is_directory_itself() {
    let d = Directory::new(vec![entry("a", Object::new([1; 32]))]);
    let own = d.get_child("").unwrap();
    assert_eq!(own, Object::from_resource(&Resource::Directory(d)));
}

#[test]
fn frame_prefixes_big_endian_length() {
    assert_eq!(frame(b"abc").unwrap(), vec![0, 0, 0, 3, b'a', b'b', b'c']);
    assert_eq!(frame_length(&[0, 0, 1, 2]), 258);
}

#[test]
fn server_answers_resource_requests() {
    let mut store = LocalStore::new();
    let o = store.create_file(b"served");
    match store.answer(&Request::Resource(ResourceRequest { hash: o })) {
        ServerAction::Reply(Response::Resource(r)) => {
            assert_eq!(Object::from_resource(&r.resource), o)
        }
        other => panic!("unexpected {:?}", other),
    }
    let missing = Object::new([0; 32]);
    assert!(matches!(
        store.answer(&Request::Resource(ResourceRequest { hash: missing })),
        ServerAction::Reply(Response::Error)
    ));
}

#[test]
fn server_answers_availability_in_order() {
    let mut store = LocalStore::new();
    let a = store.create_file(b"a");
    let b = store.create_file(b"b");
    let missing = Object::new([0; 32]);
    let req = Request::AvailabilityCheck(AvailabilityCheckRequest { hashes: vec![b, missing, a] });
    match store.answer(&req) {
        ServerAction::Reply(Response::AvailabilityCheck(r)) => assert_eq!(r.hashes, vec![b, a]),
        other => panic!("unexpected {:?}", other),
    }
}

#[test]
fn server_connects_back_to_announcing_peer() {
    let store = LocalStore::new();
    let req = Request::Connect(ConnectRequest { addr: "127.0.0.1:9000".to_string() });
    match store.answer(&req) {
        ServerAction::ConnectBack(addr) => assert_eq!(addr, "127.0.0.1:9000"),
        other => panic!("unexpected {:?}", other),
    }
}

#[test]
fn client_rejects_unexpected_responses() {
    assert_eq!(resource_from_response(Response::Error).unwrap_err(), ClientError::NotFound);
    let avail = Response::AvailabilityCheck(AvailabilityCheckResponse { hashes: vec![] });
    assert_eq!(resource_from_response(avail).unwrap_err(), ClientError::UnexpectedResponse);
    let redirect = Response::Redirect(RedirectResponse { hash: Object::new([0; 32]), node: "n".to_string() });
    assert_eq!(resource_from_response(redirect).unwrap_err(), ClientError::RedirectUnsupported);
    assert_eq!(availability_from_response(Response::Error).unwrap_err(), ClientError::NotFound);
}

#[test]
fn cache_fill_then_local_hit() {
    let mut peer = LocalStore::new();
    let x = peer.create_file(b"remote bytes");
    let mut fs = Filesystem::new();
    assert!(matches!(fs.lookup(&x), Lookup::AskPeers));
    let sent = match peer.answer(&Request::Resource(ResourceRequest { hash: x })) {
        ServerAction::Reply(resp) => resource_from_response(resp).ok(),
        _ => None,
    };
    let got = fs.fill(sent).expect("peer served it");
    assert_eq!(Object::from_resource(&got), x);
    drop(peer);
    match fs.lookup(&x) {
        Lookup::Local(r) => assert_eq!(Object::from_resource(&r), x),
        Lookup::AskPeers => panic!("not cached"),
    }
    assert!(fs.has(&x));
}

#[test]
fn covering_chunks_of_boundary_window() {
    let data = pattern(C + 10);
    let mut fs = Filesystem::new();
    let o = fs.create_file(&data);
    let file = fs.store().get_file(&o).unwrap();
    assert_eq!(covering_chunks(&file, (C - 1) as u64, 2), file.contents);
    assert_eq!(covering_chunks(&file, 0, 1), vec![file.contents[0]]);
    assert_eq!(covering_chunks(&file, (C + 10) as u64, 1), vec![file.contents[1]]);
    assert!(covering_chunks(&file, (C + 11) as u64, 1).is_empty());
    assert!(covering_chunks(&file, C as u64, 0).is_empty());
}

#[test]
fn from_hex_reads_back_to_hex() {
    let o = Object::digest_of(b"round");
    assert_eq!(Object::from_hex(&o.to_hex()), Some(o));
    assert_eq!(Object::from_hex(&o.to_hex().to_uppercase()), Some(o));
    assert_eq!(Object::from_hex("abc"), None);
    assert_eq!(Object::from_hex(&"g0".repeat(32)), None);
}

#[test]
fn ranged_read_clamps_huge_length() {
    let mut store = LocalStore::new();
    let o = store.create_file(b"clamped");
    let file = store.get_file(&o).unwrap();
    assert_eq!(store.read_file(&file, 2, u64::MAX).unwrap(), b"amped".to_vec());
    assert_eq!(store.read_file(&file, u64::MAX, u64::MAX).unwrap(), Vec::<u8>::new());
}

#[test]
fn fill_without_answer_caches_nothing() {
    let mut fs = Filesystem::new();
    assert!(fs.fill(None).is_none());
    assert!(fs.accessible_objects().unwrap().is_empty());
}

#[test]
fn filesystem_resolves_and_reads_its_own_files() {
    let mut fs = Filesystem::new();
    let f = fs.create_file(b"local data");
    let d = fs.create_directory(vec![entry("f", f)]);
    assert_eq!(fs.resolve_path(&format!("/{}/f", d.to_hex())).unwrap(), f);
    let file = fs.store().get_file(&f).unwrap();
    assert_eq!(fs.read_file(&file, 6, 4).unwrap(), b"data".to_vec());
    assert!(fs.has(&d));
}

#[test]
fn empty_window_inside_a_missing_chunk_fails() {
    let store = LocalStore::new();
    let file = File::new(vec![Object::new([9; 32])], 10);
    assert!(store.read_file(&file, 5, 0).is_err());
    assert!(store.read_file(&file, 10, 0).is_err());
    assert!(store.read_file(&file, 10, 4).is_err());
    assert_eq!(store.read_file(&file, 0, 0).unwrap(), Vec::<u8>::new());
    assert_eq!(store.read_file(&file, 11, 1).unwrap(), Vec::<u8>::new());
}

#[test]
fn empty_window_inside_a_held_chunk_is_empty() {
    let mut store = LocalStore::new();
    let o = store.create_file(b"0123456789");
    let file = store.get_file(&o).unwrap();
    assert_eq!(store.read_file(&file, 5, 0).unwrap(), Vec::<u8>::new());
    assert_eq!(store.read_file(&file, 10, 0).unwrap(), Vec::<u8>::new());
}

#[test]
fn roots_are_listed_in_ascending_hash_order() {
    let mut store = LocalStore::new();
    let f = store.create_file(b"hello world");
    let d = store.create_directory(vec![entry("greeting", f)]);
    let want = if f.hash < d.hash { vec![f, d] } else { vec![d, f] };
    assert_eq!(store.accessible_objects().unwrap(), want);
}

#[test]
fn roots_listing_is_sorted_whatever_the_insertion_order() {
    let mut store = LocalStore::new();
    let mut made = Vec::new();
    for i in 0..20u8 {
        made.push(store.create_file(&[i, i, i]));
    }
    let listed = store.accessible_objects().unwrap();
    made.sort_by(|a, b| a.hash.cmp(&b.hash));
    assert_eq!(listed, made);
}
