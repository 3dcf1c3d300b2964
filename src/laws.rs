//! Laws that relate several operations of the store.
use vstd::prelude::*;
use crate::bytes::concat;
use crate::chunk::{chunk_at, chunk_count, CHUNK_SIZE};
use crate::store::{
    chunk_data, chunk_held, chunk_objects, first_chunk, joined_chunks, last_chunk, read_window,
    window_end,
};
use crate::resource::{encoding, object_id, ResourceModel};
use crate::store::{chunk_resources, file_resource, insert_all, insert_new};
use crate::directory::{binds, child_of, lemma_sorted_unique, name_bytes, names_sorted};
use crate::bytes::{bytes_lt, lemma_bytes_lt_asymmetric, lemma_bytes_lt_irreflexive};
use crate::path::{
    hash_text, hex_decode, hex_text, is_hex_digit, lemma_hex_round_trip, lemma_next_slash_at,
    resolve, walk, SLASH,
};

verus! {

/// `m` holds every chunk of `data` under its object, as the chunk of `data` it is.
pub open spec fn holds_chunks_of(m: Map<Seq<u8>, ResourceModel>, data: Seq<u8>) -> bool {
    forall|i: int|
        0 <= i < chunk_count(data.len()) ==> chunk_held(m, #[trigger] chunk_objects(data)[i])
            && chunk_data(m, chunk_objects(data)[i]) == chunk_at(data, i)
}

proof fn lemma_chunk_start_in_range(len: nat, i: int)
    requires
        0 <= i < chunk_count(len),
    ensures
        i * CHUNK_SIZE < len,
{
    let c = CHUNK_SIZE as int;
    assert(i <= (len - 1) as int / c);
    assert(((len - 1) as int / c) * c <= len - 1) by (nonlinear_arith)
        requires len >= 1, c > 0;
    assert(i * c <= ((len - 1) as int / c) * c) by (nonlinear_arith)
        requires i <= (len - 1) as int / c, c > 0;
}

proof fn lemma_joined_chunks(m: Map<Seq<u8>, ResourceModel>, data: Seq<u8>, first: int, last: int)
    requires
        holds_chunks_of(m, data),
        0 <= first <= last <= chunk_count(data.len()),
        first * CHUNK_SIZE <= data.len(),
    ensures
        joined_chunks(m, chunk_objects(data), first, last) == data.subrange(
            first * CHUNK_SIZE,
            if last * CHUNK_SIZE < data.len() { last * CHUNK_SIZE } else { data.len() as int },
        ),
    decreases last - first,
{
    let hs = chunk_objects(data);
    let f = |k: int| chunk_data(m, hs[first + k]);
    if last == first {
        assert(Seq::new(0, f) =~= Seq::<Seq<u8>>::empty());
        assert(joined_chunks(m, hs, first, last) =~= Seq::<u8>::empty());
        assert(data.subrange(first * CHUNK_SIZE, first * CHUNK_SIZE) =~= Seq::<u8>::empty());
    } else {
        lemma_joined_chunks(m, data, first, last - 1);
        lemma_chunk_start_in_range(data.len(), last - 1);
        let s = Seq::new((last - first) as nat, f);
        assert(s.drop_last() =~= Seq::new((last - 1 - first) as nat, f));
        assert(s.last() == chunk_data(m, hs[last - 1]));
        assert(chunk_data(m, hs[last - 1]) == chunk_at(data, last - 1));
        assert(concat(s) == joined_chunks(m, hs, first, last - 1) + chunk_at(data, last - 1));
        let hi = if last * CHUNK_SIZE < data.len() { last * CHUNK_SIZE } else { data.len() as int };
        assert(data.subrange(first * CHUNK_SIZE, (last - 1) * CHUNK_SIZE) + data.subrange(
            (last - 1) * CHUNK_SIZE,
            hi,
        ) =~= data.subrange(first * CHUNK_SIZE, hi));
    }
}

/// Reading `size` bytes at `offset` from a file made
/// of the chunks of `data`, in a store that holds those chunks, gives the
/// bytes of `data` from `offset` up to `offset + size` clamped to its length;
/// nothing when `offset` lies past the end.
pub proof fn lemma_read_window_exact(m: Map<Seq<u8>, ResourceModel>, data: Seq<u8>, offset: u64, size: u64)
    requires
        data.len() <= u64::MAX,
        holds_chunks_of(m, data),
    ensures
        read_window(m, chunk_objects(data), data.len() as u64, offset, size) == Some(
            if offset <= window_end(data.len() as u64, offset, size) {
                data.subrange(offset as int, window_end(data.len() as u64, offset, size))
            } else {
                Seq::empty()
            },
        ),
{
    let len = data.len();
    let end = window_end(len as u64, offset, size);
    let c = CHUNK_SIZE as int;
    if offset <= end {
        let first = first_chunk(offset as int);
        let last = last_chunk(end);
        let hs = chunk_objects(data);
        assert(first * c <= offset) by (nonlinear_arith)
            requires first == offset as int / c, c > 0, offset >= 0;
        assert(last * c >= end) by (nonlinear_arith)
            requires last == (end + c - 1) / c, c > 0, end >= 0;
        if end >= 1 {
            assert((end + c - 1) / c == (end - 1) / c + 1) by (nonlinear_arith)
                requires c > 0, end >= 1;
            assert((end - 1) / c <= (len - 1) as int / c) by (nonlinear_arith)
                requires end <= len, end >= 1, c > 0;
        } else {
            assert(last == 0);
        }
        assert(last <= chunk_count(len));
        assert(first <= last) by (nonlinear_arith)
            requires first == offset as int / c, last == (end + c - 1) / c, offset <= end, c > 0, offset >= 0;
        assert forall|i: int| first <= i < last implies chunk_held(m, #[trigger] hs[i]) by {
            assert(chunk_held(m, chunk_objects(data)[i]));
        }
        lemma_joined_chunks(m, data, first, last);
        let joined = joined_chunks(m, hs, first, last);
        let hi = if last * c < len { last * c } else { len as int };
        assert(joined.subrange(offset - first * c, end - first * c) =~= data.subrange(offset as int, end));
    }
}

/// Reading the whole of a file made of the chunks of
/// `data`, from a store that holds them, gives back `data`.
pub proof fn lemma_chunk_round_trip(m: Map<Seq<u8>, ResourceModel>, data: Seq<u8>)
    requires
        data.len() <= u64::MAX,
        holds_chunks_of(m, data),
    ensures
        read_window(m, chunk_objects(data), data.len() as u64, 0, data.len() as u64) == Some(data),
{
    lemma_read_window_exact(m, data, 0, data.len() as u64);
    if data.len() == 0 {
        assert(data =~= Seq::<u8>::empty());
    } else {
        assert(data.subrange(0, data.len() as int) =~= data);
    }
}


/// A name usable as one path component: not empty, no `/`.
pub open spec fn plain_name(n: Seq<u8>) -> bool {
    n.len() > 0 && forall|i: int| 0 <= i < n.len() ==> #[trigger] n[i] != SLASH
}

/// `m` holds a directory under `root`.
pub open spec fn holds_directory(m: Map<Seq<u8>, ResourceModel>, root: Seq<u8>) -> bool {
    m.contains_key(root) && m[root] is Directory
}

proof fn lemma_root_segment(p: Seq<u8>, root: Seq<u8>)
    requires
        root.len() == 32,
        p.len() >= 65,
        p[0] == SLASH,
        p.subrange(1, 65) == hex_text(root),
        p.len() > 65 ==> p[65] == SLASH,
    ensures
        crate::path::next_slash(p, 1) == 65,
        hash_text(p.subrange(1, 65)),
        hex_decode(p.subrange(1, 65)) == root,
{
    lemma_hex_round_trip(root);
    assert forall|i: int| 1 <= i < 65 implies p[i] != SLASH by {
        assert(p[i] == p.subrange(1, 65)[i - 1]);
        assert(is_hex_digit(hex_text(root)[i - 1]));
    }
    lemma_next_slash_at(p, 1, 65);
}

/// A path of just the root's object in hex names the root.
pub proof fn lemma_resolve_root(m: Map<Seq<u8>, ResourceModel>, root: Seq<u8>)
    requires
        root.len() == 32,
        holds_directory(m, root),
    ensures
        resolve(m, seq![SLASH] + hex_text(root)) == Some(root),
{
    let p = seq![SLASH] + hex_text(root);
    assert(p.subrange(1, 65) =~= hex_text(root));
    lemma_root_segment(p, root);
}

/// In a root directory binding `a` to a directory that binds `b` to a file,
/// the path `/<root>/a/b` names that file.
pub proof fn lemma_resolve_nested(
    m: Map<Seq<u8>, ResourceModel>,
    root: Seq<u8>,
    a: Seq<u8>,
    a_obj: Seq<u8>,
    b: Seq<u8>,
    b_obj: Seq<u8>,
)
    requires
        root.len() == 32,
        holds_directory(m, root),
        plain_name(a),
        plain_name(b),
        child_of(m[root]->Directory_0, a) == Some(a_obj),
        holds_directory(m, a_obj),
        child_of(m[a_obj]->Directory_0, b) == Some(b_obj),
        m.contains_key(b_obj),
        m[b_obj] is File,
    ensures
        resolve(m, seq![SLASH] + hex_text(root) + seq![SLASH] + a + seq![SLASH] + b) == Some(b_obj),
{
    let p = seq![SLASH] + hex_text(root) + seq![SLASH] + a + seq![SLASH] + b;
    let sa: int = 66 + a.len() as int;
    assert(p.subrange(1, 65) =~= hex_text(root));
    lemma_root_segment(p, root);
    assert forall|i: int| 66 <= i < sa implies p[i] != SLASH by {
        assert(p[i] == a[i - 66]);
    }
    lemma_next_slash_at(p, 66, sa);
    assert(p.subrange(66, sa) =~= a);
    assert forall|i: int| sa + 1 <= i < p.len() implies p[i] != SLASH by {
        assert(p[i] == b[i - sa - 1]);
    }
    lemma_next_slash_at(p, sa + 1, p.len() as int);
    assert(p.subrange(sa + 1, p.len() as int) =~= b);
    let ad = m[a_obj]->Directory_0;
    assert(walk(m, p, sa + 1, ad, a_obj) == Some(b_obj));
    assert(walk(m, p, 66, m[root]->Directory_0, root) == Some(b_obj));
}

/// `/<root>/b/c` fails when `b` is a file in the root.
pub proof fn lemma_resolve_past_file(
    m: Map<Seq<u8>, ResourceModel>,
    root: Seq<u8>,
    b: Seq<u8>,
    b_obj: Seq<u8>,
    c: Seq<u8>,
)
    requires
        root.len() == 32,
        holds_directory(m, root),
        plain_name(b),
        child_of(m[root]->Directory_0, b) == Some(b_obj),
        m.contains_key(b_obj),
        m[b_obj] is File,
    ensures
        resolve(m, seq![SLASH] + hex_text(root) + seq![SLASH] + b + seq![SLASH] + c) is None,
{
    let p = seq![SLASH] + hex_text(root) + seq![SLASH] + b + seq![SLASH] + c;
    let sb: int = 66 + b.len() as int;
    assert(p.subrange(1, 65) =~= hex_text(root));
    lemma_root_segment(p, root);
    assert forall|i: int| 66 <= i < sb implies p[i] != SLASH by {
        assert(p[i] == b[i - 66]);
    }
    lemma_next_slash_at(p, 66, sb);
    assert(p.subrange(66, sb) =~= b);
    assert(walk(m, p, 66, m[root]->Directory_0, root) is None);
}

/// A root segment that is not 64 hex digits is an error, whatever follows.
pub proof fn lemma_resolve_bad_root(m: Map<Seq<u8>, ResourceModel>, text: Seq<u8>, rest: Seq<u8>)
    requires
        !hash_text(text),
        forall|i: int| 0 <= i < text.len() ==> #[trigger] text[i] != SLASH,
        rest.len() == 0 || rest[0] == SLASH,
    ensures
        resolve(m, seq![SLASH] + text + rest) is None,
{
    let p = seq![SLASH] + text + rest;
    let k: int = 1 + text.len() as int;
    assert forall|i: int| 1 <= i < k implies p[i] != SLASH by {
        assert(p[i] == text[i - 1]);
    }
    lemma_next_slash_at(p, 1, k);
    assert(p.subrange(1, k) =~= text);
}


/// Resources with the same canonical encoding have the same object.
pub proof fn lemma_determinism(r1: ResourceModel, r2: ResourceModel)
    requires
        encoding(r1) == encoding(r2),
    ensures
        object_id(r1) == object_id(r2),
{
}

/// Adding a resource a second time changes nothing; the object it is
/// filed under holds one resource.
pub proof fn lemma_dedup(m: Map<Seq<u8>, ResourceModel>, r: ResourceModel)
    ensures
        insert_new(insert_new(m, r), r) == insert_new(m, r),
        insert_new(m, r).contains_key(object_id(r)),
        insert_new(m, r).dom() == m.dom().insert(object_id(r)),
{
    assert(insert_new(m, r).dom() =~= m.dom().insert(object_id(r)));
}

/// Once a resource that a peer sent for `x` is cached, `x` is held
/// locally, and stays held whatever is cached after it.
pub proof fn lemma_cache_fill(m: Map<Seq<u8>, ResourceModel>, x: Seq<u8>, sent: ResourceModel, later: ResourceModel)
    requires
        object_id(sent) == x,
    ensures
        insert_new(m, sent).contains_key(x),
        insert_new(insert_new(m, sent), later).contains_key(x),
        insert_new(insert_new(m, sent), later)[x] == insert_new(m, sent)[x],
{
}

/// The object of a created file is held right after, and so
/// is every chunk of it.
pub proof fn lemma_created_file_available(m: Map<Seq<u8>, ResourceModel>, data: Seq<u8>)
    ensures
        insert_new(insert_all(m, chunk_resources(data)), file_resource(data)).contains_key(
            object_id(file_resource(data)),
        ),
        forall|i: int| 0 <= i < chunk_count(data.len()) ==> insert_new(
            insert_all(m, chunk_resources(data)),
            file_resource(data),
        ).contains_key(#[trigger] chunk_objects(data)[i]),
{
    lemma_insert_all_keeps(m, data, chunk_count(data.len()) as int);
    assert(chunk_resources(data).subrange(0, chunk_count(data.len()) as int) =~= chunk_resources(data));
}

/// The chunks of `data` do not collide with what `m` holds, nor with each other.
pub open spec fn chunks_fresh(m: Map<Seq<u8>, ResourceModel>, data: Seq<u8>) -> bool {
    &&& forall|i: int|
        0 <= i < chunk_count(data.len()) && m.contains_key(#[trigger] chunk_objects(data)[i]) ==> m[chunk_objects(
            data,
        )[i]] == ResourceModel::Chunk(chunk_at(data, i))
    &&& forall|i: int, j: int|
        0 <= i < chunk_count(data.len()) && 0 <= j < chunk_count(data.len()) && #[trigger] chunk_objects(data)[i]
            == #[trigger] chunk_objects(data)[j] ==> chunk_at(data, i) == chunk_at(data, j)
}

proof fn lemma_insert_all_keeps(m: Map<Seq<u8>, ResourceModel>, data: Seq<u8>, n: int)
    requires
        0 <= n <= chunk_count(data.len()),
    ensures
        forall|i: int| 0 <= i < n ==> insert_all(m, chunk_resources(data).subrange(0, n)).contains_key(
            #[trigger] chunk_objects(data)[i],
        ),
        forall|k: Seq<u8>| m.contains_key(k) ==> #[trigger] insert_all(m, chunk_resources(data).subrange(0, n)).contains_key(k),
        chunks_fresh(m, data) ==> chunks_fresh(insert_all(m, chunk_resources(data).subrange(0, n)), data),
    decreases n,
{
    let crs = chunk_resources(data);
    if n > 0 {
        lemma_insert_all_keeps(m, data, n - 1);
        assert(crs.subrange(0, n).drop_last() =~= crs.subrange(0, n - 1));
        assert(crs.subrange(0, n).last() == ResourceModel::Chunk(chunk_at(data, n - 1)));
        let prev = insert_all(m, crs.subrange(0, n - 1));
        let cur = insert_all(m, crs.subrange(0, n));
        let last = ResourceModel::Chunk(chunk_at(data, n - 1));
        assert(cur == insert_new(prev, last));
        assert(object_id(last) == chunk_objects(data)[n - 1]);
        assert forall|k: Seq<u8>| m.contains_key(k) implies #[trigger] cur.contains_key(k) by {
            assert(prev.contains_key(k));
        }
        if chunks_fresh(m, data) {
            assert forall|i: int|
                0 <= i < chunk_count(data.len()) && cur.contains_key(#[trigger] chunk_objects(data)[i]) implies cur[chunk_objects(
                data,
            )[i]] == ResourceModel::Chunk(chunk_at(data, i)) by {
                if prev.contains_key(chunk_objects(data)[i]) {
                } else {
                    assert(chunk_objects(data)[i] == chunk_objects(data)[n - 1]);
                }
            }
        }
    } else {
        assert(crs.subrange(0, 0) =~= Seq::<ResourceModel>::empty());
    }
}

/// Creating a file from `data` in a store where its chunks are fresh leaves
/// every chunk of `data` held, so reading the file back gives `data`.
pub proof fn lemma_create_file_holds_chunks(m: Map<Seq<u8>, ResourceModel>, data: Seq<u8>)
    requires
        chunks_fresh(m, data),
    ensures
        holds_chunks_of(insert_new(insert_all(m, chunk_resources(data)), file_resource(data)), data),
{
    let n = chunk_count(data.len()) as int;
    lemma_insert_all_keeps(m, data, n);
    assert(chunk_resources(data).subrange(0, n) =~= chunk_resources(data));
    let mid = insert_all(m, chunk_resources(data));
    assert forall|i: int| 0 <= i < n implies chunk_held(
        insert_new(mid, file_resource(data)),
        #[trigger] chunk_objects(data)[i],
    ) && chunk_data(insert_new(mid, file_resource(data)), chunk_objects(data)[i]) == chunk_at(data, i) by {
        assert(mid.contains_key(chunk_objects(data)[i]));
    }
}


/// Two directories (entries ordered by name) that bind
/// the same names to the same objects are the same resource, whatever order
/// their entries were given in, and so have the same object.
pub proof fn lemma_directory_canonical(d1: Seq<(Seq<char>, Seq<u8>)>, d2: Seq<(Seq<char>, Seq<u8>)>)
    requires
        names_sorted(d1),
        names_sorted(d2),
        forall|n: Seq<char>, o: Seq<u8>| #[trigger] binds(d1, n, o) <==> binds(d2, n, o),
    ensures
        d1 == d2,
        object_id(ResourceModel::Directory(d1)) == object_id(ResourceModel::Directory(d2)),
    decreases d1.len() + d2.len(),
{
    if d1.len() == 0 || d2.len() == 0 {
        if d1.len() > 0 {
            assert(binds(d1, d1[0].0, d1[0].1));
        }
        if d2.len() > 0 {
            assert(binds(d2, d2[0].0, d2[0].1));
            assert(binds(d1, d2[0].0, d2[0].1));
        }
        assert(d1 =~= d2);
    } else {
        assert(binds(d1, d1[0].0, d1[0].1));
        assert(binds(d2, d2[0].0, d2[0].1));
        assert(binds(d1, d2[0].0, d2[0].1));
        let j = choose|j: int| 0 <= j < d2.len() && #[trigger] d2[j] == (d1[0].0, d1[0].1);
        let i = choose|i: int| 0 <= i < d1.len() && #[trigger] d1[i] == (d2[0].0, d2[0].1);
        if j > 0 {
            assert(bytes_lt(name_bytes(d2[0].0), name_bytes(d2[j].0)));
            if i > 0 {
                assert(bytes_lt(name_bytes(d1[0].0), name_bytes(d1[i].0)));
                lemma_bytes_lt_asymmetric(name_bytes(d1[0].0), name_bytes(d2[0].0));
            } else {
                lemma_bytes_lt_irreflexive(name_bytes(d2[0].0));
            }
        }
        assert(d1[0] == d2[0]);
        let t1 = d1.drop_first();
        let t2 = d2.drop_first();
        assert(names_sorted(t1)) by {
            assert forall|a: int, b: int| 0 <= a < b < t1.len() implies bytes_lt(
                #[trigger] name_bytes(t1[a].0),
                #[trigger] name_bytes(t1[b].0),
            ) by {
                assert(bytes_lt(name_bytes(d1[a + 1].0), name_bytes(d1[b + 1].0)));
            }
        }
        assert(names_sorted(t2)) by {
            assert forall|a: int, b: int| 0 <= a < b < t2.len() implies bytes_lt(
                #[trigger] name_bytes(t2[a].0),
                #[trigger] name_bytes(t2[b].0),
            ) by {
                assert(bytes_lt(name_bytes(d2[a + 1].0), name_bytes(d2[b + 1].0)));
            }
        }
        assert forall|n: Seq<char>, o: Seq<u8>| #[trigger] binds(t1, n, o) <==> binds(t2, n, o) by {
            if binds(t1, n, o) {
                let a = choose|a: int| 0 <= a < t1.len() && #[trigger] t1[a] == (n, o);
                assert(d1[a + 1] == (n, o));
                assert(binds(d1, n, o));
                let b = choose|b: int| 0 <= b < d2.len() && #[trigger] d2[b] == (n, o);
                if b == 0 {
                    lemma_sorted_unique(d1, 0, a + 1);
                }
                assert(t2[b - 1] == (n, o));
            }
            if binds(t2, n, o) {
                let a = choose|a: int| 0 <= a < t2.len() && #[trigger] t2[a] == (n, o);
                assert(d2[a + 1] == (n, o));
                assert(binds(d2, n, o));
                assert(binds(d1, n, o));
                let b = choose|b: int| 0 <= b < d1.len() && #[trigger] d1[b] == (n, o);
                if b == 0 {
                    lemma_sorted_unique(d2, 0, a + 1);
                }
                assert(t1[b - 1] == (n, o));
            }
        }
        lemma_directory_canonical(t1, t2);
        assert(d1 =~= seq![d1[0]] + t1);
        assert(d2 =~= seq![d2[0]] + t2);
    }
}

} // verus!
