use vstd::prelude::*;
use vstd::utf8::encode_utf8;
use crate::bytes::{bytes_lt, compare_bytes, lemma_bytes_lt_asymmetric, lemma_bytes_lt_irreflexive,
    lemma_bytes_lt_total, lemma_bytes_lt_transitive};
use crate::error::{FilesystemError, PathResolutionError};
use crate::bytes::{push_bytes, push_u64_be, u64_be};
use crate::object::{push_hash, Object};
use crate::resource::{entries_bytes, object_id, Resource, ResourceModel};

verus! {

broadcast use vstd::utf8::encode_utf8_decode_utf8;

/// One name of a directory and the object it refers to.
#[derive(Debug, Clone)]
pub struct DirectoryEntry {
    pub name: String,
    pub file: Object,
}

impl View for DirectoryEntry {
    type V = (Seq<char>, Seq<u8>);

    open spec fn view(&self) -> (Seq<char>, Seq<u8>) {
        (self.name@, self.file@)
    }
}

/// The UTF-8 bytes of a name, by which entries are ordered.
pub open spec fn name_bytes(name: Seq<char>) -> Seq<u8> {
    encode_utf8(name)
}

/// Entries ordered strictly by name, so that each name occurs once.
pub open spec fn names_sorted(es: Seq<(Seq<char>, Seq<u8>)>) -> bool {
    forall|i: int, j: int|
        0 <= i < j < es.len() ==> bytes_lt(#[trigger] name_bytes(es[i].0), #[trigger] name_bytes(es[j].0))
}

/// Some entry binds `name`.
pub open spec fn has_name(es: Seq<(Seq<char>, Seq<u8>)>, name: Seq<char>) -> bool {
    exists|i: int| 0 <= i < es.len() && (#[trigger] es[i]).0 == name
}

/// Some entry binds `name` to `object`.
pub open spec fn binds(es: Seq<(Seq<char>, Seq<u8>)>, name: Seq<char>, object: Seq<u8>) -> bool {
    exists|i: int| 0 <= i < es.len() && #[trigger] es[i] == (name, object)
}

/// The views of a list of entries.
pub open spec fn entries_view(v: Seq<DirectoryEntry>) -> Seq<(Seq<char>, Seq<u8>)> {
    Seq::new(v.len(), |i: int| v[i]@)
}

/// In a sorted list, a name is bound at one place only.
pub proof fn lemma_sorted_unique(es: Seq<(Seq<char>, Seq<u8>)>, i: int, j: int)
    requires
        names_sorted(es),
        0 <= i < es.len(),
        0 <= j < es.len(),
        es[i].0 == es[j].0,
    ensures
        i == j,
{
    if i < j {
        assert(bytes_lt(name_bytes(es[i].0), name_bytes(es[j].0)));
        lemma_bytes_lt_irreflexive(name_bytes(es[i].0));
    } else if j < i {
        assert(bytes_lt(name_bytes(es[j].0), name_bytes(es[i].0)));
        lemma_bytes_lt_irreflexive(name_bytes(es[i].0));
    }
}

/// An immutable mapping from names to objects, its entries ordered by name.
#[derive(Debug)]
pub struct Directory {
    contents: Vec<DirectoryEntry>,
}

impl View for Directory {
    type V = Seq<(Seq<char>, Seq<u8>)>;

    closed spec fn view(&self) -> Seq<(Seq<char>, Seq<u8>)> {
        entries_view(self.contents@)
    }
}

impl Directory {
    #[verifier::type_invariant]
    spec fn wf(self) -> bool {
        names_sorted(entries_view(self.contents@))
    }

    /// Builds a directory from `entries`; where a name repeats, the last entry wins.
    pub fn new(entries: Vec<DirectoryEntry>) -> (d: Directory)
        ensures
            names_sorted(d@),
            forall|n: Seq<char>, o: Seq<u8>|
                #[trigger] binds(d@, n, o) <==> last_binding(entries_view(entries@), n, o),
    {
        let ghost ev = entries_view(entries@);
        let mut contents: Vec<DirectoryEntry> = Vec::new();
        let mut i: usize = 0;
        assert(names_sorted(entries_view(contents@)));
        while i < entries.len()
            invariant
                i <= entries@.len(),
                ev == entries_view(entries@),
                names_sorted(entries_view(contents@)),
                forall|n: Seq<char>, o: Seq<u8>|
                    #[trigger] binds(entries_view(contents@), n, o) <==> last_binding(ev.subrange(0, i as int), n, o),
            decreases entries@.len() - i,
        {
            let e = DirectoryEntry { name: entries[i].name.clone(), file: entries[i].file };
            insert_sorted(&mut contents, e);
            proof {
                let pre = ev.subrange(0, i as int);
                let post = ev.subrange(0, i + 1);
                assert forall|n: Seq<char>, o: Seq<u8>|
                    #[trigger] binds(entries_view(contents@), n, o) <==> last_binding(post, n, o) by {
                    if last_binding(post, n, o) {
                        let k = choose|k: int| 0 <= k < post.len() && post[k] == (n, o) && forall|j: int|
                            k < j < post.len() ==> (#[trigger] post[j]).0 != n;
                        if k < i {
                            assert(pre[k] == (n, o));
                            assert forall|j: int| k < j < pre.len() implies (#[trigger] pre[j]).0 != n by {
                                assert(post[j] == pre[j]);
                            }
                            assert(post[i as int].0 != n);
                            assert(last_binding(pre, n, o));
                        }
                    }
                    if binds(entries_view(contents@), n, o) {
                        if n == ev[i as int].0 {
                            assert(post[i as int] == (n, o));
                        } else {
                            assert(last_binding(pre, n, o));
                            let k = choose|k: int| 0 <= k < pre.len() && pre[k] == (n, o) && forall|j: int|
                                k < j < pre.len() ==> (#[trigger] pre[j]).0 != n;
                            assert(post[k] == (n, o));
                            assert forall|j: int| k < j < post.len() implies (#[trigger] post[j]).0 != n by {
                                if j < i {
                                    assert(post[j] == pre[j]);
                                }
                            }
                        }
                    }
                }
            }
            i = i + 1;
        }
        assert(ev.subrange(0, i as int) =~= ev);
        Directory { contents }
    }

    /// A copy of this directory.
    pub fn duplicate(&self) -> (d: Directory)
        ensures
            d@ == self@,
    {
        proof {
            use_type_invariant(self);
        }
        let contents = self.get_children();
        assert(entries_view(contents@) =~= self@);
        Directory { contents }
    }

    /// The entries, ordered by name.
    pub fn get_children(&self) -> (r: Vec<DirectoryEntry>)
        ensures
            entries_view(r@) == self@,
    {
        let mut r: Vec<DirectoryEntry> = Vec::new();
        let mut i: usize = 0;
        while i < self.contents.len()
            invariant
                i <= self.contents@.len(),
                entries_view(r@) == entries_view(self.contents@).subrange(0, i as int),
            decreases self.contents@.len() - i,
        {
            let ghost before = r@;
            let e = DirectoryEntry { name: self.contents[i].name.clone(), file: self.contents[i].file };
            assert(e@ == self.contents@[i as int]@);
            r.push(e);
            assert(r@ == before.push(e));
            assert(entries_view(r@) =~= entries_view(before).push(e@));
            i = i + 1;
            assert(entries_view(r@) =~= entries_view(self.contents@).subrange(0, i as int));
        }
        assert(entries_view(r@) =~= self@);
        r
    }

    /// A new directory that also binds `entry.name`; refused when the name is
    /// already bound. The receiver is left as it is.
    pub fn add_resource(&self, entry: DirectoryEntry) -> (r: Result<Directory, FilesystemError>)
        ensures
            r is Err <==> has_name(self@, entry.name@),
            r matches Ok(d) ==> names_sorted(d@),
            r matches Ok(d) ==> forall|n: Seq<char>, o: Seq<u8>|
                #[trigger] binds(d@, n, o) <==> ((n == entry.name@ && o == entry.file@) || binds(self@, n, o)),
    {
        proof {
            use_type_invariant(self);
        }
        let (_, found) = find_position(&self.contents, entry.name.as_str());
        if found {
            return Err(FilesystemError::new("resource name already exists"));
        }
        let mut contents = self.get_children();
        let ghost en = entry.name@;
        insert_sorted(&mut contents, entry);
        proof {
            assert forall|n: Seq<char>, o: Seq<u8>|
                #[trigger] binds(entries_view(contents@), n, o) <==> ((n == en && o == entry.file@) || binds(self@, n, o)) by {
                if binds(self@, n, o) && n == en {
                    let i = choose|i: int| 0 <= i < self@.len() && #[trigger] self@[i] == (n, o);
                    assert(self@[i].0 == en);
                }
            }
        }
        Ok(Directory { contents })
    }

    /// A new directory without the entries that refer to `old_resource`, and
    /// with `new_entry.name` bound to `new_entry.file`. Every entry whose object
    /// is `old_resource` goes, whatever its name. The receiver is left as it is.
    pub fn replace_resource(&self, old_resource: Object, new_entry: DirectoryEntry) -> (r: Result<Directory, FilesystemError>)
        ensures
            r matches Ok(d) && names_sorted(d@) && forall|n: Seq<char>, o: Seq<u8>|
                #[trigger] binds(d@, n, o) <==> ((n == new_entry.name@ && o == new_entry.file@) || (n
                    != new_entry.name@ && o != old_resource@ && binds(self@, n, o))),
    {
        proof {
            use_type_invariant(self);
        }
        let ghost es = self@;
        let mut contents: Vec<DirectoryEntry> = Vec::new();
        let mut i: usize = 0;
        while i < self.contents.len()
            invariant
                i <= self.contents@.len(),
                es == entries_view(self.contents@),
                names_sorted(es),
                names_sorted(entries_view(contents@)),
                i < es.len() ==> forall|k: int| 0 <= k < contents@.len() ==>
                    bytes_lt(#[trigger] name_bytes(contents@[k].name@), name_bytes(es[i as int].0)),
                forall|n: Seq<char>, o: Seq<u8>|
                    #[trigger] binds(entries_view(contents@), n, o) <==> (o != old_resource@ && binds(es.subrange(0, i as int), n, o)),
            decreases self.contents@.len() - i,
        {
            let ghost before = entries_view(contents@);
            let keep = !self.contents[i].file.same(&old_resource);
            if keep {
                contents.push(DirectoryEntry { name: self.contents[i].name.clone(), file: self.contents[i].file });
            }
            proof {
                let after = entries_view(contents@);
                let pre = es.subrange(0, i as int);
                let post = es.subrange(0, i + 1);
                if keep {
                    assert(after =~= before.push(es[i as int]));
                } else {
                    assert(after =~= before);
                }
                assert forall|a: int, b: int| 0 <= a < b < after.len() implies bytes_lt(
                    #[trigger] name_bytes(after[a].0),
                    #[trigger] name_bytes(after[b].0),
                ) by {
                    if b == before.len() {
                        assert(bytes_lt(name_bytes(contents@[a].name@), name_bytes(es[i as int].0)));
                    }
                }
                if i + 1 < es.len() {
                    assert(bytes_lt(name_bytes(es[i as int].0), name_bytes(es[i + 1].0)));
                    assert forall|k: int| 0 <= k < contents@.len() implies bytes_lt(
                        #[trigger] name_bytes(contents@[k].name@),
                        name_bytes(es[i + 1].0),
                    ) by {
                        if k < before.len() {
                            assert(bytes_lt(name_bytes(contents@[k].name@), name_bytes(es[i as int].0)));
                            lemma_bytes_lt_transitive(name_bytes(contents@[k].name@), name_bytes(es[i as int].0), name_bytes(es[i + 1].0));
                        }
                    }
                }
                assert forall|n: Seq<char>, o: Seq<u8>|
                    #[trigger] binds(after, n, o) <==> (o != old_resource@ && binds(post, n, o)) by {
                    if binds(after, n, o) {
                        let k = choose|k: int| 0 <= k < after.len() && #[trigger] after[k] == (n, o);
                        if k < before.len() {
                            assert(binds(before, n, o));
                            let m = choose|m: int| 0 <= m < pre.len() && #[trigger] pre[m] == (n, o);
                            assert(post[m] == (n, o));
                        } else {
                            assert(post[i as int] == (n, o));
                        }
                    }
                    if o != old_resource@ && binds(post, n, o) {
                        let m = choose|m: int| 0 <= m < post.len() && #[trigger] post[m] == (n, o);
                        if m < i {
                            assert(pre[m] == (n, o));
                            assert(binds(before, n, o));
                            let k = choose|k: int| 0 <= k < before.len() && #[trigger] before[k] == (n, o);
                            assert(after[k] == (n, o));
                        } else {
                            assert(after[before.len() as int] == (n, o));
                        }
                    }
                }
            }
            i = i + 1;
        }
        assert(es.subrange(0, i as int) =~= es);
        insert_sorted(&mut contents, new_entry);
        Ok(Directory { contents })
    }

    /// Appends the canonical encoding of this directory, without its tag byte.
    pub fn push_encoding(&self, out: &mut Vec<u8>)
        ensures
            final(out)@ == old(out)@ + u64_be(self@.len() as u64) + entries_bytes(self@),
    {
        let ghost start = out@;
        let ghost es = self@;
        push_u64_be(out, self.contents.len() as u64);
        let mut i: usize = 0;
        while i < self.contents.len()
            invariant
                i <= self.contents@.len(),
                es == entries_view(self.contents@),
                out@ == start + u64_be(es.len() as u64) + entries_bytes(es.subrange(0, i as int)),
            decreases self.contents@.len() - i,
        {
            let name = self.contents[i].name.as_str().as_bytes();
            push_u64_be(out, name.len() as u64);
            push_bytes(out, name);
            push_hash(out, &self.contents[i].file);
            proof {
                assert(es.subrange(0, i + 1).drop_last() =~= es.subrange(0, i as int));
            }
            i = i + 1;
            assert(out@ =~= start + u64_be(es.len() as u64) + entries_bytes(es.subrange(0, i as int)));
        }
        assert(es.subrange(0, i as int) =~= es);
    }

    /// The object that `name` refers to. The empty name refers to the
    /// directory itself, so that a path ending in `/` names the directory.
    pub fn get_child(&self, name: &str) -> (r: Result<Object, PathResolutionError>)
        ensures
            name@.len() == 0 ==> (r matches Ok(o) && o@ == object_id(ResourceModel::Directory(self@))),
            name@.len() > 0 ==> (r is Ok <==> has_name(self@, name@)),
            name@.len() > 0 ==> (r matches Ok(o) ==> binds(self@, name@, o@)),
    {
        proof {
            use_type_invariant(self);
        }
        if name.is_empty() {
            let me = Resource::Directory(self.duplicate());
            return Ok(Object::from_resource(&me));
        }
        let (pos, found) = find_position(&self.contents, name);
        if found {
            let o = self.contents[pos].file;
            assert(self@[pos as int] == (name@, o@));
            Ok(o)
        } else {
            Err(PathResolutionError::new("unable to find entry"))
        }
    }
}

/// The object bound to the name whose UTF-8 bytes are `name`, if any.
pub open spec fn child_of(es: Seq<(Seq<char>, Seq<u8>)>, name: Seq<u8>) -> Option<Seq<u8>> {
    if exists|i: int| 0 <= i < es.len() && name_bytes((#[trigger] es[i]).0) == name {
        Some(es[choose|i: int| 0 <= i < es.len() && name_bytes((#[trigger] es[i]).0) == name].1)
    } else {
        None
    }
}

impl Directory {
    /// The object bound to the name whose UTF-8 bytes are `name`.
    pub fn child_by_bytes(&self, name: &[u8]) -> (r: Option<Object>)
        ensures
            r is Some <==> child_of(self@, name@) is Some,
            r matches Some(o) ==> o@ == child_of(self@, name@)->0,
    {
        proof {
            use_type_invariant(self);
        }
        let ghost es = self@;
        let mut i: usize = 0;
        while i < self.contents.len()
            invariant
                i <= self.contents@.len(),
                es == entries_view(self.contents@),
                names_sorted(es),
                forall|j: int| 0 <= j < i ==> name_bytes((#[trigger] es[j]).0) != name@,
            decreases self.contents@.len() - i,
        {
            let c = compare_bytes(self.contents[i].name.as_str().as_bytes(), name);
            if c == 0 {
                proof {
                    assert(name_bytes(es[i as int].0) == name@);
                    let j = choose|j: int| 0 <= j < es.len() && name_bytes((#[trigger] es[j]).0) == name@;
                    if j != i {
                        if j < i {
                            assert(bytes_lt(name_bytes(es[j].0), name_bytes(es[i as int].0)));
                        } else {
                            assert(bytes_lt(name_bytes(es[i as int].0), name_bytes(es[j].0)));
                        }
                        lemma_bytes_lt_irreflexive(name@);
                    }
                }
                return Some(self.contents[i].file);
            }
            i = i + 1;
        }
        None
    }
}

/// The last entry of `es` that names `name` binds it to `object`.
pub open spec fn last_binding(es: Seq<(Seq<char>, Seq<u8>)>, name: Seq<char>, object: Seq<u8>) -> bool {
    exists|k: int|
        0 <= k < es.len() && es[k] == (name, object) && forall|j: int| k < j < es.len() ==> (#[trigger] es[j]).0 != name
}

/// Compares the name of `e` with `name`: -1, 0 or 1.
fn compare_name(e: &DirectoryEntry, name: &str) -> (r: i8)
    ensures
        r == -1 <==> bytes_lt(name_bytes(e.name@), name_bytes(name@)),
        r == 0 <==> e.name@ == name@,
        r == 1 <==> bytes_lt(name_bytes(name@), name_bytes(e.name@)),
        r == -1 || r == 0 || r == 1,
{
    let a = e.name.as_str().as_bytes();
    let b = name.as_bytes();
    let r = compare_bytes(a, b);
    proof {
        if r == 0 {
            assert(vstd::utf8::decode_utf8(name_bytes(e.name@)) == e.name@);
            assert(vstd::utf8::decode_utf8(name_bytes(name@)) == name@);
        }
    }
    r
}

/// The first place at which `name` belongs in sorted `v`, and whether it is bound there.
fn find_position(v: &Vec<DirectoryEntry>, name: &str) -> (r: (usize, bool))
    requires
        names_sorted(entries_view(v@)),
    ensures
        r.0 <= v@.len(),
        forall|j: int| 0 <= j < r.0 ==> bytes_lt(#[trigger] name_bytes(v@[j].name@), name_bytes(name@)),
        r.0 < v@.len() ==> !bytes_lt(name_bytes(v@[r.0 as int].name@), name_bytes(name@)),
        r.1 <==> (r.0 < v@.len() && v@[r.0 as int].name@ == name@),
        r.1 <==> has_name(entries_view(v@), name@),
{
    let ghost es = entries_view(v@);
    let mut i: usize = 0;
    while i < v.len()
        invariant
            i <= v@.len(),
            es == entries_view(v@),
            names_sorted(es),
            forall|j: int| 0 <= j < i ==> bytes_lt(#[trigger] name_bytes(v@[j].name@), name_bytes(name@)),
        decreases v@.len() - i,
    {
        let c = compare_name(&v[i], name);
        if c != -1 {
            proof {
                if c == 0 {
                    assert(es[i as int].0 == name@);
                } else {
                    assert forall|j: int| 0 <= j < es.len() implies (#[trigger] es[j]).0 != name@ by {
                        if j < i {
                            assert(bytes_lt(name_bytes(v@[j].name@), name_bytes(name@)));
                            lemma_bytes_lt_irreflexive(name_bytes(name@));
                        } else if j > i {
                            assert(bytes_lt(name_bytes(es[i as int].0), name_bytes(es[j].0)));
                            lemma_bytes_lt_transitive(name_bytes(name@), name_bytes(es[i as int].0), name_bytes(es[j].0));
                            lemma_bytes_lt_irreflexive(name_bytes(name@));
                        }
                    }
                }
                if c == 1 {
                    lemma_bytes_lt_asymmetric(name_bytes(name@), name_bytes(v@[i as int].name@));
                } else {
                    lemma_bytes_lt_irreflexive(name_bytes(name@));
                }
            }
            return (i, c == 0);
        }
        i = i + 1;
    }
    proof {
        assert forall|j: int| 0 <= j < es.len() implies (#[trigger] es[j]).0 != name@ by {
            assert(bytes_lt(name_bytes(v@[j].name@), name_bytes(name@)));
            lemma_bytes_lt_irreflexive(name_bytes(name@));
        }
    }
    (i, false)
}

/// Binds `e.name` to `e.file` in sorted `v`, replacing an entry of the same name.
fn insert_sorted(v: &mut Vec<DirectoryEntry>, e: DirectoryEntry)
    requires
        names_sorted(entries_view(old(v)@)),
    ensures
        names_sorted(entries_view(final(v)@)),
        forall|n: Seq<char>, o: Seq<u8>|
            #[trigger] binds(entries_view(final(v)@), n, o) <==> ((n == e.name@ && o == e.file@) || (n
                != e.name@ && binds(entries_view(old(v)@), n, o))),
{
    let ghost old_es = entries_view(v@);
    let (pos, found) = find_position(v, e.name.as_str());
    let ghost ev = e@;
    if found {
        v.set(pos, e);
        let ghost es = entries_view(v@);
        assert(es =~= old_es.update(pos as int, ev));
        assert forall|i: int, j: int| 0 <= i < j < es.len() implies bytes_lt(
            #[trigger] name_bytes(es[i].0),
            #[trigger] name_bytes(es[j].0),
        ) by {
            assert(bytes_lt(name_bytes(old_es[i].0), name_bytes(old_es[j].0)));
        }
        assert forall|n: Seq<char>, o: Seq<u8>|
            #[trigger] binds(es, n, o) <==> ((n == ev.0 && o == ev.1) || (n != ev.0 && binds(
                old_es,
                n,
                o,
            ))) by {
            if binds(es, n, o) {
                let i = choose|i: int| 0 <= i < es.len() && #[trigger] es[i] == (n, o);
                if i != pos {
                    assert(old_es[i] == (n, o));
                    if n == ev.0 {
                        lemma_sorted_unique(es, i, pos as int);
                    }
                }
            }
            if n == ev.0 && o == ev.1 {
                assert(es[pos as int] == (n, o));
            }
            if n != ev.0 && binds(old_es, n, o) {
                let i = choose|i: int| 0 <= i < old_es.len() && #[trigger] old_es[i] == (n, o);
                assert(i != pos);
                assert(es[i] == (n, o));
            }
        }
    } else {
        v.insert(pos, e);
        let ghost es = entries_view(v@);
        assert(es =~= old_es.insert(pos as int, ev));
        assert forall|i: int, j: int| 0 <= i < j < es.len() implies bytes_lt(
            #[trigger] name_bytes(es[i].0),
            #[trigger] name_bytes(es[j].0),
        ) by {
            let nb = name_bytes(ev.0);
            if pos < old_es.len() {
                let pb = name_bytes(old_es[pos as int].0);
                if pb != nb {
                    lemma_bytes_lt_total(pb, nb);
                } else {
                    assert(vstd::utf8::decode_utf8(pb) == old_es[pos as int].0);
                    assert(vstd::utf8::decode_utf8(nb) == ev.0);
                }
            }
            if j < pos {
                assert(bytes_lt(name_bytes(old_es[i].0), name_bytes(old_es[j].0)));
            } else if j == pos {
                assert(bytes_lt(name_bytes(v@[i].name@), nb));
            } else if i == pos {
                if j - 1 > pos {
                    assert(bytes_lt(name_bytes(old_es[pos as int].0), name_bytes(old_es[j - 1].0)));
                    lemma_bytes_lt_transitive(nb, name_bytes(old_es[pos as int].0), name_bytes(old_es[j - 1].0));
                }
            } else if i < pos {
                assert(bytes_lt(name_bytes(old_es[i].0), nb));
                if pos < old_es.len() {
                    lemma_bytes_lt_transitive(name_bytes(old_es[i].0), nb, name_bytes(old_es[pos as int].0));
                    if j - 1 > pos {
                        assert(bytes_lt(name_bytes(old_es[pos as int].0), name_bytes(old_es[j - 1].0)));
                        lemma_bytes_lt_transitive(name_bytes(old_es[i].0), name_bytes(old_es[pos as int].0), name_bytes(old_es[j - 1].0));
                    }
                }
            } else {
                assert(bytes_lt(name_bytes(old_es[i - 1].0), name_bytes(old_es[j - 1].0)));
            }
        }
        assert forall|n: Seq<char>, o: Seq<u8>|
            #[trigger] binds(es, n, o) <==> ((n == ev.0 && o == ev.1) || (n != ev.0 && binds(
                old_es,
                n,
                o,
            ))) by {
            if binds(es, n, o) {
                let i = choose|i: int| 0 <= i < es.len() && #[trigger] es[i] == (n, o);
                if i < pos {
                    assert(old_es[i] == (n, o));
                } else if i > pos {
                    assert(old_es[i - 1] == (n, o));
                }
                if i != pos && n == ev.0 {
                    lemma_sorted_unique(es, i, pos as int);
                }
            }
            if n == ev.0 && o == ev.1 {
                assert(es[pos as int] == (n, o));
            }
            if n != ev.0 && binds(old_es, n, o) {
                let i = choose|i: int| 0 <= i < old_es.len() && #[trigger] old_es[i] == (n, o);
                if i < pos {
                    assert(es[i] == (n, o));
                } else {
                    assert(es[i + 1] == (n, o));
                }
            }
        }
    }
}

} // verus!
