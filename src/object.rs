use vstd::prelude::*;

verus! {

/// What SHA-256 yields for a byte string.
pub uninterp spec fn sha256_digest(data: Seq<u8>) -> Seq<u8>;

/// Relies on sha2::Sha256::digest: the 32-byte SHA-256 digest of `data`,
/// which depends on the bytes alone.
#[verifier::external_body]
fn sha256(data: &[u8]) -> (r: [u8; 32])
    ensures
        r@ == sha256_digest(data@),
{
    <sha2::Sha256 as sha2::Digest>::digest(data).into()
}

/// A 256-bit content hash identifying a resource.
#[derive(Clone, Copy, Debug, Hash, Eq)]
pub struct Object {
    pub hash: [u8; 32],
}

impl View for Object {
    type V = Seq<u8>;

    open spec fn view(&self) -> Seq<u8> {
        self.hash@
    }
}

impl Object {
    pub fn new(hash: [u8; 32]) -> (o: Object)
        ensures
            o@ == hash@,
    {
        Object { hash }
    }

    /// The digest of `data`, as an object.
    pub fn digest_of(data: &[u8]) -> (o: Object)
        ensures
            o@ == sha256_digest(data@),
    {
        Object { hash: sha256(data) }
    }

    /// Byte-wise equality of two hashes.
    pub fn same(&self, other: &Object) -> (r: bool)
        ensures
            r == (self@ == other@),
    {
        let mut i: usize = 0;
        while i < 32
            invariant
                0 <= i <= 32,
                self@.len() == 32,
                other@.len() == 32,
                forall|j: int| 0 <= j < i ==> self@[j] == other@[j],
            decreases 32 - i,
        {
            if self.hash[i] != other.hash[i] {
                return false;
            }
            i = i + 1;
        }
        assert(self@ =~= other@);
        true
    }
}

impl PartialEq for Object {
    fn eq(&self, other: &Object) -> (r: bool) {
        self.same(other)
    }
}

impl vstd::std_specs::cmp::PartialEqSpecImpl for Object {
    open spec fn obeys_eq_spec() -> bool {
        true
    }

    open spec fn eq_spec(&self, other: &Object) -> bool {
        self@ == other@
    }
}

} // verus!

verus! {

/// Appends the 32 bytes of `o`'s hash to `out`.
pub fn push_hash(out: &mut Vec<u8>, o: &Object)
    ensures
        final(out)@ == old(out)@ + o@,
{
    let ghost start = out@;
    let mut i: usize = 0;
    while i < 32
        invariant
            i <= 32,
            o@.len() == 32,
            out@ == start + o@.subrange(0, i as int),
        decreases 32 - i,
    {
        out.push(o.hash[i]);
        i = i + 1;
        assert(out@ =~= start + o@.subrange(0, i as int));
    }
    assert(o@.subrange(0, 32) =~= o@);
}

} // verus!
