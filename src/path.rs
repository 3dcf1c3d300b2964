//! Slash paths: `/` then the root directory's object as 64 hex digits, then
//! `/`-separated names.
use vstd::prelude::*;
use crate::directory::{child_of, name_bytes};
use crate::object::Object;
use crate::resource::{object_id, ResourceModel};

verus! {

/// The byte of `/`.
pub const SLASH: u8 = 47;

pub open spec fn is_hex_digit(b: u8) -> bool {
    (48 <= b <= 57) || (97 <= b <= 102) || (65 <= b <= 70)
}

/// The value of a hex digit of either case.
pub open spec fn hex_value(b: u8) -> int {
    if 48 <= b <= 57 {
        b - 48
    } else if 97 <= b <= 102 {
        b - 87
    } else {
        b - 55
    }
}

/// `s` spells a 32-byte hash: 64 hex digits.
pub open spec fn hash_text(s: Seq<u8>) -> bool {
    s.len() == 64 && forall|i: int| 0 <= i < s.len() ==> is_hex_digit(#[trigger] s[i])
}

/// The bytes that pairs of hex digits spell, high digit first.
pub open spec fn hex_decode(s: Seq<u8>) -> Seq<u8> {
    Seq::new(s.len() / 2, |i: int| (hex_value(s[2 * i]) * 16 + hex_value(s[2 * i + 1])) as u8)
}

/// Relies on hex::decode_to_slice: with a 32-byte output it succeeds exactly
/// when the input is 64 hex digits of either case, and writes the bytes that
/// the digit pairs spell.
#[verifier::external_body]
pub(crate) fn decode_hash(text: &[u8]) -> (r: Option<[u8; 32]>)
    ensures
        r is Some <==> hash_text(text@),
        r matches Some(h) ==> h@ == hex_decode(text@),
{
    let mut out = [0u8; 32];
    match hex::decode_to_slice(text, &mut out) {
        Ok(()) => Some(out),
        Err(_) => None,
    }
}

/// The hex digit, lowercase, of a value below 16.
pub open spec fn hex_digit(v: int) -> u8 {
    if v < 10 {
        (48 + v) as u8
    } else {
        (87 + v) as u8
    }
}

/// Two lowercase hex digits per byte, high digit first.
pub open spec fn hex_text(h: Seq<u8>) -> Seq<u8> {
    Seq::new(
        2 * h.len(),
        |i: int| if i % 2 == 0 { hex_digit(h[i / 2] as int / 16) } else { hex_digit(h[i / 2] as int % 16) },
    )
}

/// `hex_text`, as characters.
pub open spec fn hex_chars(h: Seq<u8>) -> Seq<char> {
    Seq::new(hex_text(h).len(), |i: int| hex_text(h)[i] as char)
}

/// Relies on hex::encode: two lowercase hex digits per byte, high digit first.
#[verifier::external_body]
fn encode_hex(bytes: &[u8; 32]) -> (r: String)
    ensures
        r@ == hex_chars(bytes@),
{
    hex::encode(bytes)
}

impl Object {
    /// The object that 64 hex digits of either case spell; `None` for any other text.
    pub fn from_hex(text: &str) -> (r: Option<Object>)
        ensures
            r is Some <==> hash_text(name_bytes(text@)),
            r matches Some(o) ==> o@ == hex_decode(name_bytes(text@)),
    {
        match decode_hash(text.as_bytes()) {
            Some(h) => Some(Object::new(h)),
            None => None,
        }
    }

    /// The hash as 64 lowercase hex digits, the form a path names a root by.
    pub fn to_hex(&self) -> (r: String)
        ensures
            r@ == hex_chars(self@),
    {
        encode_hex(&self.hash)
    }
}

/// Hex text of a 32-byte hash is read back as that hash.
pub proof fn lemma_hex_round_trip(h: Seq<u8>)
    requires
        h.len() == 32,
    ensures
        hash_text(hex_text(h)),
        hex_decode(hex_text(h)) == h,
{
    let t = hex_text(h);
    assert forall|i: int| 0 <= i < t.len() implies is_hex_digit(#[trigger] t[i]) by {
        assert(h[i / 2] as int / 16 < 16);
    }
    assert forall|j: int| 0 <= j < 32 implies #[trigger] hex_decode(t)[j] == h[j] by {
        assert((2 * j) % 2 == 0 && (2 * j) / 2 == j);
        assert((2 * j + 1) % 2 == 1 && (2 * j + 1) / 2 == j);
        let hi = h[j] as int / 16;
        let lo = h[j] as int % 16;
        assert(hex_value(hex_digit(hi)) == hi);
        assert(hex_value(hex_digit(lo)) == lo);
    }
    assert(hex_decode(t) =~= h);
}

/// The position of the first `/` of `p` at or after `from`, or the length of `p`.
pub open spec fn next_slash(p: Seq<u8>, from: int) -> int
    decreases p.len() - from,
{
    if from >= p.len() {
        p.len() as int
    } else if p[from] == SLASH {
        from
    } else {
        next_slash(p, from + 1)
    }
}

pub proof fn lemma_next_slash(p: Seq<u8>, from: int)
    requires
        0 <= from <= p.len(),
    ensures
        from <= next_slash(p, from) <= p.len(),
        next_slash(p, from) < p.len() ==> p[next_slash(p, from)] == SLASH,
        forall|i: int| from <= i < next_slash(p, from) ==> p[i] != SLASH,
    decreases p.len() - from,
{
    if from < p.len() && p[from] != SLASH {
        lemma_next_slash(p, from + 1);
    }
}

/// The first `/` at or after `from` is at `k` (or there is none and `k` is the length).
pub proof fn lemma_next_slash_at(p: Seq<u8>, from: int, k: int)
    requires
        0 <= from <= k <= p.len(),
        k < p.len() ==> p[k] == SLASH,
        forall|i: int| from <= i < k ==> p[i] != SLASH,
    ensures
        next_slash(p, from) == k,
{
    lemma_next_slash(p, from);
}

/// Resolution of the names of `p` from position `pos` on, standing in the
/// directory `dir` after reaching `item`. A name starts just after a `/`; `pos`
/// past the end means no name is left. The empty name is the directory itself;
/// a directory is entered; a file ends the walk and must be the last name; a
/// chunk is passed over.
pub open spec fn walk(
    m: Map<Seq<u8>, ResourceModel>,
    p: Seq<u8>,
    pos: int,
    dir: Seq<(Seq<char>, Seq<u8>)>,
    item: Seq<u8>,
) -> Option<Seq<u8>>
    decreases p.len() + 1 - pos,
{
    if pos > p.len() || pos < 0 {
        Some(item)
    } else {
        let stop = if pos <= next_slash(p, pos) <= p.len() { next_slash(p, pos) } else { p.len() as int };
        let name = p.subrange(pos, stop);
        let child = if name.len() == 0 { Some(object_id(ResourceModel::Directory(dir))) } else { child_of(dir, name) };
        match child {
            None => None,
            Some(c) => if !m.contains_key(c) {
                None
            } else {
                match m[c] {
                    ResourceModel::Directory(d) => walk(m, p, stop + 1, d, c),
                    ResourceModel::File(_, _) => if stop >= p.len() { Some(c) } else { None },
                    ResourceModel::Chunk(_) => walk(m, p, stop + 1, dir, c),
                }
            },
        }
    }
}

/// The object that path `p` (as bytes) names in `m`, if it names one.
pub open spec fn resolve(m: Map<Seq<u8>, ResourceModel>, p: Seq<u8>) -> Option<Seq<u8>> {
    if p.len() == 0 || p[0] != SLASH {
        None
    } else {
        let stop = next_slash(p, 1);
        let text = p.subrange(1, stop);
        if !hash_text(text) {
            None
        } else {
            let root = hex_decode(text);
            if !(m.contains_key(root) && m[root] is Directory) {
                None
            } else {
                walk(m, p, stop + 1, m[root]->Directory_0, root)
            }
        }
    }
}

/// The position of the first `/` of `p` at or after `from`, or the length of `p`.
pub(crate) fn find_slash(p: &[u8], from: usize) -> (r: usize)
    requires
        from <= p@.len(),
    ensures
        r == next_slash(p@, from as int),
        from <= r <= p@.len(),
{
    proof {
        lemma_next_slash(p@, from as int);
    }
    let mut i = from;
    while i < p.len() && p[i] != SLASH
        invariant
            from <= i <= p@.len(),
            next_slash(p@, i as int) == next_slash(p@, from as int),
        decreases p@.len() - i,
    {
        i = i + 1;
    }
    i
}

} // verus!
