//! Byte-string helpers shared by the encoders and the readers.
use vstd::prelude::*;

verus! {

/// The concatenation of a sequence of byte strings, in order.
pub open spec fn concat(parts: Seq<Seq<u8>>) -> Seq<u8>
    decreases parts.len(),
{
    if parts.len() == 0 {
        Seq::empty()
    } else {
        concat(parts.drop_last()) + parts.last()
    }
}

/// Eight bytes, most significant first.
pub open spec fn u64_be(n: u64) -> Seq<u8> {
    seq![
        (n >> 56u64) as u8,
        (n >> 48u64) as u8,
        (n >> 40u64) as u8,
        (n >> 32u64) as u8,
        (n >> 24u64) as u8,
        (n >> 16u64) as u8,
        (n >> 8u64) as u8,
        n as u8,
    ]
}

/// Lexicographic order on byte strings, as `Ord` orders `[u8]`.
pub open spec fn bytes_lt(a: Seq<u8>, b: Seq<u8>) -> bool
    decreases a.len(),
{
    if a.len() == 0 {
        b.len() > 0
    } else if b.len() == 0 {
        false
    } else if a[0] != b[0] {
        a[0] < b[0]
    } else {
        bytes_lt(a.drop_first(), b.drop_first())
    }
}

pub proof fn lemma_bytes_lt_irreflexive(a: Seq<u8>)
    ensures
        !bytes_lt(a, a),
    decreases a.len(),
{
    if a.len() > 0 {
        lemma_bytes_lt_irreflexive(a.drop_first());
    }
}

pub proof fn lemma_bytes_lt_transitive(a: Seq<u8>, b: Seq<u8>, c: Seq<u8>)
    requires
        bytes_lt(a, b),
        bytes_lt(b, c),
    ensures
        bytes_lt(a, c),
    decreases a.len(),
{
    if a.len() > 0 && a[0] == b[0] && b[0] == c[0] {
        lemma_bytes_lt_transitive(a.drop_first(), b.drop_first(), c.drop_first());
    }
}

pub proof fn lemma_bytes_lt_asymmetric(a: Seq<u8>, b: Seq<u8>)
    requires
        bytes_lt(a, b),
    ensures
        !bytes_lt(b, a),
    decreases a.len(),
{
    if a.len() > 0 && a[0] == b[0] {
        lemma_bytes_lt_asymmetric(a.drop_first(), b.drop_first());
    }
}

pub proof fn lemma_bytes_lt_total(a: Seq<u8>, b: Seq<u8>)
    requires
        a != b,
    ensures
        bytes_lt(a, b) || bytes_lt(b, a),
    decreases a.len(),
{
    if a.len() > 0 && b.len() > 0 && a[0] == b[0] {
        if a.drop_first() == b.drop_first() {
            assert(a =~= seq![a[0]] + a.drop_first());
            assert(b =~= seq![b[0]] + b.drop_first());
        }
        lemma_bytes_lt_total(a.drop_first(), b.drop_first());
    } else if a.len() == 0 && b.len() == 0 {
        assert(a =~= b);
    }
}

/// Three-way comparison of two byte strings from position `i` on, where they
/// agree before `i`: -1, 0 or 1 as `a` sorts before, equal to, or after `b`.
fn compare_from(a: &[u8], b: &[u8], i: usize) -> (r: i8)
    requires
        i <= a@.len(),
        i <= b@.len(),
    ensures
        r == -1 <==> bytes_lt(a@.subrange(i as int, a@.len() as int), b@.subrange(i as int, b@.len() as int)),
        r == 0 <==> a@.subrange(i as int, a@.len() as int) == b@.subrange(i as int, b@.len() as int),
        r == 1 <==> bytes_lt(b@.subrange(i as int, b@.len() as int), a@.subrange(i as int, a@.len() as int)),
        r == -1 || r == 0 || r == 1,
    decreases a@.len() - i,
{
    let ghost sa = a@.subrange(i as int, a@.len() as int);
    let ghost sb = b@.subrange(i as int, b@.len() as int);
    proof {
        if sa != sb {
            lemma_bytes_lt_total(sa, sb);
        }
        lemma_bytes_lt_irreflexive(sa);
        if bytes_lt(sa, sb) {
            lemma_bytes_lt_asymmetric(sa, sb);
        }
    }
    if i == a.len() {
        if i == b.len() {
            assert(sa =~= sb);
            0
        } else {
            -1
        }
    } else if i == b.len() {
        1
    } else if a[i] < b[i] {
        -1
    } else if a[i] > b[i] {
        1
    } else {
        let r = compare_from(a, b, i + 1);
        assert(sa.drop_first() =~= a@.subrange(i + 1, a@.len() as int));
        assert(sb.drop_first() =~= b@.subrange(i + 1, b@.len() as int));
        proof {
            if sa.drop_first() == sb.drop_first() {
                assert(sa =~= seq![sa[0]] + sa.drop_first());
                assert(sb =~= seq![sb[0]] + sb.drop_first());
            }
        }
        r
    }
}

/// Three-way comparison of two byte strings: -1, 0 or 1 as `a` sorts before,
/// equal to, or after `b`.
pub fn compare_bytes(a: &[u8], b: &[u8]) -> (r: i8)
    ensures
        r == -1 <==> bytes_lt(a@, b@),
        r == 0 <==> a@ == b@,
        r == 1 <==> bytes_lt(b@, a@),
        r == -1 || r == 0 || r == 1,
{
    let r = compare_from(a, b, 0);
    assert(a@.subrange(0, a@.len() as int) =~= a@);
    assert(b@.subrange(0, b@.len() as int) =~= b@);
    r
}

/// Appends `n` to `out`, most significant byte first.
pub fn push_u64_be(out: &mut Vec<u8>, n: u64)
    ensures
        final(out)@ == old(out)@ + u64_be(n),
{
    out.push((n >> 56u64) as u8);
    out.push((n >> 48u64) as u8);
    out.push((n >> 40u64) as u8);
    out.push((n >> 32u64) as u8);
    out.push((n >> 24u64) as u8);
    out.push((n >> 16u64) as u8);
    out.push((n >> 8u64) as u8);
    out.push(n as u8);
    assert(final(out)@ =~= old(out)@ + u64_be(n));
}

/// Appends the bytes of `src` to `out`.
pub fn push_bytes(out: &mut Vec<u8>, src: &[u8])
    ensures
        final(out)@ == old(out)@ + src@,
{
    let ghost start = out@;
    let mut i: usize = 0;
    while i < src.len()
        invariant
            0 <= i <= src@.len(),
            out@ == start + src@.subrange(0, i as int),
        decreases src@.len() - i,
    {
        out.push(src[i]);
        i = i + 1;
        assert(out@ =~= start + src@.subrange(0, i as int));
    }
    assert(src@.subrange(0, i as int) =~= src@);
}

/// A fresh vector holding the bytes of `src`.
pub fn copy_bytes(src: &[u8]) -> (v: Vec<u8>)
    ensures
        v@ == src@,
{
    let mut v: Vec<u8> = Vec::new();
    push_bytes(&mut v, src);
    assert(v@ =~= src@);
    v
}

} // verus!
