use vstd::prelude::*;

verus! {

/// The largest number of bytes a chunk holds: 4 MiB.
pub const CHUNK_SIZE: u64 = 4194304;

/// A raw byte span, the leaf unit of file storage.
#[derive(Debug, Clone, PartialEq, Eq)]
pub struct Chunk {
    pub data: Vec<u8>,
}

impl View for Chunk {
    type V = Seq<u8>;

    open spec fn view(&self) -> Seq<u8> {
        self.data@
    }
}

/// The number of chunks that `len` bytes split into.
pub open spec fn chunk_count(len: nat) -> nat {
    if len == 0 {
        0
    } else {
        ((len - 1) as nat / CHUNK_SIZE as nat) + 1
    }
}

/// The `i`-th chunk of `data`: bytes `i * CHUNK_SIZE` up to the next boundary or the end.
pub open spec fn chunk_at(data: Seq<u8>, i: int) -> Seq<u8> {
    let start = i * CHUNK_SIZE;
    let end = if start + CHUNK_SIZE < data.len() { start + CHUNK_SIZE } else { data.len() as int };
    data.subrange(start, end)
}

impl Chunk {
    pub fn duplicate(&self) -> (c: Chunk)
        ensures
            c@ == self@,
    {
        Chunk { data: crate::bytes::copy_bytes(self.data.as_slice()) }
    }

    /// Splits `data` into chunks of at most `CHUNK_SIZE` bytes; empty data gives no chunk.
    pub fn chunks_from_data(data: &[u8]) -> (r: Vec<Chunk>)
        ensures
            r@.len() == chunk_count(data@.len() as nat),
            forall|i: int| 0 <= i < r@.len() ==> #[trigger] r@[i]@ == chunk_at(data@, i),
            forall|i: int| 0 <= i < r@.len() ==> #[trigger] r@[i]@.len() <= CHUNK_SIZE,
    {
        let mut r: Vec<Chunk> = Vec::new();
        let mut start: usize = 0;
        while start < data.len()
            invariant
                start <= data@.len(),
                start == r@.len() * CHUNK_SIZE,
                r@.len() == chunk_count(start as nat),
                forall|i: int| 0 <= i < r@.len() ==> #[trigger] r@[i]@ == chunk_at(data@, i),
                forall|i: int| 0 <= i < r@.len() ==> #[trigger] r@[i]@.len() <= CHUNK_SIZE,
            decreases data@.len() - start,
        {
            let end: usize = if data.len() - start > CHUNK_SIZE as usize {
                start + CHUNK_SIZE as usize
            } else {
                data.len()
            };
            let piece = crate::bytes::copy_bytes(&data[start..end]);
            proof {
                let n = r@.len() as int;
                assert(start == n * CHUNK_SIZE);
                assert(piece@ == chunk_at(data@, n));
                if end < data@.len() {
                    assert(end == (n + 1) * CHUNK_SIZE) by (nonlinear_arith)
                        requires end == start + CHUNK_SIZE, start == n * CHUNK_SIZE;
                    assert(chunk_count(end as nat) == n + 1) by (nonlinear_arith)
                        requires end == (n + 1) * CHUNK_SIZE, n >= 0;
                } else {
                    assert(chunk_count(data@.len() as nat) == n + 1) by (nonlinear_arith)
                        requires data@.len() > n * CHUNK_SIZE, data@.len() <= n * CHUNK_SIZE + CHUNK_SIZE, n >= 0;
                }
            }
            r.push(Chunk { data: piece });
            if end == data.len() {
                proof {
                    let n = r@.len() as int;
                    assert(r@.len() == chunk_count(data@.len() as nat));
                }
                return r;
            }
            start = end;
        }
        r
    }
}

} // verus!
