use vstd::prelude::*;
use crate::object::Object;

verus! {

/// An ordered list of chunk references plus the total byte length.
#[derive(Debug, Clone, PartialEq, Eq)]
pub struct File {
    pub contents: Vec<Object>,
    pub size: u64,
}

/// The hashes of a list of objects, in order.
pub open spec fn hashes_of(objects: Seq<Object>) -> Seq<Seq<u8>> {
    Seq::new(objects.len(), |i: int| objects[i]@)
}

impl View for File {
    type V = (Seq<Seq<u8>>, u64);

    open spec fn view(&self) -> (Seq<Seq<u8>>, u64) {
        (hashes_of(self.contents@), self.size)
    }
}

impl File {
    pub fn new(contents: Vec<Object>, size: u64) -> (f: File)
        ensures
            f.contents@ == contents@,
            f.size == size,
    {
        File { contents, size }
    }

    pub fn duplicate(&self) -> (f: File)
        ensures
            f.contents@ == self.contents@,
            f.size == self.size,
    {
        let mut contents: Vec<Object> = Vec::new();
        let mut i: usize = 0;
        while i < self.contents.len()
            invariant
                i <= self.contents@.len(),
                contents@ == self.contents@.subrange(0, i as int),
            decreases self.contents@.len() - i,
        {
            contents.push(self.contents[i]);
            i = i + 1;
            assert(contents@ =~= self.contents@.subrange(0, i as int));
        }
        assert(contents@ =~= self.contents@);
        File { contents, size: self.size }
    }
}

} // verus!
