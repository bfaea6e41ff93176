use vstd::prelude::*;

verus! {

/// A range of a shared backing vector: `len` items from `pos` on.
#[derive(Clone, Copy, Debug, PartialEq, Eq, Structural)]
pub struct VecSlice {
    pub pos: usize,
    pub len: usize,
}

impl VecSlice {
    pub fn new(pos: usize, len: usize) -> (r: VecSlice)
        ensures
            r.pos == pos,
            r.len == len,
    {
        VecSlice { pos, len }
    }

    pub open spec fn fits<T>(self, backing: Seq<T>) -> bool {
        self.pos + self.len <= backing.len()
    }

    /// The items that the range covers.
    pub open spec fn of<T>(self, backing: Seq<T>) -> Seq<T> {
        backing.subrange(self.pos as int, self.pos + self.len)
    }

    pub fn len(&self) -> (r: usize)
        ensures
            r == self.len,
    {
        self.len
    }

    pub fn get_slice<'a, T>(&self, backing: &'a Vec<T>) -> (r: &'a [T])
        requires
            self.fits(backing@),
        ensures
            r@ == self.of(backing@),
    {
        let _n = backing.len();
        vstd::slice::slice_subrange(backing.as_slice(), self.pos, self.pos + self.len)
    }
}

} // verus!
