use vstd::prelude::*;

verus! {

/// A stack of bytes.
pub struct Stack {
    data: Vec<u8>,
}

impl View for Stack {
    type V = Seq<u8>;

    /// The bytes, bottom first.
    closed spec fn view(&self) -> Seq<u8> {
        self.data@
    }
}

impl Stack {
    /// An empty stack.
    pub fn new() -> (r: Stack)
        ensures
            r@ == Seq::<u8>::empty(),
    {
        Stack { data: Vec::new() }
    }

    /// Pushes one byte.
    pub fn push_byte(&mut self, byte: u8)
        ensures
            final(self)@ == old(self)@.push(byte),
    {
        self.data.push(byte);
    }

    /// Pushes the bytes of `slice`, first byte first.
    pub fn push_slice(&mut self, slice: &[u8])
        ensures
            final(self)@ == old(self)@ + slice@,
    {
        let ghost start = self.data@;
        let mut i: usize = 0;
        while i < slice.len()
            invariant
                i <= slice@.len(),
                self.data@ == start + slice@.take(i as int),
            decreases slice@.len() - i,
        {
            self.data.push(slice[i]);
            i = i + 1;
            assert(self.data@ =~= start + slice@.take(i as int));
        }
        assert(slice@.take(slice@.len() as int) =~= slice@);
    }

    /// Pops the top byte.
    pub fn pop(&mut self) -> (r: u8)
        requires
            old(self)@.len() > 0,
        ensures
            r == old(self)@.last(),
            final(self)@ == old(self)@.drop_last(),
    {
        self.data.pop().unwrap()
    }

    /// The number of bytes.
    pub fn len(&self) -> (r: usize)
        ensures
            r == self@.len(),
    {
        self.data.len()
    }

    /// The byte at position `i`, from the bottom.
    pub fn index(&self, i: usize) -> (r: &u8)
        requires
            i < self@.len(),
        ensures
            *r == self@[i as int],
    {
        &self.data[i]
    }
}

/// Popping gives back the last byte pushed, and the bytes there were.
pub proof fn law_push_then_pop(bytes: Seq<u8>, byte: u8)
    ensures
        bytes.push(byte).len() > 0,
        bytes.push(byte).last() == byte,
        bytes.push(byte).drop_last() == bytes,
{
    assert(bytes.push(byte).drop_last() =~= bytes);
}

/// Pushing a slice is pushing its bytes one by one.
pub proof fn law_push_slice(bytes: Seq<u8>, slice: Seq<u8>)
    ensures
        slice.len() > 0 ==> bytes + slice == (bytes + slice.drop_last()).push(slice.last()),
{
    if slice.len() > 0 {
        assert(bytes + slice =~= (bytes + slice.drop_last()).push(slice.last()));
    }
}

} // verus!
