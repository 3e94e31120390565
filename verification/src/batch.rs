//! Writes that are made together.

use vstd::prelude::*;

use crate::bytes;

verus! {

/// One write: a key, and its new value or nothing to delete it.
pub struct Write {
    pub key: Vec<u8>,
    pub value: Option<Vec<u8>>,
}

/// What a [`Write`] is.
pub struct WriteView {
    pub key: Seq<u8>,
    pub value: Option<Seq<u8>>,
}

impl View for Write {
    type V = WriteView;

    open spec fn view(&self) -> WriteView {
        WriteView {
            key: self.key@,
            value: match self.value {
                Some(v) => Some(v@),
                None => None,
            },
        }
    }
}

/// Writes that are made together: after a crash either all of them are there or
/// none. A later write to a key shadows an earlier one.
pub struct WriteBatch {
    writes: Vec<Write>,
}

impl View for WriteBatch {
    type V = Seq<WriteView>;

    closed spec fn view(&self) -> Seq<WriteView> {
        self.writes@.map_values(|w: Write| w@)
    }
}

impl WriteBatch {
    /// A batch without writes.
    pub fn new() -> (r: WriteBatch)
        ensures
            r@ == Seq::<WriteView>::empty(),
    {
        let r = WriteBatch { writes: Vec::new() };
        assert(r@ =~= Seq::<WriteView>::empty());
        r
    }

    /// Give `key` this value.
    pub fn put(&mut self, key: &[u8], value: &[u8])
        ensures
            final(self)@ == old(self)@.push(WriteView { key: key@, value: Some(value@) }),
    {
        self.push(Write { key: bytes::copy(key), value: Some(bytes::copy(value)) });
    }

    /// Delete `key`.
    pub fn delete(&mut self, key: &[u8])
        ensures
            final(self)@ == old(self)@.push(WriteView { key: key@, value: None }),
    {
        self.push(Write { key: bytes::copy(key), value: None });
    }

    fn push(&mut self, write: Write)
        ensures
            final(self)@ == old(self)@.push(write@),
    {
        let ghost before = self.writes@;
        self.writes.push(write);
        assert(self@ =~= before.map_values(|w: Write| w@).push(write@));
    }

    /// The writes, in order.
    pub fn as_slice(&self) -> (r: &[Write])
        ensures
            r@.map_values(|w: Write| w@) == self@,
    {
        self.writes.as_slice()
    }

    /// How many writes there are.
    pub fn len(&self) -> (r: usize)
        ensures
            r == self@.len(),
    {
        self.writes.len()
    }

    /// Whether there are no writes.
    pub fn is_empty(&self) -> (r: bool)
        ensures
            r == (self@.len() == 0),
    {
        self.writes.len() == 0
    }
}

} // verus!
