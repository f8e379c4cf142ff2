//! A ROM image held in memory.

use vstd::prelude::*;

verus! {

/// The bytes of a ROM file, with the path they were read from.
#[derive(Debug)]
pub struct Rom {
    pub path: String,
    pub buffer: Vec<u8>,
}

impl Rom {
    /// A ROM with the given bytes, to be written back to `path`.
    pub fn new(path: String, buffer: Vec<u8>) -> (rom: Rom)
        ensures
            rom.path == path,
            rom.buffer == buffer,
    {
        Rom { path, buffer }
    }

    /// The byte at `offset`, or `None` past the end.
    pub fn read_byte(&self, offset: usize) -> (r: Option<u8>)
        ensures
            r == if offset < self.buffer@.len() {
                Some(self.buffer@[offset as int])
            } else {
                None
            },
    {
        if offset < self.buffer.len() {
            Some(self.buffer[offset])
        } else {
            None
        }
    }
}

} // verus!
