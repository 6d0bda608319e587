//! Typed, bounds-respecting access to the circuit runtime's linear memory.
//!
//! The buffer itself lives inside a wasm store and is reached only through
//! the trusted accessor methods below; everything above this module works
//! against their contracts over the byte sequence [`mem_bytes`].

use vstd::prelude::*;

use crate::encoding::le_word;
use crate::error::CodecError;

verus! {

/// One wasm linear memory, owned together with the store that holds its
/// bytes, so no alias of the buffer can escape. The session driving one
/// circuit evaluation owns this value exclusively.
#[verifier::external_body]
pub struct LinearMemory {
    store: wasmi::Store<()>,
    memory: wasmi::Memory,
}

/// The bytes the linear memory currently holds.
pub uninterp spec fn mem_bytes(m: LinearMemory) -> Seq<u8>;

impl LinearMemory {
    /// Relies on wasmi's `Memory::new` with a `MemoryType` of `pages`
    /// 64 KiB pages and no maximum: a fresh, zero-initialized linear
    /// memory of exactly `pages * 65536` bytes, or an error when the
    /// allocation fails. `requires` keeps the page count within the
    /// 32-bit wasm limit `MemoryType::new` accepts without panicking.
    #[verifier::external_body]
    pub fn new(pages: u32) -> (r: Result<LinearMemory, CodecError>)
        requires
            pages <= 65535,
        ensures
            r is Ok ==> mem_bytes(r->Ok_0) == Seq::new(pages as nat * 65536, |i: int| 0u8),
    {
        let engine = wasmi::Engine::default();
        let mut store = wasmi::Store::new(&engine, ());
        let ty = wasmi::MemoryType::new(pages, None);
        match wasmi::Memory::new(&mut store, ty) {
            Ok(memory) => Ok(LinearMemory { store, memory }),
            Err(_) => Err(CodecError::Bounds),
        }
    }

    /// Relies on wasmi's `Memory::data_size`: the current size of the
    /// memory in bytes.
    #[verifier::external_body]
    pub fn size(&self) -> (r: usize)
        ensures
            r == mem_bytes(*self).len(),
    {
        self.memory.data_size(&self.store)
    }

    /// Relies on wasmi's `Memory::read`: fills the buffer from
    /// `memory[offset..offset + 1]`, or reports an out-of-bounds access
    /// and leaves everything unchanged.
    #[verifier::external_body]
    pub fn read_u8(&self, offset: usize) -> (r: Result<u8, CodecError>)
        ensures
            r is Ok <==> offset + 1 <= mem_bytes(*self).len(),
            r is Ok ==> r->Ok_0 == mem_bytes(*self)[offset as int],
            r is Err ==> r->Err_0 == CodecError::Bounds,
    {
        let mut buf = [0u8; 1];
        match self.memory.read(&self.store, offset, &mut buf) {
            Ok(()) => Ok(buf[0]),
            Err(_) => Err(CodecError::Bounds),
        }
    }

    /// Relies on wasmi's `Memory::read`: fills the buffer from
    /// `memory[offset..offset + 4]`, or reports an out-of-bounds access;
    /// the four bytes are composed little-endian by `u32::from_le_bytes`.
    #[verifier::external_body]
    pub fn read_u32(&self, offset: usize) -> (r: Result<u32, CodecError>)
        ensures
            r is Ok <==> offset + 4 <= mem_bytes(*self).len(),
            r is Ok ==> r->Ok_0 as int == le_word(mem_bytes(*self), offset as int),
            r is Err ==> r->Err_0 == CodecError::Bounds,
    {
        let mut buf = [0u8; 4];
        match self.memory.read(&self.store, offset, &mut buf) {
            Ok(()) => Ok(u32::from_le_bytes(buf)),
            Err(_) => Err(CodecError::Bounds),
        }
    }

    /// Relies on wasmi's `Memory::write`: replaces
    /// `memory[offset..offset + 4]` with the little-endian bytes of `v`
    /// (`u32::to_le_bytes`), all or nothing; an out-of-bounds access is
    /// reported with the memory left unchanged.
    #[verifier::external_body]
    pub fn write_u32(&mut self, offset: usize, v: u32) -> (r: Result<(), CodecError>)
        ensures
            r is Ok <==> offset + 4 <= mem_bytes(*old(self)).len(),
            mem_bytes(*final(self)).len() == mem_bytes(*old(self)).len(),
            r is Ok ==> forall|i: int|
                0 <= i < mem_bytes(*old(self)).len() && (i < offset || offset + 4 <= i)
                    ==> mem_bytes(*final(self))[i] == mem_bytes(*old(self))[i],
            r is Ok ==> le_word(mem_bytes(*final(self)), offset as int) == v,
            r is Err ==> mem_bytes(*final(self)) == mem_bytes(*old(self)) && r->Err_0
                == CodecError::Bounds,
    {
        match self.memory.write(&mut self.store, offset, &v.to_le_bytes()) {
            Ok(()) => Ok(()),
            Err(_) => Err(CodecError::Bounds),
        }
    }

    /// Relies on wasmi's `Memory::read`: returns a copy of
    /// `memory[offset..offset + len]`, or reports an out-of-bounds access.
    #[verifier::external_body]
    pub fn read_bytes(&self, offset: usize, len: usize) -> (r: Result<Vec<u8>, CodecError>)
        ensures
            r is Ok <==> offset + len <= mem_bytes(*self).len(),
            r is Ok ==> r->Ok_0@ == mem_bytes(*self).subrange(
                offset as int,
                offset as int + len as int,
            ),
            r is Err ==> r->Err_0 == CodecError::Bounds,
    {
        let mut buf = vec![0u8; len];
        match self.memory.read(&self.store, offset, &mut buf) {
            Ok(()) => Ok(buf),
            Err(_) => Err(CodecError::Bounds),
        }
    }

    /// Relies on wasmi's `Memory::write`: replaces
    /// `memory[offset..offset + data.len()]` with `data`, all or nothing;
    /// an out-of-bounds access is reported with the memory left unchanged.
    #[verifier::external_body]
    pub fn write_bytes(&mut self, offset: usize, data: &Vec<u8>) -> (r: Result<(), CodecError>)
        ensures
            r is Ok <==> offset + data@.len() <= mem_bytes(*old(self)).len(),
            mem_bytes(*final(self)).len() == mem_bytes(*old(self)).len(),
            r is Ok ==> forall|i: int|
                0 <= i < mem_bytes(*old(self)).len() && (i < offset || offset + data@.len() <= i)
                    ==> mem_bytes(*final(self))[i] == mem_bytes(*old(self))[i],
            r is Ok ==> mem_bytes(*final(self)).subrange(
                offset as int,
                offset as int + data@.len() as int,
            ) == data@,
            r is Err ==> mem_bytes(*final(self)) == mem_bytes(*old(self)) && r->Err_0
                == CodecError::Bounds,
    {
        match self.memory.write(&mut self.store, offset, data.as_slice()) {
            Ok(()) => Ok(()),
            Err(_) => Err(CodecError::Bounds),
        }
    }
}

} // verus!
