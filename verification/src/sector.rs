//! A disk sector held in memory: 512 bytes and the block address they belong to.

use vstd::prelude::*;

verus! {

/// The address of a sector on a drive. Block 0 is never the address of a node or of file data:
/// it marks "nothing follows" wherever a block address is stored.
pub type BlockIndex = u32;

/// Bytes in one sector, the unit of every transfer.
pub const SECTOR_SIZE: usize = 512;

/// What 512 untouched bytes look like.
pub open spec fn zero_block() -> Seq<u8> {
    Seq::new(512, |i: int| 0u8)
}

/// The mathematical value of a [`Sector`].
pub struct SectorView {
    pub index: BlockIndex,
    pub data: Seq<u8>,
}

/// A sector with nothing written to it.
pub open spec fn zero_sector(index: BlockIndex) -> SectorView {
    SectorView { index, data: zero_block() }
}

#[derive(Debug, Clone, Copy)]
pub struct Sector {
    index: BlockIndex,
    data: [u8; 512],
}

impl View for Sector {
    type V = SectorView;

    closed spec fn view(&self) -> SectorView {
        SectorView { index: self.index, data: self.data@ }
    }
}

impl PartialEq for Sector {
    /// Two sectors are equal when they carry the same address and the same 512 bytes.
    fn eq(&self, other: &Sector) -> (r: bool) {
        if self.index != other.index {
            return false;
        }
        let mut i: usize = 0;
        while i < 512
            invariant
                i <= 512,
                self.index == other.index,
                forall|j: int| 0 <= j < i ==> self.data@[j] == other.data@[j],
            decreases 512 - i,
        {
            if self.data[i] != other.data[i] {
                return false;
            }
            i += 1;
        }
        assert(self.data@ =~= other.data@);
        true
    }
}

impl vstd::std_specs::cmp::PartialEqSpecImpl for Sector {
    open spec fn obeys_eq_spec() -> bool {
        true
    }

    open spec fn eq_spec(&self, other: &Sector) -> bool {
        self@ == other@
    }
}

impl Eq for Sector {

}

impl Sector {
    /// Every sector holds exactly 512 bytes.
    pub broadcast proof fn lemma_len(self)
        ensures
            #[trigger] self@.data.len() == 512,
    {
    }

    /// A zeroed sector that belongs at `index`.
    pub fn new(index: BlockIndex) -> (s: Sector)
        ensures
            s@ == zero_sector(index),
    {
        let s = Sector { index, data: [0u8; 512] };
        assert(s.data@ =~= zero_block());
        s
    }

    /// The block address this sector belongs to.
    pub fn index(&self) -> (r: BlockIndex)
        ensures
            r == self@.index,
    {
        self.index
    }

    /// A copy of the 512 bytes.
    pub fn data(&self) -> (r: [u8; 512])
        ensures
            r@ == self@.data,
    {
        self.data
    }

    /// The 512 bytes, open for writing. The address stays as it was.
    pub fn data_mut(&mut self) -> (r: &mut [u8; 512])
        ensures
            r@ == old(self)@.data,
            final(self)@ == (SectorView { index: old(self)@.index, data: final(r)@ }),
    {
        &mut self.data
    }

    /// Stores `byte` at `offset`.
    pub fn write(&mut self, offset: usize, byte: u8)
        requires
            offset < SECTOR_SIZE,
        ensures
            final(self)@ == (SectorView {
                index: old(self)@.index,
                data: old(self)@.data.update(offset as int, byte),
            }),
    {
        self.data[offset] = byte;
    }

    /// The byte at `offset`.
    pub fn read(&self, offset: usize) -> (r: u8)
        requires
            offset < SECTOR_SIZE,
        ensures
            r == self@.data[offset as int],
    {
        self.data[offset]
    }
}

} // verus!
