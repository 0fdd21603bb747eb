//! A disk of one megabyte held in memory, addressed by sector and offset or by linear byte
//! address.

use vstd::prelude::*;

verus! {

pub const BYTES_PER_SECTOR: usize = 512;

pub const SECTORS_PER_MB: usize = 2048;

pub const MB_PER_DISK: usize = 1;

pub const SECTORS_PER_DISK: usize = MB_PER_DISK * SECTORS_PER_MB;

/// The most bytes a structure may take on the disk.
pub const MAX_STRUCTURE_SIZE: usize = BYTES_PER_SECTOR * 1;

/// The bytes of a disk after `byte` has been stored at `offset` of `sector`.
pub open spec fn stored_at(sectors: Seq<Seq<u8>>, sector: int, offset: int, byte: u8) -> Seq<Seq<u8>> {
    sectors.update(sector, sectors[sector].update(offset, byte))
}

/// Something that bytes can be read from, by sector and offset.
pub trait Read {
    /// What can be read: the bytes of each sector.
    spec fn readable(&self) -> Seq<Seq<u8>>;

    fn read(&self, sector: usize, offset: usize) -> (b: u8)
        requires
            sector < self.readable().len(),
            offset < self.readable()[sector as int].len(),
        ensures
            b == self.readable()[sector as int][offset as int],
    ;
}

/// Something that bytes can be written to, by sector and offset.
pub trait Write {
    /// What has been written: the bytes of each sector.
    spec fn written(&self) -> Seq<Seq<u8>>;

    fn write(&mut self, sector: usize, offset: usize, data: u8)
        requires
            sector < old(self).written().len(),
            offset < old(self).written()[sector as int].len(),
        ensures
            final(self).written() == stored_at(old(self).written(), sector as int, offset as int, data),
    ;
}

pub trait ReadWrite: Read + Write {

}

/// 512 bytes of the disk.
#[derive(Debug, Copy, Clone)]
pub struct Sector {
    block: [u8; 512],
}

impl View for Sector {
    type V = Seq<u8>;

    closed spec fn view(&self) -> Seq<u8> {
        self.block@
    }
}

impl Sector {
    /// Every sector holds 512 bytes.
    pub broadcast proof fn lemma_len(self)
        ensures
            #[trigger] self@.len() == 512,
    {
    }

    /// A sector of zeros.
    pub fn empty() -> (s: Sector)
        ensures
            s@ == Seq::new(512, |i: int| 0u8),
    {
        let s = Sector { block: [0u8; 512] };
        assert(s@ =~= Seq::new(512, |i: int| 0u8));
        s
    }

    pub fn read(&self, index: usize) -> (b: u8)
        requires
            index < BYTES_PER_SECTOR,
        ensures
            b == self@[index as int],
    {
        self.block[index]
    }

    pub fn write(&mut self, index: usize, data: u8)
        requires
            index < BYTES_PER_SECTOR,
        ensures
            final(self)@ == old(self)@.update(index as int, data),
    {
        self.block[index] = data
    }
}

fn to_sector_index(index: usize) -> (r: usize)
    ensures
        r == index / BYTES_PER_SECTOR,
{
    index / BYTES_PER_SECTOR
}

fn to_offset(index: usize) -> (r: usize)
    ensures
        r == index % BYTES_PER_SECTOR,
{
    index % BYTES_PER_SECTOR
}

/// The sector that holds byte address `index`, and the offset of the byte in that sector.
pub fn to_sector_offset(index: usize) -> (r: (usize, usize))
    ensures
        r.0 == index / BYTES_PER_SECTOR,
        r.1 == index % BYTES_PER_SECTOR,
{
    (to_sector_index(index), to_offset(index))
}

/// The sector that holds byte address `index`, and the offset of the byte in that sector.
pub fn translate_index(index: usize) -> (r: (usize, usize))
    ensures
        r.0 == index / BYTES_PER_SECTOR,
        r.1 == index % BYTES_PER_SECTOR,
{
    to_sector_offset(index)
}

/// The disk: 2048 sectors.
#[derive(Debug, Clone)]
pub struct Disk {
    sectors: Vec<Sector>,
}

impl View for Disk {
    type V = Seq<Seq<u8>>;

    closed spec fn view(&self) -> Seq<Seq<u8>> {
        Seq::new(self.sectors@.len(), |i: int| self.sectors@[i]@)
    }
}

/// The bytes of a disk after the bytes of `data` have been stored one after another from byte
/// address `address` on.
pub open spec fn stored_all(sectors: Seq<Seq<u8>>, address: int, data: Seq<u8>) -> Seq<Seq<u8>>
    decreases data.len(),
{
    if data.len() == 0 {
        sectors
    } else {
        let at = address + data.len() - 1;
        stored_at(stored_all(sectors, address, data.drop_last()), at / 512, at % 512, data.last())
    }
}

impl Read for Disk {
    open spec fn readable(&self) -> Seq<Seq<u8>> {
        self@
    }

    fn read(&self, sector: usize, offset: usize) -> (b: u8) {
        proof {
            self.sectors@[sector as int].lemma_len();
        }
        self.sectors[sector].read(offset)
    }
}

impl Write for Disk {
    open spec fn written(&self) -> Seq<Seq<u8>> {
        self@
    }

    fn write(&mut self, sector: usize, offset: usize, data: u8) {
        proof {
            self.sectors@[sector as int].lemma_len();
        }
        self.sectors[sector].write(offset, data);
        assert(self@ =~= stored_at(old(self)@, sector as int, offset as int, data));
    }
}

impl ReadWrite for Disk {

}

impl Disk {
    /// A disk of 2048 sectors of zeros.
    pub fn new() -> (d: Disk)
        ensures
            d@ == Seq::new(2048, |i: int| Seq::new(512, |j: int| 0u8)),
    {
        let mut sectors: Vec<Sector> = Vec::new();
        let mut i: usize = 0;
        while i < SECTORS_PER_DISK
            invariant
                i <= SECTORS_PER_DISK,
                sectors@.len() == i,
                forall|j: int| 0 <= j < i ==> sectors@[j]@ == Seq::new(512, |k: int| 0u8),
            decreases SECTORS_PER_DISK - i,
        {
            sectors.push(Sector::empty());
            i += 1;
        }
        let d = Disk { sectors };
        assert(d@ =~= Seq::new(2048, |i: int| Seq::new(512, |j: int| 0u8)));
        d
    }

    /// The number of sectors.
    pub fn sector_count(&self) -> (n: usize)
        ensures
            n == self@.len(),
    {
        self.sectors.len()
    }

    /// Every sector of a disk holds 512 bytes.
    pub proof fn lemma_sectors(self)
        ensures
            forall|i: int| 0 <= i < self@.len() ==> (#[trigger] self@[i]).len() == 512,
    {
        assert forall|i: int| 0 <= i < self@.len() implies (#[trigger] self@[i]).len() == 512 by {
            self.sectors@[i].lemma_len();
        }
    }

    /// A copy of the sector that holds byte address `address`.
    pub fn sector_containing_addr(&self, address: usize) -> (s: Sector)
        requires
            address / 512 < self@.len(),
        ensures
            s@ == self@[address as int / 512],
    {
        self.sectors[to_sector_index(address)]
    }

    /// Stores the bytes of `data` one after another from byte address `address` on.
    pub fn write_slice(&mut self, address: usize, data: &[u8])
        requires
            address + data@.len() <= old(self)@.len() * 512,
            address + data@.len() <= usize::MAX,
        ensures
            final(self)@ == stored_all(old(self)@, address as int, data@),
    {
        let _ = self.sectors.len();
        let mut i: usize = 0;
        while i < data.len()
            invariant
                i <= data@.len(),
                self@.len() == old(self)@.len(),
                self@.len() <= usize::MAX,
                address + data@.len() <= self@.len() * 512,
                address + data@.len() <= usize::MAX,
                self@ == stored_all(old(self)@, address as int, data@.take(i as int)),
            decreases data@.len() - i,
        {
            let (sector, offset) = to_sector_offset(i + address);
            proof {
                self.lemma_sectors();
                assert(data@.take(i as int + 1).drop_last() =~= data@.take(i as int));
            }
            self.write(sector, offset, data[i]);
            i += 1;
        }
        assert(data@.take(i as int) =~= data@);
    }

    /// Overwrites sector `sector` with `data`.
    pub fn write_sector(&mut self, sector: usize, data: [u8; 512])
        requires
            sector < old(self)@.len(),
        ensures
            final(self)@ == old(self)@.update(sector as int, data@),
    {
        let mut i: usize = 0;
        while i < BYTES_PER_SECTOR
            invariant
                i <= BYTES_PER_SECTOR,
                sector < self@.len(),
                self@.len() == old(self)@.len(),
                forall|s: int| 0 <= s < self@.len() && s != sector ==> self@[s] == old(self)@[s],
                self@[sector as int].len() == 512,
                forall|j: int| 0 <= j < i ==> self@[sector as int][j] == data@[j],
            decreases BYTES_PER_SECTOR - i,
        {
            proof {
                self.lemma_sectors();
            }
            self.write(sector, i, data[i]);
            i += 1;
        }
        assert(self@[sector as int] =~= data@);
        assert(self@ =~= old(self)@.update(sector as int, data@));
    }

    /// Fills `buffer` with the bytes from byte address `address` on. The disk is left as it
    /// was.
    pub fn read_slice(&mut self, buffer: &mut [u8], address: usize)
        requires
            address + old(buffer)@.len() <= old(self)@.len() * 512,
            address + old(buffer)@.len() <= usize::MAX,
        ensures
            final(self)@ == old(self)@,
            final(buffer)@.len() == old(buffer)@.len(),
            forall|i: int|
                0 <= i < final(buffer)@.len() ==> #[trigger] final(buffer)@[i] == old(self)@[(address + i) / 512][(
                address + i) % 512],
    {
        let _ = self.sectors.len();
        let n = buffer.len();
        let mut i: usize = 0;
        while i < n
            invariant
                i <= n,
                n == buffer@.len(),
                self@ == old(self)@,
                self@.len() <= usize::MAX,
                address + n <= self@.len() * 512,
                address + n <= usize::MAX,
                forall|j: int| 0 <= j < i ==> #[trigger] buffer@[j] == self@[(address + j) / 512][(address + j) % 512],
            decreases n - i,
        {
            let (sector, offset) = to_sector_offset(i + address);
            proof {
                self.lemma_sectors();
            }
            buffer[i] = self.read(sector, offset);
            i += 1;
        }
    }
}

} // verus!
