//! Sector-level access to the attached drives: finding a drive, moving single sectors and runs
//! of sectors, telling used sectors from unused ones, and wiping a drive.

use vstd::prelude::*;
use core::ops::Range;
use crate::ata::{Ata, AtaView, DriveView, block_of, image_of, with_block};
use crate::sector::{BlockIndex, Sector, SectorView, zero_block};
use crate::sector_list::SectorList;

verus! {

/// Bytes in one block, the unit in which structures are stored on a drive.
pub const BLOCK_SIZE: usize = 512;

/// Sectors that a file-system node claims when it is placed: the node's own and 32 after it.
pub const NODE_REGION: u32 = 33;

/// The mathematical value of a [`Disk`].
pub struct DiskView {
    pub bus: u8,
    pub drive: u8,
    pub size: nat,
    pub name: Seq<char>,
}

/// A drive as it identified itself: where it sits, its size in bytes and its model name.
pub struct Disk {
    pub(crate) bus: u8,
    pub(crate) drive: u8,
    pub(crate) size: u64,
    pub(crate) name: String,
}

impl View for Disk {
    type V = DiskView;

    closed spec fn view(&self) -> DiskView {
        DiskView { bus: self.bus, drive: self.drive, size: self.size as nat, name: self.name@ }
    }
}

impl Disk {
    /// The bus the drive is on.
    pub fn bus(&self) -> (r: u8)
        ensures
            r == self@.bus,
    {
        self.bus
    }

    /// The drive's number on its bus.
    pub fn drive(&self) -> (r: u8)
        ensures
            r == self@.drive,
    {
        self.drive
    }

    /// The drive's size in bytes.
    pub fn size(&self) -> (r: u64)
        ensures
            r == self@.size,
    {
        self.size
    }

    /// The drive's model name.
    pub fn name(&self) -> (r: &String)
        ensures
            r@ == self@.name,
    {
        &self.name
    }
}

/// The sectors of the drive that `disk` names.
pub open spec fn image(ata: AtaView, disk: DiskView) -> Seq<Seq<u8>> {
    image_of(ata, disk.bus, disk.drive)
}

/// The drive after `data[i]` has been written to block `start + i`, for each `i` in turn.
pub open spec fn with_blocks(ata: AtaView, bus: u8, drive: u8, start: int, data: Seq<Seq<u8>>) -> AtaView
    decreases data.len(),
{
    if data.len() == 0 {
        ata
    } else {
        with_block(
            with_blocks(ata, bus, drive, start, data.drop_last()),
            bus,
            drive,
            start + data.len() - 1,
            data.last(),
        )
    }
}

/// The drives after the first `count` sectors of (bus, drive) have been zeroed.
pub open spec fn zeroed_prefix(ata: AtaView, bus: u8, drive: u8, count: int) -> AtaView {
    if ata.contains_key((bus, drive)) {
        ata.insert(
            (bus, drive),
            DriveView {
                model: ata[(bus, drive)].model,
                blocks: Seq::new(
                    ata[(bus, drive)].blocks.len(),
                    |i: int|
                        if i < count {
                            zero_block()
                        } else {
                            ata[(bus, drive)].blocks[i]
                        },
                ),
            },
        )
    } else {
        ata
    }
}

/// Every block from `start` up to, and without, `end` holds only zeros.
pub open spec fn range_empty(blocks: Seq<Seq<u8>>, start: int, end: int) -> bool {
    forall|i: int| start <= i < end ==> #[trigger] block_of(blocks, i) == zero_block()
}

/// A node may be placed at `start`: the block is not block 0, the 33 sectors from it on all
/// exist, and all of them are unused.
pub open spec fn region_free(blocks: Seq<Seq<u8>>, start: int) -> bool {
    &&& 1 <= start
    &&& start + NODE_REGION <= blocks.len()
    &&& range_empty(blocks, start, start + NODE_REGION)
}

/// The lowest block at or after `from` at which a node may be placed; the number of sectors
/// when there is none.
pub open spec fn region_from(blocks: Seq<Seq<u8>>, from: int) -> int
    decreases blocks.len() - from,
{
    if from < 1 || from + NODE_REGION > blocks.len() {
        blocks.len() as int
    } else if range_empty(blocks, from, from + NODE_REGION) {
        from
    } else {
        region_from(blocks, from + 1)
    }
}

/// `region_from` finds a place for a node that has no such place before it.
pub proof fn lemma_region_from(blocks: Seq<Seq<u8>>, from: int)
    requires
        1 <= from,
    ensures
        region_from(blocks, from) < blocks.len() ==> from <= region_from(blocks, from) && region_free(
            blocks,
            region_from(blocks, from),
        ),
        region_from(blocks, from) >= blocks.len() ==> region_from(blocks, from) == blocks.len(),
        forall|t: int| from <= t < region_from(blocks, from) ==> !region_free(blocks, t),
    decreases blocks.len() - from,
{
    if from + NODE_REGION <= blocks.len() && !range_empty(blocks, from, from + NODE_REGION) {
        lemma_region_from(blocks, from + 1);
    }
}

/// `count` sectors can be stored from block `start` on: the block is not block 0, and the
/// sectors exist and are unused.
pub open spec fn run_free(blocks: Seq<Seq<u8>>, start: int, count: int) -> bool {
    &&& 1 <= start
    &&& start + count <= blocks.len()
    &&& range_empty(blocks, start, start + count)
}

/// The lowest block at or after `from`, other than block 0, from which `count` sectors exist
/// and are unused; the number of sectors when there is none.
pub open spec fn run_from(blocks: Seq<Seq<u8>>, from: int, count: int) -> int
    decreases blocks.len() - from,
{
    if from < 1 || from + count > blocks.len() {
        blocks.len() as int
    } else if range_empty(blocks, from, from + count) {
        from
    } else {
        run_from(blocks, from + 1, count)
    }
}

/// `run_from` finds a run of unused sectors that has no such run before it.
pub proof fn lemma_run_from(blocks: Seq<Seq<u8>>, from: int, count: int)
    requires
        1 <= from,
        0 <= count,
    ensures
        run_from(blocks, from, count) < blocks.len() ==> from <= run_from(blocks, from, count) && run_free(
            blocks,
            run_from(blocks, from, count),
            count,
        ),
        run_from(blocks, from, count) >= blocks.len() ==> run_from(blocks, from, count) == blocks.len(),
        forall|t: int| from <= t < run_from(blocks, from, count) ==> !#[trigger] run_free(blocks, t, count),
    decreases blocks.len() - from,
{
    if from + count <= blocks.len() && !range_empty(blocks, from, from + count) {
        lemma_run_from(blocks, from + 1, count);
    }
}

/// Identifies the drive at (bus, disk_num). `None` when no drive answers there.
pub fn get_disk(ata: &Ata, bus: u8, disk_num: u8) -> (r: Option<Disk>)
    ensures
        r is Some <==> ata@.contains_key((bus, disk_num)),
        r matches Some(d) ==> d@ == (DiskView {
            bus,
            drive: disk_num,
            size: ata@[(bus, disk_num)].blocks.len() * 512,
            name: ata@[(bus, disk_num)].model,
        }),
{
    if let Some((bus_id, disk_id, model, sectors)) = ata.identify_drive(bus, disk_num) {
        Some(Disk { bus: bus_id, drive: disk_id, size: sectors as u64 * 512, name: model })
    } else {
        None
    }
}

/// Reads one sector of `disk`. A block the drive does not have reads as zeros.
pub fn get_sector(ata: &Ata, disk: &Disk, sector_num: BlockIndex) -> (sector: Sector)
    ensures
        sector@ == (SectorView { index: sector_num, data: block_of(image(ata@, disk@), sector_num as int) }),
{
    let mut sector = Sector::new(sector_num);
    ata.read(disk.bus, disk.drive, sector_num, &mut sector);
    sector
}

/// Reads the sectors `sector_range.start .. sector_range.end` of `disk`, in order.
pub fn get_sectors(ata: &Ata, disk: &Disk, sector_range: Range<BlockIndex>) -> (list: SectorList)
    ensures
        list@.len() == if sector_range.start <= sector_range.end {
            sector_range.end - sector_range.start
        } else {
            0
        },
        forall|i: int|
            0 <= i < list@.len() ==> #[trigger] list@[i] == (SectorView {
                index: (sector_range.start + i) as u32,
                data: block_of(image(ata@, disk@), sector_range.start + i),
            }),
{
    let mut list = SectorList::with_capacity(0);
    let mut block = sector_range.start;
    while block < sector_range.end
        invariant
            sector_range.start <= block,
            sector_range.start <= sector_range.end ==> block <= sector_range.end,
            sector_range.start > sector_range.end ==> block == sector_range.start,
            list@.len() == block - sector_range.start,
            forall|i: int|
                0 <= i < list@.len() ==> #[trigger] list@[i] == (SectorView {
                    index: (sector_range.start + i) as u32,
                    data: block_of(image(ata@, disk@), sector_range.start + i),
                }),
        decreases sector_range.end - block,
    {
        list.add_sector(&get_sector(ata, disk, block));
        block += 1;
    }
    list
}

/// Writes the 512 bytes of `sector` to block `sector_num` of `disk`. Nothing is written when
/// the drive has no such block.
pub fn set_sector(ata: &mut Ata, disk: &Disk, sector_num: BlockIndex, sector: &Sector)
    ensures
        final(ata)@ == with_block(old(ata)@, disk@.bus, disk@.drive, sector_num as int, sector@.data),
{
    ata.write(disk.bus, disk.drive, sector_num, sector);
}

/// The 512-byte contents of each sector of a list, in order.
pub open spec fn contents(list: Seq<SectorView>) -> Seq<Seq<u8>> {
    list.map_values(|s: SectorView| s.data)
}

/// Writes the sectors of a list to consecutive blocks of `disk`, the first to `start_block`.
pub fn set_sectors(ata: &mut Ata, disk: &Disk, start_block: BlockIndex, sectors: &SectorList)
    requires
        start_block + sectors@.len() <= 0x1_0000_0000,
    ensures
        final(ata)@ == with_blocks(old(ata)@, disk@.bus, disk@.drive, start_block as int, contents(sectors@)),
{
    let mut index: usize = 0;
    let n = sectors.len();
    while index < n
        invariant
            index <= n,
            n == sectors@.len(),
            start_block + sectors@.len() <= 0x1_0000_0000,
            ata@ == with_blocks(
                old(ata)@,
                disk@.bus,
                disk@.drive,
                start_block as int,
                contents(sectors@).take(index as int),
            ),
        decreases n - index,
    {
        let sector = sectors.get_sector(index).unwrap();
        assert(contents(sectors@).take(index as int + 1).drop_last() =~= contents(sectors@).take(index as int));
        set_sector(ata, disk, start_block + index as u32, sector);
        index += 1;
    }
    assert(contents(sectors@).take(index as int) =~= contents(sectors@));
}

/// Copies `amount + 1` sectors, starting at `start_block` of `src_disk`, to `dest_block` and
/// the blocks after it on `dest_disk`. All of them are read before any is written.
pub fn copy_sectors(
    ata: &mut Ata,
    src_disk: &Disk,
    dest_disk: &Disk,
    start_block: BlockIndex,
    amount: BlockIndex,
    dest_block: BlockIndex,
)
    requires
        start_block + amount + 1 <= u32::MAX,
        dest_block + amount + 1 <= 0x1_0000_0000,
    ensures
        final(ata)@ == with_blocks(
            old(ata)@,
            dest_disk@.bus,
            dest_disk@.drive,
            dest_block as int,
            Seq::new((amount + 1) as nat, |i: int| block_of(image(old(ata)@, src_disk@), start_block + i)),
        ),
{
    let sectors = get_sectors(ata, src_disk, start_block..(start_block + amount + 1));
    assert(contents(sectors@) =~= Seq::new(
        (amount + 1) as nat,
        |i: int| block_of(image(ata@, src_disk@), start_block + i),
    ));
    set_sectors(ata, dest_disk, dest_block, &sectors);
}

/// Zeroes one sector of `disk`.
pub fn clear_sector(ata: &mut Ata, disk: &Disk, sector: BlockIndex)
    ensures
        final(ata)@ == with_block(old(ata)@, disk@.bus, disk@.drive, sector as int, zero_block()),
{
    set_sector(ata, disk, sector, &Sector::new(sector));
}

/// Whether the sector holds only zeros, which is what marks a sector as unused.
pub fn is_sector_empty(ata: &Ata, disk: &Disk, sector_num: BlockIndex) -> (r: bool)
    ensures
        r == (block_of(image(ata@, disk@), sector_num as int) == zero_block()),
{
    let value = get_sector(ata, disk, sector_num);
    value == Sector::new(sector_num)
}

/// Whether every sector of the range is unused.
pub fn is_range_empty(ata: &Ata, disk: &Disk, sectors: Range<BlockIndex>) -> (r: bool)
    ensures
        r == range_empty(image(ata@, disk@), sectors.start as int, sectors.end as int),
{
    let mut i = sectors.start;
    while i < sectors.end
        invariant
            sectors.start <= i,
            range_empty(image(ata@, disk@), sectors.start as int, i as int),
        decreases sectors.end - i,
    {
        if !is_sector_empty(ata, disk, i) {
            assert(block_of(image(ata@, disk@), i as int) != zero_block());
            return false;
        }
        i += 1;
    }
    true
}

/// The number of sectors of the drive at (bus, drive); 0 when no drive is there.
pub fn get_disk_sector_count(ata: &Ata, bus: u8, drive: u8) -> (n: usize)
    ensures
        n == image_of(ata@, bus, drive).len(),
{
    proof {
        ata.lemma_well_formed();
    }
    match get_disk(ata, bus, drive) {
        Some(disk) => (disk.size / 512) as usize,
        None => 0,
    }
}

/// Wipes `disk`: every sector the drive was identified with is overwritten with zeros.
pub fn zero_format_disk(ata: &mut Ata, disk: &Disk)
    ensures
        final(ata)@ == zeroed_prefix(old(ata)@, disk@.bus, disk@.drive, disk@.size as int / 512),
{
    let sector_count = disk.size / 512;
    let mut sector: u64 = 0;
    proof {
        ata.lemma_well_formed();
        if ata@.contains_key((disk@.bus, disk@.drive)) {
            assert(ata@[(disk@.bus, disk@.drive)].blocks =~= zeroed_prefix(ata@, disk@.bus, disk@.drive, 0)[(
                disk@.bus,
                disk@.drive,
            )].blocks);
        }
        assert(ata@ =~= zeroed_prefix(old(ata)@, disk@.bus, disk@.drive, 0));
    }
    while sector < sector_count && sector <= 0xFFFF_FFFF
        invariant
            sector <= sector_count,
            sector <= 0x1_0000_0000,
            sector_count == disk@.size as int / 512,
            well_formed_image(old(ata)@, disk@.bus, disk@.drive),
            ata@ == zeroed_prefix(old(ata)@, disk@.bus, disk@.drive, sector as int),
        decreases sector_count - sector,
    {
        let ghost before = ata@;
        set_sector(ata, disk, sector as u32, &Sector::new(sector as u32));
        sector += 1;
        assert(ata@ =~= zeroed_prefix(old(ata)@, disk@.bus, disk@.drive, sector as int)) by {
            if old(ata)@.contains_key((disk@.bus, disk@.drive)) {
                assert(ata@[(disk@.bus, disk@.drive)].blocks =~= zeroed_prefix(
                    old(ata)@,
                    disk@.bus,
                    disk@.drive,
                    sector as int,
                )[(disk@.bus, disk@.drive)].blocks);
            }
        }
    }
    assert(ata@ =~= zeroed_prefix(old(ata)@, disk@.bus, disk@.drive, sector_count as int)) by {
        if old(ata)@.contains_key((disk@.bus, disk@.drive)) {
            assert(ata@[(disk@.bus, disk@.drive)].blocks =~= zeroed_prefix(
                old(ata)@,
                disk@.bus,
                disk@.drive,
                sector_count as int,
            )[(disk@.bus, disk@.drive)].blocks);
        }
    }
}

/// Finds where a new node can be placed on `disk`: the lowest block, other than block 0, from
/// which 33 consecutive sectors exist and are unused. `None` when the drive has no such run.
pub fn allocate_node_region(ata: &Ata, disk: &Disk) -> (r: Option<BlockIndex>)
    ensures
        r is Some <==> region_from(image(ata@, disk@), 1) < image(ata@, disk@).len(),
        r matches Some(start) ==> start == region_from(image(ata@, disk@), 1),
{
    proof {
        ata.lemma_well_formed();
    }
    let count = get_disk_sector_count(ata, disk.bus, disk.drive);
    if count < 34 {
        return None;
    }
    let last = (count - 33) as u32;
    let mut start: u32 = 1;
    while start <= last
        invariant
            1 <= start <= last + 1,
            last == count - 33,
            count == image(ata@, disk@).len(),
            count <= u32::MAX,
            region_from(image(ata@, disk@), 1) == region_from(image(ata@, disk@), start as int),
        decreases last + 1 - start,
    {
        if is_range_empty(ata, disk, start..(start + 33)) {
            return Some(start);
        }
        start += 1;
    }
    None
}

/// Finds where `count` sectors can be stored on `disk` one after another: the lowest block,
/// other than block 0, from which `count` sectors exist and are unused. `None` when the
/// drive has no such run.
pub fn allocate_run(ata: &Ata, disk: &Disk, count: u64) -> (r: Option<BlockIndex>)
    ensures
        r is Some <==> run_from(image(ata@, disk@), 1, count as int) < image(ata@, disk@).len(),
        r matches Some(start) ==> start == run_from(image(ata@, disk@), 1, count as int),
{
    proof {
        ata.lemma_well_formed();
    }
    let sectors = get_disk_sector_count(ata, disk.bus, disk.drive);
    if sectors == 0 || count > sectors as u64 - 1 {
        return None;
    }
    let last = if count == 0 {
        (sectors - 1) as u32
    } else {
        (sectors as u64 - count) as u32
    };
    let size = count as u32;
    let mut start: u32 = 1;
    while start <= last
        invariant
            1 <= start <= last + 1,
            last == if count == 0 {
                sectors - 1
            } else {
                sectors - count
            },
            size == count,
            sectors == image(ata@, disk@).len(),
            sectors <= u32::MAX,
            run_from(image(ata@, disk@), 1, count as int) == run_from(
                image(ata@, disk@),
                start as int,
                count as int,
            ),
        decreases last + 1 - start,
    {
        if is_range_empty(ata, disk, start..(start + size)) {
            return Some(start);
        }
        start += 1;
    }
    None
}

/// 512 bytes as they are stored in one block of a drive.
#[derive(Debug, Clone, Copy)]
pub struct Block([u8; 512]);

impl View for Block {
    type V = Seq<u8>;

    closed spec fn view(&self) -> Seq<u8> {
        self.0@
    }
}

impl PartialEq for Block {
    /// Two blocks are equal when they hold the same 512 bytes.
    fn eq(&self, other: &Block) -> (r: bool) {
        let mut i: usize = 0;
        while i < 512
            invariant
                i <= 512,
                forall|j: int| 0 <= j < i ==> self@[j] == other@[j],
            decreases 512 - i,
        {
            if self.0[i] != other.0[i] {
                return false;
            }
            i += 1;
        }
        assert(self@ =~= other@);
        true
    }
}

impl vstd::std_specs::cmp::PartialEqSpecImpl for Block {
    open spec fn obeys_eq_spec() -> bool {
        true
    }

    open spec fn eq_spec(&self, other: &Block) -> bool {
        self@ == other@
    }
}

impl Eq for Block {

}

impl Default for Block {
    /// A block of zeros.
    fn default() -> (b: Block)
        ensures
            b@ == zero_block(),
    {
        let b = Block([0u8; 512]);
        assert(b@ =~= zero_block());
        b
    }
}

impl Block {
    /// Every block holds 512 bytes.
    pub broadcast proof fn lemma_len(self)
        ensures
            #[trigger] self@.len() == 512,
    {
    }

    /// The block that holds `data`.
    pub fn from_bytes(data: [u8; 512]) -> (b: Block)
        ensures
            b@ == data@,
    {
        Block(data)
    }

    /// A copy of the 512 bytes.
    pub fn bytes(&self) -> (r: [u8; 512])
        ensures
            r@ == self@,
    {
        self.0
    }

    /// The byte at `index`.
    pub fn get(&self, index: usize) -> (r: u8)
        requires
            index < BLOCK_SIZE,
        ensures
            r == self@[index as int],
    {
        self.0[index]
    }

    /// Stores `value` at `index`.
    pub fn set(&mut self, index: usize, value: u8)
        requires
            index < BLOCK_SIZE,
        ensures
            final(self)@ == old(self)@.update(index as int, value),
    {
        self.0[index] = value;
    }

    /// Reads block `index` of the drive at (bus, drive).
    pub fn load(ata: &Ata, bus: u8, drive: u8, index: BlockIndex) -> (b: Block)
        requires
            ata@.contains_key((bus, drive)),
        ensures
            b@ == block_of(image_of(ata@, bus, drive), index as int),
    {
        let disk = get_disk(ata, bus, drive).unwrap();
        let data = get_sector(ata, &disk, index).data();
        Block(data)
    }

    /// Writes this block to block `index` of the drive at (bus, drive).
    pub fn save(&self, ata: &mut Ata, bus: u8, drive: u8, index: BlockIndex)
        requires
            old(ata)@.contains_key((bus, drive)),
        ensures
            final(ata)@ == with_block(old(ata)@, bus, drive, index as int, self@),
    {
        let mut sector = Sector::new(index);
        let mut i: usize = 0;
        while i < BLOCK_SIZE
            invariant
                i <= BLOCK_SIZE,
                sector@.index == index,
                sector@.data.len() == 512,
                forall|j: int| 0 <= j < i ==> sector@.data[j] == self@[j],
            decreases BLOCK_SIZE - i,
        {
            sector.write(i, self.0[i]);
            i += 1;
        }
        assert(sector@.data =~= self@);
        let disk = get_disk(ata, bus, drive).unwrap();
        set_sector(ata, &disk, index, &sector)
    }

    /// Overwrites the front of the block with `data` and keeps the rest.
    pub fn set_data(&mut self, data: &[u8])
        requires
            data@.len() <= BLOCK_SIZE,
        ensures
            final(self)@ == data@ + old(self)@.subrange(data@.len() as int, 512),
    {
        let mut i: usize = 0;
        while i < data.len()
            invariant
                i <= data@.len() <= 512,
                self@.len() == 512,
                forall|j: int| 0 <= j < i ==> self@[j] == data@[j],
                forall|j: int| i <= j < 512 ==> self@[j] == old(self)@[j],
            decreases data@.len() - i,
        {
            self.0[i] = data[i];
            i += 1;
        }
        assert(self@ =~= data@ + old(self)@.subrange(data@.len() as int, 512));
    }

    /// Reads block `index` of the drive that holds the file system, drive 1 on bus 0.
    pub fn from_disk_b(ata: &Ata, index: BlockIndex) -> (b: Block)
        requires
            ata@.contains_key((0u8, 1u8)),
        ensures
            b@ == block_of(image_of(ata@, 0, 1), index as int),
    {
        Block::load(ata, 0, 1, index)
    }
}

/// The drive at (bus, drive), if any, has no more sectors than a block address can name.
pub open spec fn well_formed_image(ata: AtaView, bus: u8, drive: u8) -> bool {
    image_of(ata, bus, drive).len() <= u32::MAX
}

} // verus!
