//! The block devices the kernel can reach: up to two buses with two drives each, every drive
//! a run of 512-byte sectors. All file-system code reads and writes sectors through [`Ata`].

use vstd::prelude::*;
use crate::sector::{BlockIndex, Sector, SectorView, zero_block};
use crate::sector_list::SectorList;

verus! {

/// The mathematical value of one attached drive.
pub struct DriveView {
    /// The model name the drive reports.
    pub model: Seq<char>,
    /// What each sector holds, by block address.
    pub blocks: Seq<Seq<u8>>,
}

/// The drives that are attached, by (bus, drive).
pub type AtaView = Map<(u8, u8), DriveView>;

/// What block `i` of an image holds. Blocks past the end read as zeros.
pub open spec fn block_of(blocks: Seq<Seq<u8>>, i: int) -> Seq<u8> {
    if 0 <= i < blocks.len() {
        blocks[i]
    } else {
        zero_block()
    }
}

/// The sectors of the drive at (bus, drive); none if no drive is attached there.
pub open spec fn image_of(ata: AtaView, bus: u8, drive: u8) -> Seq<Seq<u8>> {
    if ata.contains_key((bus, drive)) {
        ata[(bus, drive)].blocks
    } else {
        Seq::empty()
    }
}

/// The drives after block `block` of (bus, drive) has been overwritten with `data`.
/// Nothing changes when no such drive or no such block exists.
pub open spec fn with_block(ata: AtaView, bus: u8, drive: u8, block: int, data: Seq<u8>) -> AtaView {
    if ata.contains_key((bus, drive)) && 0 <= block < ata[(bus, drive)].blocks.len() {
        ata.insert(
            (bus, drive),
            DriveView {
                model: ata[(bus, drive)].model,
                blocks: ata[(bus, drive)].blocks.update(block, data),
            },
        )
    } else {
        ata
    }
}

/// Every sector of every attached drive holds 512 bytes, and no drive has more sectors than a
/// block address can name.
pub open spec fn well_formed(ata: AtaView) -> bool {
    forall|k: (u8, u8)| #[trigger]
        ata.contains_key(k) ==> {
            &&& k.0 < 2
            &&& k.1 < 2
            &&& ata[k].blocks.len() <= u32::MAX
            &&& forall|i: int| 0 <= i < ata[k].blocks.len() ==> (#[trigger] ata[k].blocks[i]).len() == 512
        }
}

/// The drives after `data[i]` has been written to block `start + i` of (bus, drive), for each
/// `i` in turn.
pub open spec fn with_run(ata: AtaView, bus: u8, drive: u8, start: int, data: Seq<Seq<u8>>) -> AtaView
    decreases data.len(),
{
    if data.len() == 0 {
        ata
    } else {
        with_block(
            with_run(ata, bus, drive, start, data.drop_last()),
            bus,
            drive,
            start + data.len() - 1,
            data.last(),
        )
    }
}

/// What sector `i` of a list holds after the blocks from `start` on have been read into the
/// list: the block `start + i`, if the drive has it, and else what the sector held.
pub open spec fn read_over(blocks: Seq<Seq<u8>>, start: int, i: int, was: SectorView) -> SectorView {
    SectorView {
        index: was.index,
        data: if 0 <= start + i < blocks.len() {
            blocks[start + i]
        } else {
            was.data
        },
    }
}

struct Drive {
    model: String,
    blocks: Vec<[u8; 512]>,
}

impl Drive {
    spec fn count(&self) -> nat {
        if self.blocks.len() > u32::MAX {
            u32::MAX as nat
        } else {
            self.blocks.len() as nat
        }
    }

    spec fn value(&self) -> DriveView {
        DriveView { model: self.model@, blocks: Seq::new(self.count(), |i: int| self.blocks@[i]@) }
    }

    fn sectors(&self) -> (n: u32)
        ensures
            n == self.value().blocks.len(),
    {
        if self.blocks.len() > u32::MAX as usize {
            u32::MAX
        } else {
            self.blocks.len() as u32
        }
    }

    fn zeroed(model: String, sectors: u32) -> (d: Drive)
        ensures
            d.value() == (DriveView {
                model: model@,
                blocks: Seq::new(sectors as nat, |i: int| zero_block()),
            }),
    {
        let mut blocks: Vec<[u8; 512]> = Vec::new();
        let mut i: u32 = 0;
        while i < sectors
            invariant
                i <= sectors,
                blocks.len() == i,
                forall|j: int| 0 <= j < i ==> blocks@[j]@ == zero_block(),
            decreases sectors - i,
        {
            let z = [0u8; 512];
            assert(z@ =~= zero_block());
            blocks.push(z);
            i += 1;
        }
        let d = Drive { model, blocks };
        assert(d.value().blocks =~= Seq::new(sectors as nat, |i: int| zero_block()));
        d
    }
}

/// The attached drives and everything stored on them.
pub struct Ata {
    primary_master: Option<Drive>,
    primary_slave: Option<Drive>,
    secondary_master: Option<Drive>,
    secondary_slave: Option<Drive>,
    written: Vec<(u8, u8, BlockIndex)>,
}

impl View for Ata {
    type V = AtaView;

    closed spec fn view(&self) -> AtaView {
        Map::new(
            |k: (u8, u8)| self.slot(k.0, k.1) is Some,
            |k: (u8, u8)| self.slot(k.0, k.1)->0.value(),
        )
    }
}

impl Ata {
    /// The blocks that were written since the record of them was last taken: bus, drive and
    /// address of each, in the order of the writes. The record lets the owner of the
    /// hardware pass on every write as a transfer of that one sector.
    pub closed spec fn pending(&self) -> Seq<(u8, u8, BlockIndex)> {
        self.written@
    }

    spec fn slot(&self, bus: u8, drive: u8) -> Option<Drive> {
        if bus == 0 && drive == 0 {
            self.primary_master
        } else if bus == 0 && drive == 1 {
            self.primary_slave
        } else if bus == 1 && drive == 0 {
            self.secondary_master
        } else if bus == 1 && drive == 1 {
            self.secondary_slave
        } else {
            None
        }
    }

    fn slot_ref(&self, bus: u8, drive: u8) -> (r: &Option<Drive>)
        ensures
            *r == self.slot(bus, drive),
    {
        if bus == 0 && drive == 0 {
            &self.primary_master
        } else if bus == 0 && drive == 1 {
            &self.primary_slave
        } else if bus == 1 && drive == 0 {
            &self.secondary_master
        } else if bus == 1 && drive == 1 {
            &self.secondary_slave
        } else {
            &None
        }
    }

    /// Whatever drives are attached, they are well formed.
    pub broadcast proof fn lemma_well_formed(self)
        ensures
            #[trigger] well_formed(self@),
    {
        assert forall|k: (u8, u8)| #[trigger] self@.contains_key(k) implies {
            &&& k.0 < 2
            &&& k.1 < 2
            &&& self@[k].blocks.len() <= u32::MAX
            &&& forall|i: int|
                0 <= i < self@[k].blocks.len() ==> (#[trigger] self@[k].blocks[i]).len() == 512
        } by {
            let d = self.slot(k.0, k.1)->0;
            assert(self@[k] == d.value());
        }
    }

    /// A machine with no drive attached.
    pub fn new() -> (ata: Ata)
        ensures
            ata@ == Map::<(u8, u8), DriveView>::empty(),
            ata.pending() == Seq::<(u8, u8, BlockIndex)>::empty(),
    {
        let ata = Ata {
            primary_master: None,
            primary_slave: None,
            secondary_master: None,
            secondary_slave: None,
            written: Vec::new(),
        };
        assert(ata@ =~= Map::<(u8, u8), DriveView>::empty());
        ata
    }

    /// Attaches a zero-filled drive of `sectors` sectors at (bus, drive). Returns whether it
    /// was attached: the place must exist (bus and drive below 2) and be free.
    pub fn attach(&mut self, bus: u8, drive: u8, model: String, sectors: u32) -> (ok: bool)
        ensures
            ok == (bus < 2 && drive < 2 && !old(self)@.contains_key((bus, drive))),
            ok ==> final(self)@ == old(self)@.insert(
                (bus, drive),
                DriveView { model: model@, blocks: Seq::new(sectors as nat, |i: int| zero_block()) },
            ),
            !ok ==> final(self)@ == old(self)@,
            final(self).pending() == old(self).pending(),
    {
        if bus >= 2 || drive >= 2 || self.slot_ref(bus, drive).is_some() {
            return false;
        }
        let d = Drive::zeroed(model, sectors);
        let ghost dv = d.value();
        if bus == 0 && drive == 0 {
            self.primary_master = Some(d);
        } else if bus == 0 && drive == 1 {
            self.primary_slave = Some(d);
        } else if bus == 1 && drive == 0 {
            self.secondary_master = Some(d);
        } else {
            self.secondary_slave = Some(d);
        }
        assert(self@ =~= old(self)@.insert((bus, drive), dv));
        true
    }

    /// Whether a drive is attached at (bus, drive).
    pub fn drive_is_present(&self, bus: u8, drive: u8) -> (r: bool)
        ensures
            r == self@.contains_key((bus, drive)),
    {
        self.slot_ref(bus, drive).is_some()
    }

    /// Asks the drive at (bus, drive) who it is: where it sits, its model name and how many
    /// sectors it has. `None` when no drive answers.
    pub fn identify_drive(&self, bus: u8, drive: u8) -> (r: Option<(u8, u8, String, u32)>)
        ensures
            r is Some <==> self@.contains_key((bus, drive)),
            r matches Some(id) ==> {
                &&& id.0 == bus
                &&& id.1 == drive
                &&& id.2@ == self@[(bus, drive)].model
                &&& id.3 == self@[(bus, drive)].blocks.len()
            },
    {
        match self.slot_ref(bus, drive) {
            Some(d) => Some((bus, drive, d.model.clone(), d.sectors())),
            None => None,
        }
    }

    /// Reads block `block` of (bus, drive) into `sector`. When there is no such drive or no
    /// such block the transfer does not happen and `sector` keeps what it held. The sector's
    /// own address is never touched.
    pub fn read(&self, bus: u8, drive: u8, block: BlockIndex, sector: &mut Sector)
        ensures
            final(sector)@.index == old(sector)@.index,
            final(sector)@.data == if block < image_of(self@, bus, drive).len() {
                image_of(self@, bus, drive)[block as int]
            } else {
                old(sector)@.data
            },
    {
        match self.slot_ref(bus, drive) {
            Some(d) => {
                if block < d.sectors() {
                    *sector.data_mut() = d.blocks[block as usize];
                }
            },
            None => {},
        }
    }

    /// Writes the 512 bytes of `sector` to block `block` of (bus, drive), and records the
    /// write. When there is no such drive or no such block nothing is written or recorded.
    pub fn write(&mut self, bus: u8, drive: u8, block: BlockIndex, sector: &Sector)
        ensures
            final(self)@ == with_block(old(self)@, bus, drive, block as int, sector@.data),
            final(self).pending() == if block < image_of(old(self)@, bus, drive).len() {
                old(self).pending().push((bus, drive, block))
            } else {
                old(self).pending()
            },
    {
        let data = sector.data();
        let exists = match self.slot_ref(bus, drive) {
            Some(d) => block < d.sectors(),
            None => false,
        };
        if exists {
            self.written.push((bus, drive, block));
        }
        if bus == 0 && drive == 0 {
            Self::put(&mut self.primary_master, block, data);
        } else if bus == 0 && drive == 1 {
            Self::put(&mut self.primary_slave, block, data);
        } else if bus == 1 && drive == 0 {
            Self::put(&mut self.secondary_master, block, data);
        } else if bus == 1 && drive == 1 {
            Self::put(&mut self.secondary_slave, block, data);
        }
        assert(self@ =~= with_block(old(self)@, bus, drive, block as int, sector@.data));
    }

    /// Hands over the record of the blocks that were written, oldest write first, and starts
    /// a new one. No drive changes.
    pub fn take_written(&mut self) -> (record: Vec<(u8, u8, BlockIndex)>)
        ensures
            record@ == old(self).pending(),
            final(self).pending() == Seq::<(u8, u8, BlockIndex)>::empty(),
            final(self)@ == old(self)@,
    {
        let mut record: Vec<(u8, u8, BlockIndex)> = Vec::new();
        core::mem::swap(&mut self.written, &mut record);
        record
    }

    fn put(slot: &mut Option<Drive>, block: BlockIndex, data: [u8; 512])
        ensures
            *old(slot) is None ==> *final(slot) == *old(slot),
            *old(slot) is Some ==> *final(slot) is Some,
            *old(slot) matches Some(d) ==> (*final(slot))->0.value() == (if block < d.value().blocks.len() {
                DriveView { model: d.value().model, blocks: d.value().blocks.update(block as int, data@) }
            } else {
                d.value()
            }),
    {
        match slot {
            Some(d) => {
                if block < d.sectors() {
                    let ghost before = d.value();
                    d.blocks[block as usize] = data;
                    assert(d.value().blocks =~= before.blocks.update(block as int, data@));
                }
            },
            None => {},
        }
    }

    /// Reads the blocks from `start` on into the sectors of `sectors`, one block for each
    /// sector. A sector for which the drive has no block keeps what it held.
    pub fn read_sectors(&self, bus: u8, drive: u8, start: BlockIndex, sectors: &mut SectorList)
        requires
            start + old(sectors)@.len() <= 0x1_0000_0000,
        ensures
            final(sectors)@.len() == old(sectors)@.len(),
            forall|i: int|
                0 <= i < old(sectors)@.len() ==> #[trigger] final(sectors)@[i] == read_over(
                    image_of(self@, bus, drive),
                    start as int,
                    i,
                    old(sectors)@[i],
                ),
    {
        let n = sectors.len();
        let mut i: usize = 0;
        while i < n
            invariant
                i <= n,
                n == sectors@.len(),
                n == old(sectors)@.len(),
                start + n <= 0x1_0000_0000,
                forall|j: int|
                    0 <= j < i ==> #[trigger] sectors@[j] == read_over(
                        image_of(self@, bus, drive),
                        start as int,
                        j,
                        old(sectors)@[j],
                    ),
                forall|j: int| i <= j < n ==> sectors@[j] == old(sectors)@[j],
            decreases n - i,
        {
            let mut sector = *sectors.get_sector(i).unwrap();
            self.read(bus, drive, start + i as u32, &mut sector);
            let _ = sectors.set_sector(i, sector);
            i += 1;
        }
    }

    /// Writes the sectors of `sectors` to the blocks from `start` on, one block for each
    /// sector.
    pub fn write_sectors(&mut self, bus: u8, drive: u8, start: BlockIndex, sectors: &SectorList)
        requires
            start + sectors@.len() <= 0x1_0000_0000,
        ensures
            final(self)@ == with_run(old(self)@, bus, drive, start as int, sectors@.map_values(|s: SectorView| s.data)),
    {
        let n = sectors.len();
        let mut i: usize = 0;
        let ghost data = sectors@.map_values(|s: SectorView| s.data);
        while i < n
            invariant
                i <= n,
                n == sectors@.len(),
                start + n <= 0x1_0000_0000,
                data == sectors@.map_values(|s: SectorView| s.data),
                self@ == with_run(old(self)@, bus, drive, start as int, data.take(i as int)),
            decreases n - i,
        {
            assert(data.take(i as int + 1).drop_last() =~= data.take(i as int));
            self.write(bus, drive, start + i as u32, sectors.get_sector(i).unwrap());
            i += 1;
        }
        assert(data.take(i as int) =~= data);
    }
}

} // verus!
