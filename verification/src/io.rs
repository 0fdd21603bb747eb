//! What a device or a file offers: items can be read from it one by one, written to it one
//! by one, or both, and a file can be opened, filled, emptied and stored.

use vstd::prelude::*;
use crate::ata::Ata;
use crate::sector::BlockIndex;
use crate::sector_list::SectorList;

verus! {

/// Something that hands out items one by one, until it has none left.
pub trait IoReader<T> {
    fn read(&mut self) -> Option<T>;
}

/// Something that takes items one by one.
pub trait IoWriter<T> {
    fn write(&mut self, item: T);
}

/// A file of items that is held in memory and stored on a drive as a run of sectors.
pub trait File<T>: IoReader<T> + IoWriter<T> + Sized {
    /// Whether the file is one that can be laid out in sectors.
    spec fn storable(&self) -> bool;

    /// An empty file called `name`.
    fn open(name: &str) -> Self;

    /// Stores the file on drive 1 of bus 1, in the blocks from `start_block` on.
    fn close(&mut self, ata: &mut Ata, start_block: BlockIndex)
        requires
            old(self).storable(),
    ;

    /// Takes every item out of the file and hands them out in the order in which they were
    /// written.
    fn read_all(&mut self) -> Vec<T>;

    /// Writes the items of `data` to the file, in order.
    fn write_all(&mut self, data: Vec<T>);

    /// The sectors that the file is stored as.
    fn get_sectors(&self) -> SectorList
        requires
            self.storable(),
    ;
}

} // verus!
