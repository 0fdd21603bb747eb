//! Putting the system on a drive: the drive is wiped, then the boot sectors are copied.

use vstd::prelude::*;
use crate::ata::{Ata, AtaView, block_of, with_block};
use crate::file::{FS_BUS, FS_DRIVE};
use crate::file_systems::{get_disk, get_sector, image, set_sector, zero_format_disk, zeroed_prefix, Disk, DiskView};

verus! {

/// What a program ends with: 0 when all went well.
pub type ProgramStatusCode = u16;

/// Sectors that the boot image takes: eight megabytes.
pub const BOOT_SECTORS: u32 = 16384;

/// The drives after the first `count` sectors of `from` have been copied, one after another,
/// to the same blocks of the boot drive, drive 1 on bus 0.
pub open spec fn boot_copied(ata: AtaView, from: DiskView, count: nat) -> AtaView
    decreases count,
{
    if count == 0 {
        ata
    } else {
        let before = boot_copied(ata, from, (count - 1) as nat);
        with_block(before, FS_BUS, FS_DRIVE, count - 1, block_of(image(before, from), count - 1))
    }
}

/// Copies the boot image, sector by sector, from `dest_disk` to the boot drive. Returns
/// whether the boot drive was found; nothing is copied when it was not.
pub fn copy_boot_sectors(ata: &mut Ata, dest_disk: &Disk) -> (found: bool)
    ensures
        found == old(ata)@.contains_key((FS_BUS, FS_DRIVE)),
        final(ata)@ == if found {
            boot_copied(old(ata)@, dest_disk@, BOOT_SECTORS as nat)
        } else {
            old(ata)@
        },
{
    let new_bootdisk = match get_disk(ata, FS_BUS, FS_DRIVE) {
        Some(disk) => disk,
        None => {
            return false;
        },
    };
    let mut block: u32 = 0;
    while block < BOOT_SECTORS
        invariant
            block <= BOOT_SECTORS,
            new_bootdisk@.bus == FS_BUS,
            new_bootdisk@.drive == FS_DRIVE,
            ata@ == boot_copied(old(ata)@, dest_disk@, block as nat),
        decreases BOOT_SECTORS - block,
    {
        let sector = get_sector(ata, dest_disk, block);
        set_sector(ata, &new_bootdisk, block, &sector);
        block += 1;
    }
    true
}

/// Puts the system on `dest`: wipes the drive, then copies the boot image.
pub fn install_to(ata: &mut Ata, dest: &Disk) -> (found: bool)
    ensures
        ({
            let wiped = zeroed_prefix(old(ata)@, dest@.bus, dest@.drive, dest@.size as int / 512);
            &&& found == old(ata)@.contains_key((FS_BUS, FS_DRIVE))
            &&& final(ata)@ == if found {
                boot_copied(wiped, dest@, BOOT_SECTORS as nat)
            } else {
                wiped
            }
        }),
{
    zero_format_disk(ata, dest);
    copy_boot_sectors(ata, dest)
}

} // verus!
