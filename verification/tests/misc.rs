use tinix::math::{maxi, maxu, mini, minu, Point2i};
use tinix::ram_fs::{to_sector_offset, translate_index, Disk, Read, Sector, Write};
use tinix::time::Counter;

#[test]
fn min_and_max() {
    assert_eq!(mini(-3, 2), -3);
    assert_eq!(mini(2, -3), -3);
    assert_eq!(maxi(-3, 2), 2);
    assert_eq!(maxi(5, 5), 5);
    assert_eq!(minu(3, 2), 2);
    assert_eq!(maxu(3, 2), 3);
    assert_eq!(maxu(0, usize::MAX), usize::MAX);
}

#[test]
fn point_keeps_its_coordinates() {
    let p = Point2i::new(-4, 9);
    assert_eq!(p.tuple_xy(), (-4, 9));
    assert!(p == Point2i::new(-4, 9));
}

#[test]
fn counter_counts_ticks() {
    let mut c = Counter::new();
    assert_eq!(c.ticks(), 0);
    c.inc();
    c.inc();
    assert_eq!(c.ticks(), 2);
}

#[test]
fn byte_address_to_sector_and_offset() {
    assert_eq!(to_sector_offset(0), (0, 0));
    assert_eq!(to_sector_offset(511), (0, 511));
    assert_eq!(to_sector_offset(512), (1, 0));
    assert_eq!(to_sector_offset(1_000_000), (1953, 64));
    assert_eq!(translate_index(1025), (2, 1));
}

#[test]
fn ram_sector_read_and_write() {
    let mut s = Sector::empty();
    assert_eq!(s.read(0), 0);
    s.write(200, 9);
    assert_eq!(s.read(200), 9);
    assert_eq!(s.read(201), 0);
}

#[test]
fn ram_disk_holds_one_megabyte() {
    let mut disk = Disk::new();
    assert_eq!(disk.sector_count(), 2048);
    assert_eq!(disk.read(2047, 511), 0);
    disk.write(2047, 511, 0xEE);
    assert_eq!(disk.read(2047, 511), 0xEE);
    assert_eq!(disk.sector_containing_addr(2047 * 512).read(511), 0xEE);
}

#[test]
fn ram_disk_slices() {
    let mut disk = Disk::new();
    disk.write_slice(510, &[1, 2, 3, 4]);
    assert_eq!(disk.read(0, 510), 1);
    assert_eq!(disk.read(0, 511), 2);
    assert_eq!(disk.read(1, 0), 3);
    assert_eq!(disk.read(1, 1), 4);
    let mut buffer = [0xFFu8; 6];
    disk.read_slice(&mut buffer, 509);
    assert_eq!(buffer, [0, 1, 2, 3, 4, 0]);
    let mut sector = [0u8; 512];
    sector[0] = 7;
    sector[511] = 8;
    disk.write_sector(5, sector);
    assert_eq!(disk.read(5, 0), 7);
    assert_eq!(disk.read(5, 511), 8);
    assert_eq!(disk.read(4, 511), 0);
    assert_eq!(disk.read(6, 0), 0);
}
