use tinix::ata::Ata;
use tinix::file_systems::{
    allocate_node_region, clear_sector, copy_sectors, get_disk, get_disk_sector_count, get_sector, get_sectors,
    is_range_empty, is_sector_empty, set_sector, set_sectors, zero_format_disk, Block,
};
use tinix::sector::Sector;
use tinix::sector_list::SectorList;

fn machine(sectors: u32) -> Ata {
    let mut ata = Ata::new();
    assert!(ata.attach(0, 1, "TEST DISK".to_string(), sectors));
    ata
}

fn marked(index: u32, mark: u8) -> Sector {
    let mut s = Sector::new(index);
    s.write(0, mark);
    s.write(511, mark);
    s
}

#[test]
fn attach_takes_a_free_place_once() {
    let mut ata = Ata::new();
    assert!(!ata.drive_is_present(0, 1));
    assert!(ata.attach(0, 1, "A".to_string(), 8));
    assert!(ata.drive_is_present(0, 1));
    assert!(!ata.attach(0, 1, "B".to_string(), 8));
    assert!(!ata.attach(2, 0, "C".to_string(), 8));
    assert!(!ata.attach(0, 2, "C".to_string(), 8));
    assert!(ata.attach(1, 1, "D".to_string(), 4));
    assert_eq!(ata.identify_drive(0, 1), Some((0, 1, "A".to_string(), 8)));
    assert_eq!(ata.identify_drive(1, 1), Some((1, 1, "D".to_string(), 4)));
    assert_eq!(ata.identify_drive(0, 0), None);
}

#[test]
fn get_disk_reports_size_in_bytes() {
    let ata = machine(2048);
    let disk = get_disk(&ata, 0, 1).unwrap();
    assert_eq!(disk.bus(), 0);
    assert_eq!(disk.drive(), 1);
    assert_eq!(disk.size(), 2048 * 512);
    assert_eq!(disk.name(), "TEST DISK");
    assert!(get_disk(&ata, 1, 0).is_none());
    assert_eq!(get_disk_sector_count(&ata, 0, 1), 2048);
    assert_eq!(get_disk_sector_count(&ata, 1, 0), 0);
}

#[test]
fn set_sector_then_get_sector() {
    let mut ata = machine(16);
    let disk = get_disk(&ata, 0, 1).unwrap();
    set_sector(&mut ata, &disk, 5, &marked(99, 0xAA));
    let back = get_sector(&ata, &disk, 5);
    // the sector read carries the block it was read from
    assert_eq!(back.index(), 5);
    assert_eq!(back.data(), marked(99, 0xAA).data());
    assert!(get_sector(&ata, &disk, 4) == Sector::new(4));
}

#[test]
fn blocks_past_the_end_read_as_zeros_and_take_no_writes() {
    let mut ata = machine(4);
    let disk = get_disk(&ata, 0, 1).unwrap();
    set_sector(&mut ata, &disk, 4, &marked(4, 1));
    assert!(get_sector(&ata, &disk, 4) == Sector::new(4));
    assert!(get_sector(&ata, &disk, u32::MAX) == Sector::new(u32::MAX));
    for block in 0..4 {
        assert!(is_sector_empty(&ata, &disk, block));
    }
}

#[test]
fn ata_read_leaves_the_buffer_when_nothing_is_transferred() {
    let ata = machine(4);
    let mut sector = marked(7, 3);
    ata.read(0, 0, 1, &mut sector);
    assert!(sector == marked(7, 3));
    ata.read(0, 1, 9, &mut sector);
    assert!(sector == marked(7, 3));
    ata.read(0, 1, 1, &mut sector);
    assert!(sector == Sector::new(7));
}

#[test]
fn get_sectors_reads_a_range() {
    let mut ata = machine(16);
    let disk = get_disk(&ata, 0, 1).unwrap();
    for block in 0..16 {
        set_sector(&mut ata, &disk, block, &marked(block, block as u8 + 1));
    }
    let list = get_sectors(&ata, &disk, 3..6);
    assert_eq!(list.len(), 3);
    for i in 0..3usize {
        assert!(*list.get_sector(i).unwrap() == marked(3 + i as u32, 4 + i as u8));
    }
    assert_eq!(get_sectors(&ata, &disk, 6..6).len(), 0);
    assert_eq!(get_sectors(&ata, &disk, 6..3).len(), 0);
}

#[test]
fn set_sectors_writes_consecutive_blocks() {
    let mut ata = machine(16);
    let disk = get_disk(&ata, 0, 1).unwrap();
    let mut list = SectorList::new();
    list.add_sector(&marked(0, 1));
    list.add_sector(&marked(0, 2));
    list.add_sector(&marked(0, 3));
    set_sectors(&mut ata, &disk, 10, &list);
    for i in 0..3u32 {
        assert_eq!(get_sector(&ata, &disk, 10 + i).data(), marked(0, i as u8 + 1).data());
    }
    assert!(is_sector_empty(&ata, &disk, 9));
    assert!(is_sector_empty(&ata, &disk, 13));
}

#[test]
fn copy_sectors_copies_one_more_than_the_amount() {
    let mut ata = machine(32);
    assert!(ata.attach(1, 0, "OTHER".to_string(), 32));
    let src = get_disk(&ata, 0, 1).unwrap();
    let dest = get_disk(&ata, 1, 0).unwrap();
    for block in 0..8 {
        set_sector(&mut ata, &src, block, &marked(block, block as u8 + 1));
    }
    copy_sectors(&mut ata, &src, &dest, 2, 3, 20);
    for i in 0..4u32 {
        assert_eq!(get_sector(&ata, &dest, 20 + i).data(), marked(0, 3 + i as u8).data());
    }
    assert!(is_sector_empty(&ata, &dest, 19));
    assert!(is_sector_empty(&ata, &dest, 24));
}

#[test]
fn copy_sectors_reads_before_it_writes() {
    let mut ata = machine(32);
    let disk = get_disk(&ata, 0, 1).unwrap();
    for block in 0..4 {
        set_sector(&mut ata, &disk, block, &marked(block, block as u8 + 1));
    }
    // source and destination overlap
    copy_sectors(&mut ata, &disk, &disk, 0, 3, 1);
    for i in 0..4u32 {
        assert_eq!(get_sector(&ata, &disk, 1 + i).data(), marked(0, i as u8 + 1).data());
    }
}

#[test]
fn clear_sector_zeroes_one_sector() {
    let mut ata = machine(8);
    let disk = get_disk(&ata, 0, 1).unwrap();
    set_sector(&mut ata, &disk, 2, &marked(2, 9));
    set_sector(&mut ata, &disk, 3, &marked(3, 9));
    assert!(!is_sector_empty(&ata, &disk, 2));
    clear_sector(&mut ata, &disk, 2);
    assert!(is_sector_empty(&ata, &disk, 2));
    assert!(!is_sector_empty(&ata, &disk, 3));
}

#[test]
fn is_range_empty_looks_at_every_sector_of_the_range() {
    let mut ata = machine(64);
    let disk = get_disk(&ata, 0, 1).unwrap();
    set_sector(&mut ata, &disk, 40, &marked(40, 1));
    assert!(is_range_empty(&ata, &disk, 0..40));
    assert!(!is_range_empty(&ata, &disk, 0..41));
    assert!(!is_range_empty(&ata, &disk, 40..41));
    assert!(is_range_empty(&ata, &disk, 41..64));
    assert!(is_range_empty(&ata, &disk, 40..40));
    assert!(is_range_empty(&ata, &disk, 41..40));
}

#[test]
fn zero_format_disk_wipes_every_sector() {
    let mut ata = machine(2048);
    let disk = get_disk(&ata, 0, 1).unwrap();
    for block in [0u32, 1, 1000, 2047] {
        set_sector(&mut ata, &disk, block, &marked(block, 0xFF));
    }
    zero_format_disk(&mut ata, &disk);
    assert!(is_range_empty(&ata, &disk, 0..2048));
    assert_eq!(get_disk_sector_count(&ata, 0, 1), 2048);
}

#[test]
fn node_region_is_the_lowest_free_run_of_33() {
    let mut ata = machine(2048);
    let disk = get_disk(&ata, 0, 1).unwrap();
    // block 0 is never handed out
    assert_eq!(allocate_node_region(&ata, &disk), Some(1));
    set_sector(&mut ata, &disk, 20, &marked(20, 1));
    assert_eq!(allocate_node_region(&ata, &disk), Some(21));
    set_sector(&mut ata, &disk, 53, &marked(53, 1));
    assert_eq!(allocate_node_region(&ata, &disk), Some(54));
    clear_sector(&mut ata, &disk, 20);
    assert_eq!(allocate_node_region(&ata, &disk), Some(1));
}

#[test]
fn node_region_needs_33_sectors_that_exist() {
    let small = machine(33);
    let disk = get_disk(&small, 0, 1).unwrap();
    // 33 sectors, but block 0 does not count
    assert_eq!(allocate_node_region(&small, &disk), None);
    let mut enough = machine(34);
    let disk = get_disk(&enough, 0, 1).unwrap();
    assert_eq!(allocate_node_region(&enough, &disk), Some(1));
    set_sector(&mut enough, &disk, 33, &marked(33, 1));
    assert_eq!(allocate_node_region(&enough, &disk), None);
    let none = machine(0);
    let disk = get_disk(&none, 0, 1).unwrap();
    assert_eq!(allocate_node_region(&none, &disk), None);
}

#[test]
fn block_save_then_load() {
    let mut ata = machine(8);
    let mut block = Block::default();
    assert_eq!(block.bytes(), [0u8; 512]);
    block.set(0, 1);
    block.set(511, 2);
    block.save(&mut ata, 0, 1, 6);
    let back = Block::load(&ata, 0, 1, 6);
    assert!(back == block);
    assert_eq!(back.get(0), 1);
    assert_eq!(back.get(511), 2);
    assert!(Block::from_disk_b(&ata, 6) == block);
    assert!(Block::from_disk_b(&ata, 5) == Block::default());
}

#[test]
fn block_set_data_overwrites_the_front() {
    let mut block = Block::from_bytes([7u8; 512]);
    block.set_data(&[1, 2, 3]);
    assert_eq!(block.get(0), 1);
    assert_eq!(block.get(1), 2);
    assert_eq!(block.get(2), 3);
    assert_eq!(block.get(3), 7);
    assert_eq!(block.get(511), 7);
    block.set_data(&[]);
    assert_eq!(block.get(0), 1);
    block.set_data(&[9u8; 512]);
    assert_eq!(block.bytes(), [9u8; 512]);
}

#[test]
fn every_write_is_on_record_until_the_record_is_taken() {
    let mut ata = machine(16);
    assert!(ata.attach(1, 0, "OTHER".to_string(), 4));
    assert_eq!(ata.take_written(), Vec::<(u8, u8, u32)>::new());
    ata.write(0, 1, 5, &marked(0, 7));
    ata.write(1, 0, 3, &marked(0, 8));
    ata.write(0, 1, 5, &marked(0, 9));
    // no such block, no such drive: nothing is written, nothing recorded
    ata.write(0, 1, 16, &marked(0, 1));
    ata.write(1, 0, 4, &marked(0, 1));
    ata.write(1, 1, 0, &marked(0, 1));
    ata.write(2, 0, 0, &marked(0, 1));
    assert_eq!(ata.take_written(), vec![(0, 1, 5), (1, 0, 3), (0, 1, 5)]);
    assert_eq!(ata.take_written(), Vec::<(u8, u8, u32)>::new());
    // the drives are as they were written
    let disk = get_disk(&ata, 0, 1).unwrap();
    assert_eq!(get_sector(&ata, &disk, 5).data()[0], 9);
    // reading leaves no record
    let _ = get_sectors(&ata, &disk, 0..16);
    assert!(is_range_empty(&ata, &disk, 6..16));
    assert_eq!(ata.take_written(), Vec::<(u8, u8, u32)>::new());
    set_sector(&mut ata, &disk, 2, &marked(2, 3));
    clear_sector(&mut ata, &disk, 9);
    assert_eq!(ata.take_written(), vec![(0, 1, 2), (0, 1, 9)]);
}
