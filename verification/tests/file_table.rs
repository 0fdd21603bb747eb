use tinix::ata::Ata;
use tinix::file::open_file;
use tinix::file_systems::{get_disk, get_sector, is_sector_empty, Block};
use tinix::file_table::{get_root, FileTable, FileTableEntry, FileType, SmallString};

fn machine(sectors: u32) -> Ata {
    let mut ata = Ata::new();
    assert!(ata.attach(0, 1, "TEST DISK".to_string(), sectors));
    ata
}

#[test]
fn small_string_pads_with_zeros() {
    assert_eq!(SmallString::from_str("A.TXT").bytes(), *b"A.TXT\0\0\0");
    assert_eq!(SmallString::from_str("").bytes(), [0u8; 8]);
    assert_eq!(SmallString::from_str("12345678").bytes(), *b"12345678");
    assert!(SmallString::from_str("ab") == SmallString::from_bytes(*b"ab\0\0\0\0\0\0"));
    assert!(SmallString::from_str("ab") != SmallString::from_str("abc"));
}

#[test]
fn small_string_to_string_appends_up_to_the_first_zero() {
    let mut text = "name: ".to_string();
    SmallString::from_str("A.TXT").to_string(&mut text);
    assert_eq!(text, "name: A.TXT");
    let mut full = String::new();
    SmallString::from_str("12345678").to_string(&mut full);
    assert_eq!(full, "12345678");
    let mut cut = String::new();
    SmallString::from_bytes(*b"ab\0cd\0\0\0").to_string(&mut cut);
    assert_eq!(cut, "ab");
    let mut high = String::new();
    SmallString::from_bytes([0xE9, 0, 0, 0, 0, 0, 0, 0]).to_string(&mut high);
    assert_eq!(high, "\u{e9}");
}

#[test]
fn file_type_tags() {
    assert_eq!(FileType::Null.tag(), 0);
    assert_eq!(FileType::File.tag(), 1);
    assert_eq!(FileType::Directory.tag(), 2);
    assert_eq!(FileType::Device.tag(), 3);
    for tag in 0..=3u8 {
        assert_eq!(FileType::from_tag(tag).tag(), tag);
    }
    assert_eq!(FileType::from_tag(4), FileType::Null);
    assert_eq!(FileType::from_tag(255), FileType::Null);
    assert_eq!(FileType::Null.label(), "Empty");
    assert_eq!(FileType::File.label(), "File");
    assert_eq!(FileType::Directory.label(), "Dir");
    assert_eq!(FileType::Device.label(), "Device");
}

#[test]
fn empty_entry_is_a_free_slot() {
    let e = FileTableEntry::empty();
    assert_eq!(e.filetype(), FileType::Null);
    assert_eq!(e.index(), 0);
    assert_eq!(e.bus_id(), 0);
    assert_eq!(e.disk_id(), 1);
    assert_eq!(e.table_index(), 0);
    assert_eq!(e.name().bytes(), [0u8; 8]);
    assert!(!e.is_file() && !e.is_dir() && !e.is_device());
}

#[test]
fn new_file_entry_and_setters() {
    let ata = machine(8);
    let disk = get_disk(&ata, 0, 1).unwrap();
    let mut e = FileTableEntry::new_file(3, "B.TXT", &disk, 42);
    assert!(e.is_file());
    assert_eq!(e.table_index(), 3);
    assert_eq!(e.index(), 42);
    assert_eq!(e.bus_id(), 0);
    assert_eq!(e.disk_id(), 1);
    assert_eq!(e.name().bytes(), *b"B.TXT\0\0\0");
    e.update_index(7);
    e.set_filetype(FileType::Directory);
    e.set_filename("DIR");
    e.set_table_index(9);
    assert_eq!(e.index(), 7);
    assert!(e.is_dir());
    assert_eq!(e.name().bytes(), *b"DIR\0\0\0\0\0");
    assert_eq!(e.table_index(), 9);
    e.set_filetype(FileType::Device);
    assert!(e.is_device());
}

#[test]
fn entry_layout_on_disk() {
    let ata = machine(8);
    let disk = get_disk(&ata, 0, 1).unwrap();
    let e = FileTableEntry::new_file(0x0102, "AB", &disk, 0x1122_3344);
    let bytes = e.to_bytes();
    let mut expected = [0u8; 32];
    expected[0] = 1;
    expected[4..8].copy_from_slice(&[0x44, 0x33, 0x22, 0x11]);
    expected[8] = 0;
    expected[9] = 1;
    expected[16..24].copy_from_slice(&[0x02, 0x01, 0, 0, 0, 0, 0, 0]);
    expected[24..32].copy_from_slice(b"AB\0\0\0\0\0\0");
    assert_eq!(bytes, expected);
    for i in 0..32usize {
        assert_eq!(e.byte_at(i), expected[i]);
    }
    let mut buffer = vec![0xFFu8; 40];
    buffer[5..37].copy_from_slice(&bytes);
    assert!(FileTableEntry::from_bytes(&buffer, 5) == e);
}

#[test]
fn new_table_is_empty() {
    let table = FileTable::new(0);
    assert_eq!(table.sector_index(), 0);
    assert_eq!(table.disk(), (0, 1));
    assert_eq!(table.list().len(), 0);
    for e in table.entries().iter() {
        assert!(*e == FileTableEntry::empty());
    }
    assert!(table.search("A.TXT").is_none());
    let by_default = FileTable::default();
    assert_eq!(by_default.sector_index(), 0);
    assert_eq!(FileTable::new(5).sector_index(), 5);
}

#[test]
fn create_fills_the_lowest_free_slot() {
    let mut table = FileTable::new(0);
    let a = table.create("A.TXT").unwrap();
    assert!(a.is_file());
    assert_eq!(a.table_index(), 0);
    assert_eq!(a.name().bytes(), *b"A.TXT\0\0\0");
    let b = table.create("B.TXT").unwrap();
    assert_eq!(b.table_index(), 1);
    assert!(*table.entry(0) == a);
    assert!(*table.entry(1) == b);
    assert_eq!(table.entry(2).filetype(), FileType::Null);
    assert!(table.search("A.TXT").unwrap() == a);
    assert!(table.search("B.TXT").unwrap() == b);
    assert!(table.search("C.TXT").is_none());
    assert!(table.search("A.TX").is_none());
    let listed = table.list();
    assert_eq!(listed.len(), 2);
    assert!(listed[0] == a && listed[1] == b);
}

#[test]
fn a_released_slot_is_reused_before_any_higher_slot() {
    let mut table = FileTable::new(0);
    for name in ["A", "B", "C", "D"] {
        table.create(name).unwrap();
    }
    table.release(1);
    assert!(table.search("B").is_none());
    assert_eq!(table.entry(1).filetype(), FileType::Null);
    let e = table.create("E").unwrap();
    assert_eq!(e.table_index(), 1);
    assert!(*table.entry(1) == e);
    assert_eq!(table.entry(4).filetype(), FileType::Null);
    // marking a slot free through the slot itself comes to the same
    table.entry_mut(2).set_filetype(FileType::Null);
    table.release(0);
    assert_eq!(table.create("F").unwrap().table_index(), 0);
    assert_eq!(table.create("G").unwrap().table_index(), 2);
    assert_eq!(table.create("H").unwrap().table_index(), 4);
}

#[test]
fn a_full_table_takes_no_file() {
    let mut table = FileTable::new(0);
    for i in 0..15 {
        let e = table.create(&format!("F{}", i)).unwrap();
        assert_eq!(e.table_index(), i);
    }
    let before = table;
    assert!(table.create("LAST").is_none());
    for i in 0..15usize {
        assert!(*table.entry(i) == *before.entry(i));
    }
    assert_eq!(table.list().len(), 15);
}

#[test]
fn search_ignores_free_slots_and_takes_the_lowest_match() {
    let mut table = FileTable::new(0);
    table.create("X").unwrap();
    table.create("X").unwrap();
    table.entry_mut(1).update_index(99);
    assert_eq!(table.search("X").unwrap().index(), 0);
    table.release(0);
    // slot 0 still carries the name, but it is free
    assert_eq!(table.search("X").unwrap().index(), 99);
    // the empty name does not find the free slots
    assert!(table.search("").is_none());
}

#[test]
fn table_layout_on_disk() {
    let mut table = FileTable::new(0x0A0B_0C0D);
    table.set_disk((1, 0));
    table.create("A.TXT").unwrap();
    table.entry_mut(0).update_index(5);
    let bytes = table.to_block().bytes();
    assert_eq!(&bytes[0..2], &[1, 0]);
    assert_eq!(&bytes[2..4], &[0, 0]);
    assert_eq!(&bytes[4..8], &[0x0D, 0x0C, 0x0B, 0x0A]);
    assert_eq!(&bytes[8..32], &[0u8; 24]);
    assert_eq!(&bytes[32..64], &table.entry(0).to_bytes());
    for slot in 1..15usize {
        assert_eq!(&bytes[32 + 32 * slot..64 + 32 * slot], &FileTableEntry::empty().to_bytes());
    }
}

#[test]
fn table_survives_the_trip_to_disk_and_back() {
    let mut ata = machine(64);
    let mut table = FileTable::new(0);
    table.create("A.TXT").unwrap();
    table.create("B.TXT").unwrap();
    table.entry_mut(1).update_index(33);
    table.entry_mut(7).set_filetype(FileType::Device);
    table.update_on_disk(&mut ata);
    let back = FileTable::load_root(&ata, (0, 1));
    assert_eq!(back.disk(), (0, 1));
    assert_eq!(back.sector_index(), 0);
    for i in 0..15usize {
        assert!(*back.entry(i) == *table.entry(i));
    }
    let again = get_root(&ata, (0, 1));
    assert!(again.search("B.TXT").unwrap().index() == 33);
    assert!(FileTable::from_block(&table.to_block()).search("A.TXT").is_some());
    // nothing but the table's own block was written
    let disk = get_disk(&ata, 0, 1).unwrap();
    assert_eq!(get_sector(&ata, &disk, 0).data(), table.to_block().bytes());
    assert_eq!(get_sector(&ata, &disk, 1).data(), [0u8; 512]);
}

#[test]
fn a_zeroed_disk_holds_an_empty_table() {
    let ata = machine(8);
    let table = FileTable::load_root(&ata, (0, 1));
    assert_eq!(table.list().len(), 0);
    assert_eq!(table.disk(), (0, 1));
    // bytes that stand for no file type read as a free slot
    let mut bytes = [0u8; 512];
    bytes[32] = 9;
    assert_eq!(FileTable::from_block(&Block::from_bytes(bytes)).entry(0).filetype(), FileType::Null);
}

#[test]
fn open_file_gives_the_slot_or_zero() {
    let mut table = FileTable::new(0);
    table.create("A").unwrap();
    table.create("B").unwrap();
    assert_eq!(open_file(&table, "B"), 1);
    assert_eq!(open_file(&table, "A"), 0);
    // a file that is not there is told apart from slot 0 by nothing
    assert_eq!(open_file(&table, "NONE"), 0);
}

#[test]
fn table_open_file_hands_out_an_empty_entry() {
    let mut table = FileTable::new(0);
    table.create("A").unwrap();
    let mut buffer = FileTableEntry::new_file(1, "X", &get_disk(&machine(1), 0, 1).unwrap(), 1);
    table.open_file("A", &mut buffer);
    assert!(buffer == FileTableEntry::empty());
    assert!(table.search("A").is_some());
}

#[test]
fn the_table_is_written_to_block_0_whatever_number_it_records() {
    let mut ata = machine(64);
    let mut table = FileTable::new(5);
    table.create("A.TXT").unwrap();
    table.update_on_disk(&mut ata);
    let disk = get_disk(&ata, 0, 1).unwrap();
    assert!(get_sector(&ata, &disk, 0).data() == table.to_block().bytes());
    for block in 1..64 {
        assert!(is_sector_empty(&ata, &disk, block));
    }
    let back = FileTable::load_root(&ata, (0, 1));
    assert_eq!(back.sector_index(), 5);
    assert_eq!(back.search("A.TXT").unwrap().table_index(), 0);
}

#[test]
fn first_free_slot_is_the_lowest_slot_that_is_null() {
    let mut table = FileTable::new(0);
    assert_eq!(table.first_free_slot(), Some(0));
    for i in 0..15usize {
        assert_eq!(table.first_free_slot(), Some(i));
        table.create("F").unwrap();
    }
    assert_eq!(table.first_free_slot(), None);
    table.release(9);
    table.release(4);
    assert_eq!(table.first_free_slot(), Some(4));
}
