use tinix::ata::Ata;
use tinix::file::{check_sizes, create_file, file_info, next_block, open_file, FileInfo, FsError, IndexNode};
use tinix::file_systems::{
    allocate_run, get_disk, get_sector, is_range_empty, is_sector_empty, set_sectors, zero_format_disk, Block,
    Disk,
};
use tinix::file_table::{FileTable, FileType};
use tinix::sector::Sector;
use tinix::sector_list::SectorList;

fn machine(sectors: u32) -> (Ata, Disk) {
    let mut ata = Ata::new();
    assert!(ata.attach(0, 1, "TEST DISK".to_string(), sectors));
    let disk = get_disk(&ata, 0, 1).unwrap();
    (ata, disk)
}

/// The bytes of a node, written out by hand.
fn node_block(current: u32, next: u32, next_free: u32, next_entry: u32, pointers: &[u32]) -> Block {
    let mut bytes = [0u8; 512];
    bytes[0..4].copy_from_slice(&current.to_le_bytes());
    bytes[4..8].copy_from_slice(&next.to_le_bytes());
    bytes[8..12].copy_from_slice(&next_free.to_le_bytes());
    bytes[12..16].copy_from_slice(&next_entry.to_le_bytes());
    for (i, p) in pointers.iter().enumerate() {
        bytes[16 + 4 * i..20 + 4 * i].copy_from_slice(&p.to_le_bytes());
    }
    Block::from_bytes(bytes)
}

/// The addresses that a walk along the list collects.
fn pointers(ata: &Ata, head: &IndexNode) -> Vec<u32> {
    head.sectors(ata).iter().map(|(_, sector)| sector.index()).collect()
}

/// The nodes of the list, found by following the links by hand.
fn nodes(ata: &Ata, head: &IndexNode) -> Vec<IndexNode> {
    let mut all = vec![*head];
    let mut node = *head;
    while let Some(next) = node.get_next(ata) {
        all.push(next);
        node = next;
    }
    all
}

fn file_bytes(n: usize, salt: u8) -> Vec<u8> {
    (0..n).map(|i| ((i as u32 * 7 + salt as u32) % 251) as u8 + 1).collect()
}

#[test]
fn sizes_fit() {
    assert!(check_sizes());
}

#[test]
fn next_block_wraps() {
    assert_eq!(next_block(0), 1);
    assert_eq!(next_block(41), 42);
    assert_eq!(next_block(u32::MAX), 0);
}

#[test]
fn created_node_is_empty() {
    let node = IndexNode::create(5);
    assert_eq!(node.current(), 5);
    assert_eq!(node.next(), 0);
    assert_eq!(node.len(), 0);
    for slot in 0..32 {
        assert_eq!(node.pointer(slot), 0);
    }
    assert!(node.to_block() == node_block(5, 0, 6, 0, &[]));
    assert!(IndexNode::create(u32::MAX).to_block() == node_block(u32::MAX, 0, 0, 0, &[]));
}

#[test]
fn node_layout_on_disk() {
    let (mut ata, _) = machine(64);
    let mut node = IndexNode::create(0x0102_0304);
    node.add_data_sector(&mut ata, &Sector::new(0xA1B2_C3D4)).unwrap();
    node.add_block(&mut ata, &Block::default(), 9).unwrap();
    let bytes = node.to_block().bytes();
    assert_eq!(&bytes[0..4], &[0x04, 0x03, 0x02, 0x01]);
    assert_eq!(&bytes[4..8], &[0, 0, 0, 0]);
    assert_eq!(&bytes[8..12], &[0x07, 0x03, 0x02, 0x01]);
    assert_eq!(&bytes[12..16], &[2, 0, 0, 0]);
    assert_eq!(&bytes[16..20], &[0xD4, 0xC3, 0xB2, 0xA1]);
    assert_eq!(&bytes[20..24], &[9, 0, 0, 0]);
    assert_eq!(&bytes[24..512], &[0u8; 488][..]);
    let back = IndexNode::from_block(&node.to_block());
    assert!(back.to_block() == node.to_block());
    assert_eq!(back.len(), 2);
    assert_eq!(back.pointer(0), 0xA1B2_C3D4);
    assert_eq!(back.pointer(1), 9);
}

#[test]
fn node_save_then_from_index() {
    let (mut ata, _) = machine(64);
    let mut node = IndexNode::create(12);
    node.add_block(&mut ata, &Block::default(), 100).unwrap();
    node.save(&mut ata, 12);
    let back = IndexNode::from_index(&ata, 12);
    assert!(back.to_block() == node.to_block());
    assert!(back.get_next(&ata).is_none());
    // a block of zeros reads as a node that holds nothing
    let blank = IndexNode::from_index(&ata, 13);
    assert_eq!((blank.current(), blank.next(), blank.len()), (0, 0, 0));
}

#[test]
fn a_node_with_room_takes_the_address_and_leaves_the_disk_alone() {
    let (mut ata, disk) = machine(128);
    let mut node = IndexNode::create(1);
    for i in 0..32u32 {
        assert_eq!(node.add_data_sector(&mut ata, &Sector::new(500 + i)), Ok(()));
        assert_eq!(node.len(), i as usize + 1);
    }
    assert_eq!(node.next(), 0);
    for i in 0..32usize {
        assert_eq!(node.pointer(i), 500 + i as u32);
    }
    for block in 0..128 {
        assert!(is_sector_empty(&ata, &disk, block));
    }
    assert_eq!(pointers(&ata, &node), (500..532).collect::<Vec<u32>>());
}

#[test]
fn a_full_node_is_continued_at_the_lowest_free_region() {
    let (mut ata, disk) = machine(128);
    let mut head = IndexNode::create(1);
    head.save(&mut ata, 1);
    for i in 0..32u32 {
        head.add_block(&mut ata, &Block::default(), 500 + i).unwrap();
    }
    assert_eq!(head.add_block(&mut ata, &Block::default(), 532), Ok(()));
    // block 1 holds the head, so the lowest free run of 33 starts at 2
    assert_eq!(head.next(), 2);
    assert_eq!(head.len(), 32);
    let second = head.get_next(&ata).unwrap();
    assert_eq!(second.current(), 2);
    assert_eq!(second.next(), 0);
    assert_eq!(second.len(), 1);
    assert_eq!(second.pointer(0), 532);
    assert!(second.to_block() == node_block(2, 0, 4, 1, &[532]));
    assert!(!is_sector_empty(&ata, &disk, 2));
    assert!(is_sector_empty(&ata, &disk, 3));
    // the next address goes to the node that is there, not to a new one
    assert_eq!(head.add_block(&mut ata, &Block::default(), 533), Ok(()));
    assert_eq!(head.next(), 2);
    let second = head.get_next(&ata).unwrap();
    assert_eq!(second.len(), 2);
    assert_eq!(second.next(), 0);
    assert_eq!(pointers(&ata, &head), (500..534).collect::<Vec<u32>>());
}

#[test]
fn n_addresses_need_n_over_32_nodes_rounded_up() {
    for n in [1usize, 32, 33, 64, 65, 70, 96, 100] {
        let (mut ata, _) = machine(2048);
        let mut head = IndexNode::create(1);
        head.save(&mut ata, 1);
        let wanted: Vec<u32> = (0..n as u32).map(|i| 1000 + 3 * i).collect();
        for p in &wanted {
            assert_eq!(head.add_data_sector(&mut ata, &Sector::new(*p)), Ok(()));
        }
        let all = nodes(&ata, &head);
        assert_eq!(all.len(), (n + 31) / 32);
        assert_eq!(all.last().unwrap().next(), 0);
        for (i, node) in all.iter().enumerate() {
            let expected = if i + 1 < all.len() { 32 } else { n - 32 * i };
            assert_eq!(node.len(), expected);
        }
        assert_eq!(pointers(&ata, &head), wanted);
    }
}

#[test]
fn a_disk_without_a_free_region_takes_no_more_nodes() {
    let (mut ata, disk) = machine(35);
    let mut head = IndexNode::create(1);
    head.save(&mut ata, 1);
    for i in 0..32u32 {
        head.add_block(&mut ata, &Block::default(), 100 + i).unwrap();
    }
    // blocks 2 to 34 are free: one more node fits, at block 2, and after it none
    assert_eq!(head.add_block(&mut ata, &Block::default(), 132), Ok(()));
    assert_eq!(head.next(), 2);
    for i in 0..31u32 {
        head.add_block(&mut ata, &Block::default(), 133 + i).unwrap();
    }
    let before_head = head.to_block();
    let before: Vec<[u8; 512]> = (0..35).map(|b| get_sector(&ata, &disk, b).data()).collect();
    assert_eq!(head.add_block(&mut ata, &Block::default(), 999), Err(FsError::DiskFull));
    assert!(head.to_block() == before_head);
    let after: Vec<[u8; 512]> = (0..35).map(|b| get_sector(&ata, &disk, b).data()).collect();
    assert_eq!(before, after);
    assert_eq!(pointers(&ata, &head).len(), 64);
}

#[test]
fn a_list_that_runs_in_a_circle_is_refused() {
    let (mut ata, disk) = machine(64);
    let full: Vec<u32> = (0..32).collect();
    // the node at block 5 is full and names itself as the next node
    node_block(5, 5, 38, 32, &full).save(&mut ata, 0, 1, 5);
    let mut head = IndexNode::from_index(&ata, 5);
    let before = get_sector(&ata, &disk, 5).data();
    assert_eq!(head.add_block(&mut ata, &Block::default(), 1), Err(FsError::BrokenChain));
    assert_eq!(get_sector(&ata, &disk, 5).data(), before);
    // a walk along it ends when the fuel does: the head and one node for every sector
    assert_eq!(head.sectors(&ata).len(), 32 * 65);
}

#[test]
fn a_cursor_past_the_last_slot_counts_as_full() {
    let (mut ata, _) = machine(64);
    let mut node = IndexNode::from_block(&node_block(7, 0, 0, 1000, &[1, 2, 3]));
    assert_eq!(node.len(), 32);
    assert_eq!(node.add_block(&mut ata, &Block::default(), 77), Ok(()));
    assert_eq!(node.next(), 1);
    assert_eq!(node.get_next(&ata).unwrap().pointer(0), 77);
}

#[test]
fn sectors_and_data_are_read_from_the_disk() {
    let (mut ata, disk) = machine(128);
    let data = file_bytes(1024, 3);
    let mut list = SectorList::new();
    list.write_slice(&data, 0);
    set_sectors(&mut ata, &disk, 60, &list);
    let mut head = IndexNode::create(1);
    // the blocks are listed in the other order
    head.add_block(&mut ata, &Block::default(), 61).unwrap();
    head.add_block(&mut ata, &Block::default(), 60).unwrap();
    let found = head.sectors(&ata);
    assert_eq!(found.len(), 2);
    assert_eq!(found[0].1.index(), 61);
    assert_eq!(&found[0].1.data()[..], &data[512..1024]);
    assert_eq!(found[1].1.index(), 60);
    assert_eq!(&found[1].1.data()[..], &data[0..512]);
    assert!(found[0].0.to_block() == head.to_block());
    let mut expected = data[512..1024].to_vec();
    expected.extend_from_slice(&data[0..512]);
    assert_eq!(head.get_data(&ata), expected);
    assert_eq!(IndexNode::create(9).get_data(&ata), Vec::<u8>::new());
}

#[test]
fn clear_list_empties_every_node_and_keeps_the_links() {
    let (mut ata, _) = machine(256);
    let mut head = IndexNode::create(1);
    head.save(&mut ata, 1);
    for i in 0..70u32 {
        head.add_block(&mut ata, &Block::default(), 200 + i).unwrap();
    }
    let links: Vec<u32> = nodes(&ata, &head).iter().map(|n| n.next()).collect();
    assert_eq!(links.len(), 3);
    head.clear_list(&mut ata);
    let cleared = nodes(&ata, &head);
    assert_eq!(cleared.iter().map(|n| n.next()).collect::<Vec<u32>>(), links);
    for node in &cleared {
        assert_eq!(node.len(), 0);
        assert!(node.to_block() == node_block(node.current(), node.next(), node.current() + 1, 0, &[]));
    }
    assert_eq!(pointers(&ata, &head), Vec::<u32>::new());
    // the emptied list is filled again through the nodes that are there
    for i in 0..40u32 {
        head.add_block(&mut ata, &Block::default(), 900 + i).unwrap();
    }
    assert_eq!(nodes(&ata, &head).iter().map(|n| n.next()).collect::<Vec<u32>>(), links);
    assert_eq!(pointers(&ata, &head), (900..940).collect::<Vec<u32>>());
}

#[test]
fn file_info_basics() {
    let (mut ata, _) = machine(64);
    let mut none = FileInfo::new(vec![Sector::new(3)]);
    assert_eq!(none.lead(), 0);
    assert_eq!(none.get_mut_sectorlist().len(), 0);
    assert_eq!(none.set_sectors(&mut ata, &SectorList::with_capacity(2)), Err(FsError::NoLeadNode));
    assert_eq!(FileInfo::at(9).lead(), 9);
    assert_eq!(FileInfo::from_block(&node_block(0x0A0B_0C0D, 0, 0, 0, &[])).lead(), 0x0A0B_0C0D);
    IndexNode::create(9).save(&mut ata, 9);
    assert!(FileInfo::at(9).index_head(&ata).to_block() == IndexNode::create(9).to_block());
}

#[test]
fn a_file_of_3000_bytes_takes_6_sectors_and_one_node() {
    let (mut ata, disk) = machine(2048);
    zero_format_disk(&mut ata, &disk);
    let mut table = FileTable::new(0);
    let created = create_file(&mut ata, &mut table, "A.TXT").unwrap();
    assert_eq!(created.table_index(), 0);
    assert_eq!(created.filetype(), FileType::File);
    let lead = created.index();
    assert_eq!(lead, 1);

    let data = file_bytes(3000, 1);
    let mut info = file_info(&ata, &table, 0);
    assert_eq!(info.lead(), lead);
    assert_eq!(info.set_data(&mut ata, data.clone()), Ok(()));

    let head = info.index_head(&ata);
    assert_eq!(head.len(), 6);
    assert_eq!(head.next(), 0);
    assert_eq!(nodes(&ata, &head).len(), 1);
    assert_eq!(pointers(&ata, &head), vec![2, 3, 4, 5, 6, 7]);
    let read = info.get_data(&ata);
    assert_eq!(read.len(), 6 * 512);
    assert_eq!(&read[..3000], &data[..]);
    assert_eq!(&read[3000..], &[0u8; 72][..]);
    assert!(is_range_empty(&ata, &disk, 8..2048));

    let found = FileTable::load_root(&ata, (0, 1)).search("A.TXT").unwrap();
    assert_eq!(found.filetype(), FileType::File);
    assert_eq!(found.index(), lead);
    assert_eq!(found.table_index(), 0);
    assert_eq!(found.name().bytes(), *b"A.TXT\0\0\0");
    assert_eq!(found.get_fileinfo(&ata).lead(), lead);
    assert!(found == created);
}

#[test]
fn a_second_file_of_20000_bytes_takes_40_blocks_and_two_nodes() {
    let (mut ata, disk) = machine(2048);
    zero_format_disk(&mut ata, &disk);
    let mut table = FileTable::new(0);
    create_file(&mut ata, &mut table, "A.TXT").unwrap();
    let data_a = file_bytes(3000, 1);
    let mut info_a = file_info(&ata, &table, 0);
    assert_eq!(info_a.set_data(&mut ata, data_a.clone()), Ok(()));

    let created = create_file(&mut ata, &mut table, "B.TXT").unwrap();
    assert_eq!(created.table_index(), 1);
    // blocks 0 to 7 are taken by the table and the first file
    assert_eq!(created.index(), 8);
    let data_b = file_bytes(20000, 2);
    let mut info_b = file_info(&ata, &table, 1);
    assert_eq!(info_b.lead(), 8);
    assert_eq!(info_b.set_data(&mut ata, data_b.clone()), Ok(()));

    let head = info_b.index_head(&ata);
    let chain = nodes(&ata, &head);
    assert_eq!(chain.len(), 2);
    assert_eq!(chain[0].len(), 32);
    assert_eq!(chain[1].len(), 8);
    assert_eq!(chain[1].next(), 0);
    // the second node leads the run, the 40 blocks follow it
    assert_eq!(chain[0].next(), 9);
    assert_eq!(chain[1].current(), 9);
    assert_eq!(pointers(&ata, &head), (10..50).collect::<Vec<u32>>());
    let read = info_b.get_data(&ata);
    assert_eq!(read.len(), 40 * 512);
    assert_eq!(&read[..20000], &data_b[..]);
    assert_eq!(&read[20000..], &[0u8; 480][..]);
    assert!(is_range_empty(&ata, &disk, 50..2048));

    // the first file is as it was
    assert_eq!(&info_a.get_data(&ata)[..3000], &data_a[..]);
    let root = FileTable::load_root(&ata, (0, 1));
    assert_eq!(root.search("B.TXT").unwrap().index(), 8);
    assert_eq!(root.search("A.TXT").unwrap().index(), 1);
    assert_eq!(root.list().len(), 2);
}

/// The cursor that a node keeps beside its addresses.
fn next_free(node: &IndexNode) -> u32 {
    let bytes = node.to_block().bytes();
    u32::from_le_bytes([bytes[8], bytes[9], bytes[10], bytes[11]])
}

/// Every sector of the drive, to compare two states of it.
fn snapshot(ata: &Ata, disk: &Disk, sectors: u32) -> Vec<[u8; 512]> {
    (0..sectors).map(|i| get_sector(ata, disk, i).data()).collect()
}

#[test]
fn create_file_claims_a_slot_and_stores_an_empty_node() {
    let (mut ata, disk) = machine(64);
    let mut table = FileTable::new(0);
    let made = create_file(&mut ata, &mut table, "ONE").unwrap();
    assert_eq!((made.table_index(), made.index(), made.filetype()), (0, 1, FileType::File));
    assert_eq!(made.name().bytes(), *b"ONE\0\0\0\0\0");
    assert!(*table.entry(0) == made);
    assert!(IndexNode::from_index(&ata, 1).to_block() == IndexNode::create(1).to_block());
    assert!(get_sector(&ata, &disk, 0).data() == table.to_block().bytes());
    assert!(is_range_empty(&ata, &disk, 2..64));
    // the next file goes to the next slot and the next block
    let next = create_file(&mut ata, &mut table, "TWO").unwrap();
    assert_eq!((next.table_index(), next.index()), (1, 2));
    assert_eq!(FileTable::load_root(&ata, (0, 1)).search("TWO").unwrap().index(), 2);
    assert_eq!(open_file(&table, "TWO"), 1);
}

#[test]
fn create_file_on_a_full_table_changes_nothing() {
    let (mut ata, disk) = machine(64);
    let mut table = FileTable::new(0);
    for i in 0..15u32 {
        let made = create_file(&mut ata, &mut table, &format!("F{}", i)).unwrap();
        assert_eq!((made.table_index(), made.index()), (i as usize, i + 1));
    }
    let before = snapshot(&ata, &disk, 64);
    let table_before = table.to_block().bytes();
    assert_eq!(create_file(&mut ata, &mut table, "LATE").err(), Some(FsError::TableFull));
    assert!(snapshot(&ata, &disk, 64) == before);
    assert!(table.to_block().bytes() == table_before);
}

#[test]
fn create_file_without_room_for_a_node_changes_nothing() {
    // a node is placed only where 33 sectors are unused
    let (mut ata, disk) = machine(33);
    let mut table = FileTable::new(0);
    assert_eq!(create_file(&mut ata, &mut table, "A").err(), Some(FsError::DiskFull));
    assert!(table.search("A").is_none());
    assert!(is_range_empty(&ata, &disk, 0..33));
    let (mut ata, _) = machine(34);
    assert_eq!(create_file(&mut ata, &mut table, "A").unwrap().index(), 1);
    // the table is full and the disk is too: the table is named
    let (mut small, _) = machine(33);
    let mut full = FileTable::new(0);
    for i in 0..15u32 {
        full.create(&format!("F{}", i)).unwrap();
    }
    assert_eq!(create_file(&mut small, &mut full, "A").err(), Some(FsError::TableFull));
}

#[test]
fn set_sectors_replaces_the_block_list() {
    let (mut ata, disk) = machine(512);
    IndexNode::create(1).save(&mut ata, 1);
    let mut info = FileInfo::at(1);
    let mut first = SectorList::new();
    for i in 0..40u32 {
        first.add_sector(&Sector::new(100 + i));
    }
    assert_eq!(info.set_sectors(&mut ata, &first), Ok(()));
    assert_eq!(pointers(&ata, &info.index_head(&ata)), (100..140).collect::<Vec<u32>>());
    let mut second = SectorList::new();
    second.add_sector(&Sector::new(300));
    second.add_sector(&Sector::new(200));
    assert_eq!(info.set_sectors(&mut ata, &second), Ok(()));
    let head = info.index_head(&ata);
    assert_eq!(pointers(&ata, &head), vec![300, 200]);
    // the node that continued the list is still linked, and empty
    assert_eq!(nodes(&ata, &head).len(), 2);
    assert_eq!(info.set_sectors(&mut ata, &SectorList::new()), Ok(()));
    assert_eq!(pointers(&ata, &info.index_head(&ata)), Vec::<u32>::new());
    assert_eq!(info.lead(), 1);
    let _ = disk;
}

#[test]
fn set_sectors_stops_at_the_first_address_that_cannot_be_added() {
    let (mut ata, _) = machine(35);
    IndexNode::create(1).save(&mut ata, 1);
    let mut info = FileInfo::at(1);
    let mut list = SectorList::new();
    for i in 0..70u32 {
        list.add_sector(&Sector::new(100 + i));
    }
    // one more node fits on the disk, a third does not
    assert_eq!(info.set_sectors(&mut ata, &list), Err(FsError::DiskFull));
    assert_eq!(pointers(&ata, &info.index_head(&ata)), (100..164).collect::<Vec<u32>>());
}

#[test]
fn set_data_lays_the_file_out_in_the_lowest_free_run() {
    let (mut ata, disk) = machine(256);
    IndexNode::create(1).save(&mut ata, 1);
    // block 3 is in use, so that blocks 2 and 3 are no run of two
    node_block(7, 0, 0, 0, &[]).save(&mut ata, 0, 1, 3);
    let mut info = FileInfo::at(1);
    let data = file_bytes(700, 5);
    assert_eq!(info.set_data(&mut ata, data.clone()), Ok(()));
    assert_eq!(pointers(&ata, &info.index_head(&ata)), vec![4, 5]);
    assert_eq!(&get_sector(&ata, &disk, 4).data()[..], &data[0..512]);
    assert_eq!(&get_sector(&ata, &disk, 5).data()[..188], &data[512..700]);
    assert_eq!(&get_sector(&ata, &disk, 5).data()[188..], &[0u8; 324][..]);
    assert!(is_sector_empty(&ata, &disk, 2));
    assert!(is_range_empty(&ata, &disk, 6..256));
    let read = info.get_data(&ata);
    assert_eq!(&read[..700], &data[..]);
    assert_eq!(read.len(), 2 * 512);

    // written again, the file takes the next free run; its old blocks are left behind
    let long = file_bytes(4 * 512, 9);
    assert_eq!(info.set_data(&mut ata, long.clone()), Ok(()));
    let head = info.index_head(&ata);
    assert_eq!(pointers(&ata, &head), vec![6, 7, 8, 9]);
    assert_eq!((head.current(), head.next(), head.len(), next_free(&head)), (1, 0, 4, 6));
    assert_eq!(info.get_data(&ata), long);
    assert_eq!(&get_sector(&ata, &disk, 4).data()[..], &data[0..512]);
    assert_eq!(info.lead(), 1);

    // no bytes: the list is empty, and no other block is written
    let before = snapshot(&ata, &disk, 256);
    assert_eq!(info.set_data(&mut ata, Vec::new()), Ok(()));
    let head = info.index_head(&ata);
    assert_eq!((head.current(), head.next(), head.len(), next_free(&head)), (1, 0, 0, 2));
    assert!(head.to_block() == IndexNode::create(1).to_block());
    assert_eq!(info.get_data(&ata), Vec::<u8>::new());
    let after = snapshot(&ata, &disk, 256);
    assert!(after[0] == before[0] && after[2..] == before[2..]);
}

#[test]
fn set_data_puts_the_further_nodes_before_the_data() {
    for (sectors, counts) in [
        (1usize, vec![1usize]),
        (32, vec![32]),
        (33, vec![32, 1]),
        (64, vec![32, 32]),
        (65, vec![32, 32, 1]),
        (97, vec![32, 32, 32, 1]),
    ] {
        let (mut ata, disk) = machine(256);
        IndexNode::create(1).save(&mut ata, 1);
        let mut info = FileInfo::at(1);
        let data = file_bytes(sectors * 512 - 100, 3);
        assert_eq!(info.set_data(&mut ata, data.clone()), Ok(()));
        let chain = nodes(&ata, &info.index_head(&ata));
        let extra = counts.len() as u32 - 1;
        assert_eq!(chain.iter().map(|n| n.len()).collect::<Vec<usize>>(), counts);
        assert_eq!(chain.len(), (sectors + 31) / 32);
        for (j, node) in chain.iter().enumerate() {
            let j = j as u32;
            assert_eq!(node.current(), if j == 0 { 1 } else { 1 + j });
            assert_eq!(node.next(), if j < extra { 2 + j } else { 0 });
            assert_eq!(next_free(node), node.current() + 1 + node.len() as u32);
        }
        let first = 2 + extra;
        assert_eq!(pointers(&ata, &chain[0]), (first..first + sectors as u32).collect::<Vec<u32>>());
        let read = info.get_data(&ata);
        assert_eq!(read.len(), sectors * 512);
        assert_eq!(&read[..data.len()], &data[..]);
        assert_eq!(&read[data.len()..], &[0u8; 100][..]);
        assert!(is_range_empty(&ata, &disk, first + sectors as u32..256));
    }
}

#[test]
fn set_data_without_a_first_node_writes_nothing() {
    let (mut ata, disk) = machine(64);
    IndexNode::create(1).save(&mut ata, 1);
    // block 9 holds a node that belongs to another block
    IndexNode::create(5).save(&mut ata, 9);
    let before = snapshot(&ata, &disk, 64);
    for lead in [0u32, 2, 9, 63, 64, 65, u32::MAX] {
        let mut info = FileInfo::at(lead);
        assert_eq!(info.set_data(&mut ata, file_bytes(100, 1)), Err(FsError::NoLeadNode));
        assert_eq!(info.set_data(&mut ata, Vec::new()), Err(FsError::NoLeadNode));
        assert_eq!(info.lead(), lead);
    }
    assert!(snapshot(&ata, &disk, 64) == before);
}

#[test]
fn set_data_without_room_writes_nothing() {
    let (mut ata, disk) = machine(8);
    IndexNode::create(1).save(&mut ata, 1);
    let before = snapshot(&ata, &disk, 8);
    let mut info = FileInfo::at(1);
    // blocks 2 to 7 are free: six sectors fit, seven do not
    assert_eq!(info.set_data(&mut ata, file_bytes(6 * 512 + 1, 1)), Err(FsError::DiskFull));
    assert_eq!(info.set_data(&mut ata, file_bytes(40 * 512, 1)), Err(FsError::DiskFull));
    assert!(snapshot(&ata, &disk, 8) == before);
    let data = file_bytes(6 * 512, 1);
    assert_eq!(info.set_data(&mut ata, data.clone()), Ok(()));
    assert_eq!(info.get_data(&ata), data);
    assert_eq!(pointers(&ata, &info.index_head(&ata)), vec![2, 3, 4, 5, 6, 7]);
    // the run is taken now
    assert_eq!(info.set_data(&mut ata, vec![1]), Err(FsError::DiskFull));
    assert_eq!(info.get_data(&ata), data);
    // 33 sectors need a node more than 32 do
    let (mut ata, _) = machine(35);
    IndexNode::create(1).save(&mut ata, 1);
    assert_eq!(info.set_data(&mut ata, file_bytes(33 * 512, 1)), Err(FsError::DiskFull));
    assert_eq!(info.set_data(&mut ata, file_bytes(32 * 512, 1)), Ok(()));
}

#[test]
fn block_0_is_no_block_of_a_file() {
    let (mut ata, disk) = machine(64);
    let mut node = IndexNode::create(1);
    assert_eq!(node.add_data_sector(&mut ata, &Sector::new(0)), Err(FsError::ReservedBlock));
    assert_eq!(node.add_block(&mut ata, &Block::from_bytes([7; 512]), 0), Err(FsError::ReservedBlock));
    assert_eq!(node.len(), 0);
    assert!(node.to_block() == IndexNode::create(1).to_block());
    assert!(is_range_empty(&ata, &disk, 0..64));
    assert_eq!(node.add_data_sector(&mut ata, &Sector::new(5)), Ok(()));

    IndexNode::create(1).save(&mut ata, 1);
    let mut info = FileInfo::at(1);
    let mut list = SectorList::new();
    list.add_sector(&Sector::new(9));
    list.add_sector(&Sector::new(0));
    list.add_sector(&Sector::new(10));
    assert_eq!(info.set_sectors(&mut ata, &list), Err(FsError::ReservedBlock));
    assert_eq!(pointers(&ata, &info.index_head(&ata)), vec![9]);
}

#[test]
fn allocate_run_finds_the_lowest_run_of_unused_sectors() {
    let (mut ata, disk) = machine(32);
    assert_eq!(allocate_run(&ata, &disk, 1), Some(1));
    assert_eq!(allocate_run(&ata, &disk, 31), Some(1));
    assert_eq!(allocate_run(&ata, &disk, 32), None);
    assert_eq!(allocate_run(&ata, &disk, u64::MAX), None);
    assert_eq!(allocate_run(&ata, &disk, 0), Some(1));
    node_block(1, 0, 0, 0, &[]).save(&mut ata, 0, 1, 4);
    node_block(1, 0, 0, 0, &[]).save(&mut ata, 0, 1, 10);
    assert_eq!(allocate_run(&ata, &disk, 3), Some(1));
    assert_eq!(allocate_run(&ata, &disk, 4), Some(5));
    assert_eq!(allocate_run(&ata, &disk, 5), Some(5));
    assert_eq!(allocate_run(&ata, &disk, 6), Some(11));
    assert_eq!(allocate_run(&ata, &disk, 21), Some(11));
    assert_eq!(allocate_run(&ata, &disk, 22), None);
    let (empty, none) = machine(1);
    assert_eq!(allocate_run(&empty, &none, 1), None);
    // a run starts at a block of the drive, even a run of no sectors
    assert_eq!(allocate_run(&empty, &none, 0), None);
}

#[test]
fn the_blocks_that_a_file_takes_are_on_record() {
    let (mut ata, _) = machine(128);
    let mut table = FileTable::new(0);
    let _ = ata.take_written();
    let made = create_file(&mut ata, &mut table, "A").unwrap();
    assert_eq!(ata.take_written(), vec![(0, 1, 1), (0, 1, 0)]);
    let mut info = made.get_fileinfo(&ata);
    assert_eq!(info.set_data(&mut ata, file_bytes(33 * 512, 4)), Ok(()));
    let mut expected: Vec<(u8, u8, u32)> = (3..36).map(|block| (0, 1, block)).collect();
    expected.push((0, 1, 2));
    expected.push((0, 1, 1));
    assert_eq!(ata.take_written(), expected);
    // a write that is refused leaves no record
    assert_eq!(info.set_data(&mut ata, file_bytes(100 * 512, 4)), Err(FsError::DiskFull));
    assert_eq!(ata.take_written(), Vec::<(u8, u8, u32)>::new());
}
