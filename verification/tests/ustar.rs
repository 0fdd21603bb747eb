use tinix::ata::Ata;
use tinix::io::{File, IoReader, IoWriter};
use tinix::sector::Sector;
use tinix::sector_list::SectorList;
use tinix::ustar::{
    check_meta_block_size, file_create, file_exists, get_file_data, insert_slice, list_files, load_fs, oct2bin,
    octal_into, octal_number, open_file, save_fs, search, text_of, trim_zeros, trim_zeros_end, FileTable, MetaNode,
    TarFile,
};

fn file(name: &str, data: &[u8]) -> TarFile {
    let mut f = TarFile::open(name);
    f.write_all(data.to_vec());
    f
}

/// A partition that holds the files one after another, each with its header in front.
fn partition(files: &[(&str, Vec<u8>)]) -> SectorList {
    let mut all = SectorList::new();
    for (name, data) in files {
        let mut sectors = file(name, data).get_sectors();
        all.append(&mut sectors);
    }
    all
}

#[test]
fn octal_digits_to_number() {
    assert_eq!(oct2bin("0"), 0);
    assert_eq!(oct2bin("7"), 7);
    assert_eq!(oct2bin("10"), 8);
    assert_eq!(oct2bin("00000000144"), 100);
    assert_eq!(oct2bin("777"), 511);
    assert_eq!(octal_number(b"5670"), 3000);
}

#[test]
fn number_to_octal_digits() {
    let mut field = [0xFFu8; 12];
    octal_into(3000, &mut field);
    assert_eq!(&field, b"000000005670");
    let mut short = [0u8; 3];
    octal_into(511, &mut short);
    assert_eq!(&short, b"777");
    let mut zero = [0u8; 8];
    octal_into(0, &mut zero);
    assert_eq!(&zero, b"00000000");
    let mut none: [u8; 0] = [];
    octal_into(0, &mut none);
}

#[test]
fn insert_slice_lays_bytes_over_a_buffer() {
    let mut buffer = [9u8; 8];
    insert_slice(&[1, 2, 3], &mut buffer, 4);
    assert_eq!(buffer, [9, 9, 9, 9, 1, 2, 3, 9]);
    insert_slice(&[], &mut buffer, 7);
    assert_eq!(buffer, [9, 9, 9, 9, 1, 2, 3, 9]);
}

#[test]
fn text_of_bytes_and_trimming() {
    assert_eq!(text_of(b"ab\0"), "ab\0");
    assert_eq!(text_of(&[0xE9]), "\u{e9}");
    assert_eq!(trim_zeros("\0\0a\0b\0"), "a\0b");
    assert_eq!(trim_zeros("\0\0"), "");
    assert_eq!(trim_zeros(""), "");
    assert_eq!(trim_zeros("abc"), "abc");
    assert_eq!(trim_zeros_end("\0a\0\0"), "\0a");
    assert_eq!(trim_zeros_end("\0"), "");
}

#[test]
fn header_fields_fill_a_sector() {
    assert!(check_meta_block_size());
    assert_eq!(get_file_data(b"anything", "name"), Vec::<u8>::new());
}

#[test]
fn header_of_a_new_file() {
    let f = file("hello.txt", &[7u8; 3000]);
    let node = MetaNode::new(&f);
    let mut name = "hello.txt".to_string();
    while name.len() < 100 {
        name.push('\0');
    }
    assert_eq!(node.name(), name);
    assert_eq!(node.file_size(), 3000);
    assert_eq!(node.file_sector_length(), 6);
    assert_eq!(node.file_type(), "0");
    let mut unknown = "UNK".to_string();
    while unknown.len() < 32 {
        unknown.push('\0');
    }
    assert_eq!(node.owner(), (unknown, 0));
    assert_eq!(node.group(), ("0".repeat(32), 0));
}

#[test]
fn sector_length_rounds_up() {
    for (size, sectors) in [(0usize, 0usize), (1, 1), (511, 1), (512, 1), (513, 2), (1024, 2)] {
        let node = MetaNode::new(&file("f", &vec![0u8; size]));
        assert_eq!(node.file_size(), size);
        assert_eq!(node.file_sector_length(), sectors);
    }
}

#[test]
fn header_as_it_is_written_out() {
    let node = MetaNode::new(&file("a", &[1u8; 9]));
    let bytes = node.as_slice();
    let mut expected = [0u8; 512];
    expected[0] = b'a';
    expected[124..136].copy_from_slice(b"000000000011");
    expected[156] = b'0';
    expected[257..263].copy_from_slice(b"USTAR\0");
    expected[263..265].copy_from_slice(b"00");
    let sum: usize = expected.iter().map(|b| *b as usize).sum();
    assert_eq!(MetaNode::gen_checksum(expected), sum);
    assert_eq!(sum, 97 + 10 * 48 + 2 * 49 + 48 + 85 + 83 + 84 + 65 + 82 + 96);
    let mut digits = [0u8; 8];
    octal_into(sum, &mut digits);
    expected[148..156].copy_from_slice(&digits);
    assert_eq!(bytes, expected);
    assert_eq!(MetaNode::gen_checksum([0u8; 512]), 0);
    assert_eq!(MetaNode::gen_checksum([255u8; 512]), 512 * 255);
}

#[test]
fn header_read_from_a_sector() {
    let written = MetaNode::new(&file("name", &[0u8; 600])).as_slice();
    let node = MetaNode::from_sector(written);
    assert_eq!(node.file_size(), 600);
    assert_eq!(node.file_sector_length(), 2);
    assert_eq!(node.file_type(), "0");
    assert_eq!(trim_zeros_end(&node.name()), "name");
    // the fields that are not filled in when a header is written out come back as zeros
    assert_eq!(node.owner().0, "\0".repeat(32));
    assert_eq!(node.as_slice(), written);
}

#[test]
fn tar_file_reads_and_writes_bytes() {
    let mut f = TarFile::open("\0x.bin\0\0");
    assert_eq!(f.name(), "x.bin");
    assert_eq!(f.read(), None);
    f.write(1);
    f.write(2);
    f.write_str("AB");
    assert_eq!(f.data(), &vec![1, 2, 65, 66]);
    // single bytes come off the end
    assert_eq!(f.read(), Some(66));
    f.write_all(vec![9, 8]);
    assert_eq!(f.read_all(), vec![1, 2, 65, 9, 8]);
    assert_eq!(f.data().len(), 0);
    assert_eq!(f.read_all(), Vec::<u8>::new());
    assert_eq!(f.name(), "x.bin");
    let created = file_create("new").unwrap();
    assert_eq!(created.name(), "new");
    assert_eq!(created.data().len(), 0);
}

#[test]
fn sectors_of_a_file_start_with_its_header() {
    let data: Vec<u8> = (0..700).map(|i| (i % 200) as u8 + 1).collect();
    let f = file("f.txt", &data);
    let sectors = f.get_sectors();
    assert_eq!(sectors.len(), 3);
    assert_eq!(sectors.get_sector(0).unwrap().data(), MetaNode::new(&f).as_slice());
    assert_eq!(&sectors.get_sector(1).unwrap().data()[..], &data[0..512]);
    assert_eq!(&sectors.get_sector(2).unwrap().data()[..188], &data[512..700]);
    assert_eq!(&sectors.get_sector(2).unwrap().data()[188..], &[0u8; 324][..]);
    assert_eq!(file("empty", &[]).get_sectors().len(), 1);
}

#[test]
fn file_read_back_from_its_header() {
    let data: Vec<u8> = (0..700).map(|i| (i % 200) as u8 + 1).collect();
    let part = partition(&[("a", vec![5u8; 10]), ("b.txt", data.clone()), ("c", vec![6u8; 512])]);
    assert_eq!(part.len(), 2 + 3 + 2);
    let node = MetaNode::from_sector(part.get_sector(2).unwrap().data());
    let back = TarFile::from_metanode(node, &part, 2);
    // one byte more than the size is taken when the last sector has it
    assert_eq!(back.data().len(), 701);
    assert_eq!(&back.data()[..700], &data[..]);
    assert_eq!(back.data()[700], 0);
    assert_eq!(trim_zeros_end(back.name()), "b.txt");
    // a size that fills its sectors leaves no byte over
    let node = MetaNode::from_sector(part.get_sector(5).unwrap().data());
    assert_eq!(TarFile::from_metanode(node, &part, 5).data(), &vec![6u8; 512]);
    // sectors that the partition does not have add nothing
    let node = MetaNode::from_sector(part.get_sector(2).unwrap().data());
    assert_eq!(TarFile::from_metanode(node, &part, 5).data(), &vec![6u8; 512]);
    assert_eq!(TarFile::from_metanode(node, &part, 6).data().len(), 0);
}

#[test]
fn files_of_a_partition() {
    let part = partition(&[("b", vec![1u8; 600]), ("a", vec![2u8; 10])]);
    let files = list_files(&part);
    assert_eq!(files.len(), 2);
    assert_eq!(files[0].0, 0);
    assert_eq!(trim_zeros_end(&files[0].1), "b");
    assert_eq!(files[0].2.file_size(), 600);
    assert_eq!(files[1].0, 3);
    assert_eq!(trim_zeros_end(&files[1].1), "a");
    assert_eq!(list_files(&SectorList::with_capacity(4)).len(), 0);
    // a sector of contents whose byte 156 is the digit 0 is taken for a header
    let mut odd = SectorList::with_capacity(1);
    odd.write(156, b'0');
    assert_eq!(list_files(&odd).len(), 1);
}

#[test]
fn table_of_a_partition_is_ordered_by_name() {
    let part = partition(&[("b", vec![1u8; 600]), ("a", vec![2u8; 10]), ("ab", vec![]), ("B", vec![3u8; 1])]);
    let mut table = FileTable::new(&part);
    assert_eq!(table.len(), 4);
    assert_eq!(table.get("b").unwrap().1, 0);
    assert_eq!(table.get("a").unwrap().1, 3);
    assert_eq!(table.get("ab").unwrap().1, 5);
    assert_eq!(table.get("B").unwrap().1, 6);
    assert_eq!(table.get("b").unwrap().0.file_size(), 600);
    assert!(table.get("c").is_none());
    assert!(table.get("").is_none());
    assert!(table.contains_key("ab"));
    assert!(!table.contains_key("abc"));
    assert!(file_exists(&table, "a"));
    assert!(!file_exists(&table, "A"));
    assert_eq!(table.next_free_block(), 0);
    // the sectors are written out in the order of the names: B, a, ab, b
    let sector = table.to_sector();
    let mut expected = [0u8; 512];
    expected[5..13].copy_from_slice(&[0, 6, 0, 3, 0, 5, 0, 0]);
    assert_eq!(sector.data(), expected);
    assert_eq!(sector.index(), 0);
    assert_eq!(table.len(), 4);
}

#[test]
fn a_name_that_occurs_twice_keeps_its_last_header() {
    let part = partition(&[("a", vec![1u8; 5]), ("a", vec![2u8; 700])]);
    let table = FileTable::new(&part);
    assert_eq!(table.len(), 1);
    assert_eq!(table.get("a").unwrap().1, 2);
    assert_eq!(table.get("a").unwrap().0.file_size(), 700);
}

#[test]
fn table_read_from_a_sector() {
    let part = partition(&[("b", vec![1u8; 600]), ("a", vec![2u8; 10])]);
    let mut listing = Sector::new(0);
    // slot 0 names sector 3, slot 1 is empty, slot 2 names a sector that is not there,
    // slot 63 names sector 0 of the partition, which a slot cannot name, and so is empty
    listing.write(0, 0);
    listing.write(1, 3);
    listing.write(4, 1);
    listing.write(5, 0);
    let table = FileTable::from_sector(&listing, &part);
    assert_eq!(table.len(), 1);
    assert_eq!(table.get("a").unwrap().1, 3);
    // slots past the 64th are not read
    let mut late = Sector::new(0);
    late.write(129, 3);
    assert_eq!(FileTable::from_sector(&late, &part).len(), 0);
    let mut both = Sector::new(0);
    both.write(1, 3);
    both.write(127, 3);
    assert_eq!(FileTable::from_sector(&both, &part).len(), 1);
}

#[test]
fn search_and_open() {
    let data: Vec<u8> = (0..100).collect();
    let part = partition(&[("x", data.clone()), ("y", vec![])]);
    let table = FileTable::new(&part);
    let x = search(&table, &part, "x").unwrap();
    assert_eq!(&x.data()[..100], &data[..]);
    assert_eq!(x.data().len(), 101);
    assert!(search(&table, &part, "z").is_none());
    let y = open_file(&table, &part, "y").unwrap();
    assert_eq!(y.data().len(), 0);
    assert_eq!(trim_zeros_end(y.name()), "y");
    // a file that is not there is opened empty
    let z = open_file(&table, &part, "z").unwrap();
    assert_eq!(z.name(), "z");
    assert_eq!(z.data().len(), 0);
}

#[test]
fn partitions_go_to_disk_and_back() {
    let mut ata = Ata::new();
    assert!(ata.attach(1, 1, "ARCHIVE".to_string(), 16));
    let part = partition(&[("a", vec![7u8; 600])]);
    save_fs(&mut ata, 1, 1, &part, 2);
    let back = load_fs(&ata, 1, 1, 6);
    assert_eq!(back.len(), 6);
    assert!(*back.get_sector(0).unwrap() == Sector::new(0));
    for i in 0..3usize {
        assert_eq!(back.get_sector(2 + i).unwrap().data(), part.get_sector(i).unwrap().data());
        assert_eq!(back.get_sector(2 + i).unwrap().index(), 2 + i as u32);
    }
    assert!(*back.get_sector(5).unwrap() == Sector::new(5));
    // sectors that the drive does not have stay as they were made
    let long = load_fs(&ata, 1, 1, 20);
    assert_eq!(long.len(), 20);
    assert!(*long.get_sector(19).unwrap() == Sector::new(19));
    assert_eq!(load_fs(&ata, 0, 0, 2).len(), 2);
}

#[test]
fn close_stores_the_file_on_the_archive_drive() {
    let mut ata = Ata::new();
    assert!(ata.attach(1, 1, "ARCHIVE".to_string(), 16));
    let mut f = file("a", &[9u8; 10]);
    f.close(&mut ata, 4);
    let back = load_fs(&ata, 1, 1, 8);
    assert_eq!(back.get_sector(4).unwrap().data(), MetaNode::new(&f).as_slice());
    assert_eq!(&back.get_sector(5).unwrap().data()[..10], &[9u8; 10]);
    assert!(*back.get_sector(3).unwrap() == Sector::new(3));
    assert!(*back.get_sector(6).unwrap() == Sector::new(6));
    assert_eq!(f.data(), &vec![9u8; 10]);
}
