use tinix::sector::Sector;
use tinix::sector_list::SectorList;

#[test]
fn new_sector_is_zeroed_and_keeps_its_address() {
    let s = Sector::new(9);
    assert_eq!(s.index(), 9);
    assert_eq!(s.data(), [0u8; 512]);
}

#[test]
fn sector_write_then_read() {
    let mut s = Sector::new(3);
    s.write(0, 0x11);
    s.write(511, 0x22);
    assert_eq!(s.read(0), 0x11);
    assert_eq!(s.read(511), 0x22);
    assert_eq!(s.read(1), 0);
    assert_eq!(s.index(), 3);
}

#[test]
fn sector_data_mut_changes_the_sector() {
    let mut s = Sector::new(4);
    s.data_mut()[17] = 0x5A;
    assert_eq!(s.read(17), 0x5A);
    assert_eq!(s.index(), 4);
}

#[test]
fn sector_equality_looks_at_address_and_bytes() {
    let a = Sector::new(1);
    let mut b = Sector::new(1);
    assert!(a == b);
    assert!(a != Sector::new(2));
    b.write(100, 1);
    assert!(a != b);
    let mut c = Sector::new(1);
    *c.data_mut() = b.data();
    assert!(c == b);
}

#[test]
fn write_then_read_gives_the_byte_back() {
    for &address in &[0usize, 1, 511, 512, 700, 5000] {
        for &byte in &[0u8, 1, 0x7F, 0x80, 0xFF] {
            let mut list = SectorList::new();
            list.write(address, byte);
            assert_eq!(list.read(address), Some(byte));
        }
    }
}

#[test]
fn read_past_the_end_finds_nothing() {
    let mut list = SectorList::new();
    assert_eq!(list.read(0), None);
    list.write(0, 1);
    assert_eq!(list.read(511), Some(0));
    assert_eq!(list.read(512), None);
    assert_eq!(list.read(usize::MAX), None);
}

#[test]
fn write_grows_by_exactly_the_sectors_needed() {
    let mut list = SectorList::new();
    list.write(10, 7);
    assert_eq!(list.len(), 1);
    // address 2100 lies in sector 4: sectors 1, 2, 3 and 4 are added
    list.write(2100, 9);
    assert_eq!(list.len(), 5);
    for address in 512..2560usize {
        let expected = if address == 2100 { 9 } else { 0 };
        assert_eq!(list.read(address), Some(expected));
    }
    assert_eq!(list.read(10), Some(7));
    // the new sectors carry their position as address
    for i in 0..5usize {
        assert_eq!(list.get_sector(i).unwrap().index(), i as u32);
    }
    // a write inside the list does not grow it
    list.write(600, 1);
    assert_eq!(list.len(), 5);
}

#[test]
fn with_capacity_makes_fresh_sectors() {
    let list = SectorList::with_capacity(3);
    assert_eq!(list.len(), 3);
    for i in 0..3usize {
        assert!(*list.get_sector(i).unwrap() == Sector::new(i as u32));
    }
    assert!(list.get_sector(3).is_none());
    assert_eq!(SectorList::with_capacity(0).len(), 0);
}

#[test]
fn u16_is_stored_most_significant_byte_first() {
    let mut list = SectorList::new();
    list.write_u16(510, 0xABCD);
    assert_eq!(list.read_u8(510), Some(0xAB));
    assert_eq!(list.read_u8(511), Some(0xCD));
    assert_eq!(list.read_u16(510), Some(0xABCD));
    assert_eq!(list.len(), 1);
}

#[test]
fn u32_round_trip_and_byte_order() {
    for &v in &[0u32, 1, 0x1234_5678, 0xDEAD_BEEF, u32::MAX] {
        let mut list = SectorList::new();
        // the value straddles the boundary between sector 0 and sector 1
        list.write_u32(510, v);
        assert_eq!(list.read_u32(510), Some(v));
        assert_eq!(list.read_u8(510), Some((v >> 24) as u8));
        assert_eq!(list.read_u8(511), Some((v >> 16) as u8));
        assert_eq!(list.read_u8(512), Some((v >> 8) as u8));
        assert_eq!(list.read_u8(513), Some(v as u8));
        assert_eq!(list.len(), 2);
    }
}

#[test]
fn u64_round_trip_and_byte_order() {
    let v = 0x0102_0304_0506_0708u64;
    let mut list = SectorList::new();
    list.write_u64(3, v);
    assert_eq!(list.read_u64(3), Some(v));
    for k in 0..8usize {
        assert_eq!(list.read_u8(3 + k), Some(k as u8 + 1));
    }
    assert_eq!(list.read_u32(3), Some(0x0102_0304));
    assert_eq!(list.read_u32(7), Some(0x0506_0708));
    assert_eq!(list.read_u16(5), Some(0x0304));
}

#[test]
fn typed_reads_need_every_byte() {
    let mut list = SectorList::new();
    list.write(0, 1);
    assert_eq!(list.read_u16(510), Some(0));
    assert_eq!(list.read_u16(511), None);
    assert_eq!(list.read_u32(508), Some(0));
    assert_eq!(list.read_u32(509), None);
    assert_eq!(list.read_u64(504), Some(0));
    assert_eq!(list.read_u64(505), None);
    assert_eq!(list.read_u16(usize::MAX), None);
    assert_eq!(list.read_u32(usize::MAX - 2), None);
    assert_eq!(list.read_u64(usize::MAX - 6), None);
}

#[test]
fn write_slice_stores_bytes_in_order() {
    let mut list = SectorList::new();
    list.write_slice(&[1, 2, 3, 4, 5], 1022);
    assert_eq!(list.len(), 3);
    assert_eq!(list.read(1021), Some(0));
    for k in 0..5usize {
        assert_eq!(list.read(1022 + k), Some(k as u8 + 1));
    }
    list.write_slice(&[], 9000);
    assert_eq!(list.len(), 3);
}

#[test]
fn write_asciiz_leaves_out_characters_above_tilde() {
    let mut list = SectorList::new();
    let text = "ab\u{80}cd\u{7f}e~".to_string();
    let written = list.write_asciiz(4, text);
    // U+0080 and U+007F are dropped, the rest is written without a gap
    assert_eq!(written, 6);
    let expected = b"abcde~";
    for (k, byte) in expected.iter().enumerate() {
        assert_eq!(list.read(4 + k), Some(*byte));
    }
    assert_eq!(list.read(4 + 6), Some(0));
}

#[test]
fn write_asciiz_of_nothing_writes_nothing() {
    let mut list = SectorList::new();
    assert_eq!(list.write_asciiz(0, String::new()), 0);
    assert_eq!(list.len(), 0);
    assert_eq!(list.write_asciiz(0, "\u{e9}\u{4e16}".to_string()), 0);
    assert_eq!(list.len(), 0);
}

#[test]
fn read_until_null_stops_at_zero_or_at_the_end() {
    let mut list = SectorList::new();
    list.write_slice(b"hello\0world", 10);
    assert_eq!(list.read_until_null(10), b"hello".to_vec());
    assert_eq!(list.read_until_null(16), b"world".to_vec());
    assert_eq!(list.read_until_null(15), Vec::<u8>::new());
    assert_eq!(list.read_until_null(4000), Vec::<u8>::new());
    // a text that runs to the end of the list
    let mut full = SectorList::new();
    full.write_slice(&[b'x'; 512], 0);
    assert_eq!(full.read_until_null(500), vec![b'x'; 12]);
}

#[test]
fn read_asciiz_reads_one_character_per_byte() {
    let mut list = SectorList::new();
    list.write_slice(&[b'H', b'i', 0xE9, 0], 0);
    assert_eq!(list.read_asciiz(0), "Hi\u{e9}");
    let before = list.clone();
    assert_eq!(list.read_asciiz(1), "i\u{e9}");
    assert!(list == before);
}

#[test]
fn get_and_set_sector() {
    let mut list = SectorList::with_capacity(2);
    let mut s = Sector::new(77);
    s.write(5, 5);
    assert_eq!(list.set_sector(1, s), Ok(()));
    assert!(*list.get_sector(1).unwrap() == s);
    assert_eq!(list.read(512 + 5), Some(5));
    assert_eq!(list.set_sector(2, s), Err("Sector Index Out Of Range"));
    assert_eq!(list.len(), 2);
    assert_eq!(list.get_sector_begin(), 0);
    assert_eq!(list.sectors().len(), 2);
}

#[test]
fn add_sector_appends_a_copy() {
    let mut list = SectorList::new();
    let mut s = Sector::new(40);
    s.write(0, 9);
    list.add_sector(&s);
    list.add_sector(&Sector::new(41));
    assert_eq!(list.len(), 2);
    assert_eq!(list.get_sector_begin(), 40);
    assert_eq!(list.read(0), Some(9));
    assert_eq!(list.get_sector(1).unwrap().index(), 41);
}

#[test]
fn sectors_mut_gives_the_sectors() {
    let mut list = SectorList::with_capacity(1);
    list.sectors_mut().push(Sector::new(9));
    assert_eq!(list.len(), 2);
    assert_eq!(list.get_sector(1).unwrap().index(), 9);
}

#[test]
fn append_moves_the_other_list_to_the_end() {
    let mut a = SectorList::new();
    a.write(0, 1);
    let mut b = SectorList::new();
    b.write(0, 2);
    b.write(512, 3);
    let joined = a.append(&mut b).clone();
    assert_eq!(joined.len(), 3);
    assert_eq!(a.len(), 3);
    assert_eq!(b.len(), 0);
    assert_eq!(a.read(0), Some(1));
    assert_eq!(a.read(512), Some(2));
    assert_eq!(a.read(1024), Some(3));
}

#[test]
fn prepend_moves_this_list_to_the_end_of_the_other() {
    let mut a = SectorList::new();
    a.write(0, 1);
    let mut b = SectorList::new();
    b.write(0, 2);
    let joined = a.prepend(&mut b).clone();
    assert_eq!(joined.len(), 2);
    assert_eq!(a.len(), 0);
    assert_eq!(b.read(0), Some(2));
    assert_eq!(b.read(512), Some(1));
}

#[test]
fn lists_are_equal_when_their_sectors_are() {
    let mut a = SectorList::new();
    let mut b = SectorList::new();
    assert!(a == b);
    a.write(3, 3);
    assert!(a != b);
    b.write(3, 3);
    assert!(a == b);
    b.write(600, 0);
    assert!(a != b);
}

#[test]
fn write_u32_changes_its_four_bytes_and_no_other() {
    let mut list = SectorList::new();
    for address in 0..1024usize {
        list.write_u8(address, (address % 251) as u8 + 1);
    }
    // across the border between the two sectors
    list.write_u32(510, 0xA1B2_C3D4);
    assert_eq!(list.read_u32(510), Some(0xA1B2_C3D4));
    assert_eq!(list.len(), 2);
    for address in 0..1024usize {
        let expected = match address {
            510 => 0xA1,
            511 => 0xB2,
            512 => 0xC3,
            513 => 0xD4,
            _ => (address % 251) as u8 + 1,
        };
        assert_eq!(list.read_u8(address), Some(expected));
    }
    for value in [0u32, 1, 0xFF, 0x100, 0x7FFF_FFFF, 0x8000_0000, u32::MAX, 0x0102_0304] {
        list.write_u32(20, value);
        assert_eq!(list.read_u32(20), Some(value));
        assert_eq!(list.read_u8(20), Some((value >> 24) as u8));
        assert_eq!(list.read_u8(21), Some((value >> 16) as u8));
        assert_eq!(list.read_u8(22), Some((value >> 8) as u8));
        assert_eq!(list.read_u8(23), Some(value as u8));
        assert_eq!(list.read_u8(19), Some(20));
        assert_eq!(list.read_u8(24), Some(25));
    }
}
