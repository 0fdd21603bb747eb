use tinix::boot::{Arguments, InitError};
use tinix::graphics::{font_width, Color, Image16};
use tinix::input::KeyBoard;
use tinix::programs::{copy_boot_sectors, install_to};
use tinix::ata::Ata;
use tinix::file_systems::{get_disk, get_sector, is_range_empty, set_sector};
use tinix::sector::Sector;

#[test]
fn typed_keys_wait_in_order() {
    let mut keyboard = KeyBoard::new();
    assert_eq!(keyboard.last_key(), None);
    // scancode set 1: 0x23 is H, 0x17 is I; 0x80 more is the key going up
    for scancode in [0x23u8, 0xA3, 0x17, 0x97] {
        keyboard.process_scancode(scancode);
    }
    assert_eq!(keyboard.last_key(), Some('h'));
    assert_eq!(keyboard.last_key(), Some('i'));
    assert_eq!(keyboard.last_key(), None);
}

#[test]
fn shift_changes_what_a_key_types() {
    let mut keyboard = KeyBoard::new();
    // left shift down, H down, H up, left shift up, H down
    for scancode in [0x2Au8, 0x23, 0xA3, 0xAA, 0x23] {
        keyboard.process_scancode(scancode);
    }
    assert_eq!(keyboard.last_key(), Some('H'));
    assert_eq!(keyboard.last_key(), Some('h'));
    assert_eq!(keyboard.last_key(), None);
}

#[test]
fn keys_that_type_nothing_leave_the_queue_alone() {
    let mut keyboard = KeyBoard::new();
    // an extended prefix, a key going up, and the F1 key
    for scancode in [0xE0u8, 0x48, 0x9E, 0x3B] {
        keyboard.process_scancode(scancode);
    }
    assert_eq!(keyboard.last_key(), None);
    keyboard.record(Some('x'));
    keyboard.record(None);
    keyboard.record(Some('y'));
    assert_eq!(keyboard.last_key(), Some('x'));
    assert_eq!(keyboard.last_key(), Some('y'));
}

#[test]
fn arguments() {
    let none = Arguments::empty();
    assert_eq!(none.parent(), "none");
    assert!(none.args().is_none());
    assert_eq!(none.arg_count(), 0);
    let some = Arguments::new("shell".to_string(), Some(vec!["-a".to_string(), "b".to_string()]));
    assert_eq!(some.parent(), "shell");
    assert_eq!(some.arg_count(), 2);
    assert_eq!(some.args().as_ref().unwrap()[1], "b");
    assert_eq!(Arguments::new(String::new(), Some(Vec::new())).arg_count(), 0);
    assert_eq!(InitError::new("no disk").message(), "no disk");
}

#[test]
fn picture_colours() {
    let raw = [3u8, 2, 0, 1, 2, 16, 17, 255];
    let image = Image16::from(&raw);
    assert_eq!(image.width(), 3);
    assert_eq!(image.height(), 2);
    assert_eq!(image.color_at(0, 0), Some(Color::Black));
    assert_eq!(image.color_at(2, 0), Some(Color::Green));
    assert_eq!(image.color_at(0, 1), Some(Color::Black));
    assert_eq!(image.color_at(1, 1), Some(Color::Blue));
    assert_eq!(image.color_at(2, 1), Some(Color::White));
    assert_eq!(image.color_at(3, 0), None);
    assert_eq!(image.color_at(0, 2), None);
    // a picture that is cut short has no colour for the points that are missing
    let short = Image16::from(&[2u8, 2, 7]);
    assert_eq!(short.color_at(0, 0), Some(Color::LightGrey));
    for n in 0..=255u8 {
        assert_eq!(Color::from_code(n).code(), n % 16);
    }
    assert_eq!(Color::Yellow.code(), 14);
    assert_eq!(short.color_at(1, 0), None);
    assert_eq!(font_width(), 8);
}

#[test]
fn boot_sectors_are_copied_to_the_boot_drive() {
    let mut ata = Ata::new();
    assert!(ata.attach(0, 1, "BOOT".to_string(), 64));
    assert!(ata.attach(1, 0, "OTHER".to_string(), 32));
    let boot = get_disk(&ata, 0, 1).unwrap();
    let other = get_disk(&ata, 1, 0).unwrap();
    for block in 0..32u32 {
        let mut s = Sector::new(block);
        s.write(0, block as u8 + 1);
        set_sector(&mut ata, &other, block, &s);
    }
    let mut mark = Sector::new(40);
    mark.write(0, 0xEE);
    set_sector(&mut ata, &boot, 40, &mark);
    assert!(copy_boot_sectors(&mut ata, &other));
    for block in 0..32u32 {
        assert_eq!(get_sector(&ata, &boot, block).read(0), block as u8 + 1);
    }
    // blocks that the other drive does not have are copied as zeros
    assert!(is_range_empty(&ata, &boot, 32..64));
    // installing wipes the drive first, so that zeros are what is copied
    assert!(install_to(&mut ata, &other));
    assert!(is_range_empty(&ata, &other, 0..32));
    assert!(is_range_empty(&ata, &boot, 0..64));
    let mut alone = Ata::new();
    assert!(alone.attach(1, 0, "OTHER".to_string(), 4));
    let disk = get_disk(&alone, 1, 0).unwrap();
    assert!(!copy_boot_sectors(&mut alone, &disk));
}
