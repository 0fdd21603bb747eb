//! Files in the tape-archive format: every file is a header sector, which names the file and
//! gives its size in octal digits, followed by the sectors of its contents.

use vstd::prelude::*;
use vstd::string::{StrSliceExecFns, StringSliceAdditionalSpecFns};
use vstd::utf8::encode_utf8;
use crate::io::{File, IoReader, IoWriter};
use crate::ata::Ata;
use crate::codec::push_char;
use crate::sector::{Sector, SectorView};
use crate::sector_list::{written_all, SectorList};

verus! {

/// Where the number of entries stands in the sector that lists the files.
pub const FILE_TABLE_ENTRY_COUNT_INDEX: usize = 0x005;

/// The byte `b` is one of the digits `0` to `7`.
pub open spec fn is_octal_digit(b: u8) -> bool {
    0x30 <= b <= 0x37
}

/// `digits` is a number in octal digits: at least one digit and nothing else.
pub open spec fn is_octal(digits: Seq<u8>) -> bool {
    &&& digits.len() > 0
    &&& forall|i: int| 0 <= i < digits.len() ==> is_octal_digit(#[trigger] digits[i])
}

/// The number that octal digits stand for, most significant digit first.
pub open spec fn octal_value(digits: Seq<u8>) -> nat
    decreases digits.len(),
{
    if digits.len() == 0 {
        0
    } else {
        (octal_value(digits.drop_last()) * 8 + (digits.last() - 0x30)) as nat
    }
}

/// The last `width` octal digits of `value`, most significant first, with zeros in front of
/// a number that needs fewer.
pub open spec fn octal_field(value: nat, width: nat) -> Seq<u8>
    decreases width,
{
    if width == 0 {
        Seq::empty()
    } else {
        octal_field(value / 8, (width - 1) as nat).push((0x30 + value % 8) as u8)
    }
}

/// `value` can be written in `width` octal digits.
pub open spec fn fits_octal(value: nat, width: nat) -> bool
    decreases width,
{
    if width == 0 {
        value == 0
    } else {
        fits_octal(value / 8, (width - 1) as nat)
    }
}

/// `buffer` with the bytes of `src` laid over it from `start` on.
pub open spec fn placed(buffer: Seq<u8>, start: int, src: Seq<u8>) -> Seq<u8> {
    Seq::new(
        buffer.len(),
        |i: int|
            if start <= i < start + src.len() {
                src[i - start]
            } else {
                buffer[i]
            },
    )
}

/// The bytes of `text`, then zeros up to `width` bytes.
pub open spec fn padded_to(text: Seq<u8>, width: nat) -> Seq<u8> {
    Seq::new(
        width,
        |i: int|
            if i < text.len() {
                text[i]
            } else {
                0u8
            },
    )
}

/// The sum of the bytes.
pub open spec fn byte_sum(bytes: Seq<u8>) -> nat
    decreases bytes.len(),
{
    if bytes.len() == 0 {
        0
    } else {
        byte_sum(bytes.drop_last()) + bytes.last() as nat
    }
}

/// The characters that bytes read as, one for each byte.
pub open spec fn as_chars(bytes: Seq<u8>) -> Seq<char> {
    Seq::new(bytes.len(), |i: int| bytes[i] as char)
}

/// The digits of a field are octal digits, and the field holds as many as were asked for.
pub proof fn lemma_octal_field(value: nat, width: nat)
    ensures
        octal_field(value, width).len() == width,
        forall|i: int| 0 <= i < width ==> is_octal_digit(#[trigger] octal_field(value, width)[i]),
        fits_octal(value, width) ==> octal_value(octal_field(value, width)) == value,
    decreases width,
{
    if width > 0 {
        lemma_octal_field(value / 8, (width - 1) as nat);
        let field = octal_field(value, width);
        assert(field.drop_last() =~= octal_field(value / 8, (width - 1) as nat));
    }
}

/// The number that the first digits stand for is no larger than the number that all of them
/// stand for.
pub proof fn lemma_octal_prefix(digits: Seq<u8>, upto: int)
    requires
        0 <= upto <= digits.len(),
        forall|i: int| 0 <= i < digits.len() ==> is_octal_digit(#[trigger] digits[i]),
    ensures
        octal_value(digits.take(upto)) <= octal_value(digits),
    decreases digits.len() - upto,
{
    if upto < digits.len() {
        lemma_octal_prefix(digits, upto + 1);
        assert(digits.take(upto + 1).drop_last() =~= digits.take(upto));
        assert(is_octal_digit(digits[upto]));
    } else {
        assert(digits.take(upto) =~= digits);
    }
}

/// The sum of `n` bytes is at most `255 * n`.
pub proof fn lemma_byte_sum_bound(bytes: Seq<u8>)
    ensures
        byte_sum(bytes) <= 255 * bytes.len(),
    decreases bytes.len(),
{
    if bytes.len() > 0 {
        lemma_byte_sum_bound(bytes.drop_last());
    }
}

/// Whether `digits` is a number in octal digits.
pub fn octal_digits(digits: &[u8]) -> (r: bool)
    ensures
        r == is_octal(digits@),
{
    if digits.len() == 0 {
        return false;
    }
    let mut i: usize = 0;
    while i < digits.len()
        invariant
            i <= digits@.len(),
            forall|j: int| 0 <= j < i ==> is_octal_digit(#[trigger] digits@[j]),
        decreases digits@.len() - i,
    {
        if digits[i] < 0x30 || digits[i] > 0x37 {
            return false;
        }
        i += 1;
    }
    true
}

/// A number can be written in `width` octal digits exactly when it is below 8 to the power
/// of `width`.
pub proof fn lemma_fits_octal(value: nat, width: nat)
    ensures
        fits_octal(value, width) <==> value < eight_to(width),
    decreases width,
{
    if width > 0 {
        lemma_fits_octal(value / 8, (width - 1) as nat);
    }
}

/// The number that the octal digits of `digits` stand for.
pub fn octal_number(digits: &[u8]) -> (n: usize)
    requires
        is_octal(digits@),
        octal_value(digits@) <= usize::MAX,
    ensures
        n == octal_value(digits@),
{
    let mut n: usize = 0;
    let mut i: usize = 0;
    assert(digits@.take(0) =~= Seq::<u8>::empty());
    while i < digits.len()
        invariant
            i <= digits@.len(),
            is_octal(digits@),
            octal_value(digits@) <= usize::MAX,
            n == octal_value(digits@.take(i as int)),
        decreases digits@.len() - i,
    {
        proof {
            lemma_octal_prefix(digits@, i as int + 1);
            assert(digits@.take(i as int + 1).drop_last() =~= digits@.take(i as int));
            assert(is_octal_digit(digits@[i as int]));
        }
        n = n * 8 + (digits[i] - 0x30) as usize;
        i += 1;
    }
    assert(digits@.take(i as int) =~= digits@);
    n
}

/// The number that the octal digits of `value` stand for.
pub fn oct2bin(value: &str) -> (n: usize)
    requires
        is_octal(value.spec_bytes()),
        octal_value(value.spec_bytes()) <= usize::MAX,
    ensures
        n == octal_value(value.spec_bytes()),
{
    octal_number(value.as_bytes())
}

/// Fills `dest` with the octal digits of `value`, zeros in front.
pub fn octal_into(value: usize, dest: &mut [u8])
    requires
        fits_octal(value as nat, old(dest)@.len()),
    ensures
        final(dest)@ == octal_field(value as nat, old(dest)@.len()),
{
    let width = dest.len();
    let mut i: usize = width;
    let mut v: usize = value;
    proof {
        lemma_octal_field(value as nat, width as nat);
        assert(octal_field(value as nat, width as nat).take(width as int) =~= octal_field(value as nat, width as nat));
    }
    while i > 0
        invariant
            i <= width,
            dest@.len() == width,
            octal_field(value as nat, width as nat).len() == width,
            octal_field(value as nat, width as nat).take(i as int) == octal_field(v as nat, i as nat),
            forall|j: int| i <= j < width ==> dest@[j] == octal_field(value as nat, width as nat)[j],
        decreases i,
    {
        let ghost field = octal_field(value as nat, width as nat);
        proof {
            let prefix = octal_field(v as nat, i as nat);
            assert(prefix == octal_field((v / 8) as nat, (i - 1) as nat).push((0x30 + v % 8) as u8));
            assert(field[i as int - 1] == prefix[i as int - 1]);
            assert(field.take(i as int - 1) =~= prefix.drop_last());
            assert(prefix.drop_last() =~= octal_field((v / 8) as nat, (i - 1) as nat));
        }
        dest[i - 1] = 0x30 + (v % 8) as u8;
        v = v / 8;
        i -= 1;
    }
    assert(dest@ =~= octal_field(value as nat, width as nat));
}

/// Lays the bytes of `src` over `dest` from `start` on. The bytes must end before `dest`
/// does.
pub fn insert_slice(src: &[u8], dest: &mut [u8], start: usize)
    requires
        src@.len() + start < old(dest)@.len(),
    ensures
        final(dest)@ == placed(old(dest)@, start as int, src@),
{
    let _ = dest.len();
    let mut i: usize = start;
    while i < start + src.len()
        invariant
            start <= i <= start + src@.len(),
            src@.len() + start < dest@.len() <= usize::MAX,
            dest@.len() == old(dest)@.len(),
            forall|j: int| start <= j < i ==> dest@[j] == src@[j - start],
            forall|j: int| 0 <= j < dest@.len() && !(start <= j < i) ==> dest@[j] == old(dest)@[j],
        decreases start + src@.len() - i,
    {
        dest[i] = src[i - start];
        i += 1;
    }
    assert(dest@ =~= placed(old(dest)@, start as int, src@));
}

/// Fills `dest` with the bytes of `src` from `start` on.
fn fill(dest: &mut [u8], src: &[u8], start: usize)
    requires
        start + old(dest)@.len() <= src@.len(),
    ensures
        final(dest)@ == src@.subrange(start as int, start + old(dest)@.len()),
{
    let _ = src.len();
    let n = dest.len();
    let mut i: usize = 0;
    while i < n
        invariant
            i <= n,
            n == dest@.len(),
            start + n <= src@.len() <= usize::MAX,
            forall|j: int| 0 <= j < i ==> dest@[j] == src@[start + j],
        decreases n - i,
    {
        dest[i] = src[start + i];
        i += 1;
    }
    assert(dest@ =~= src@.subrange(start as int, start + n));
}

/// Fills `dest` with the bytes of `text`, then zeros. The text must not be longer than
/// `dest`.
fn fill_text(dest: &mut [u8], text: &[u8])
    requires
        text@.len() <= old(dest)@.len(),
    ensures
        final(dest)@ == padded_to(text@, old(dest)@.len()),
{
    let n = dest.len();
    let mut i: usize = 0;
    while i < n
        invariant
            i <= n,
            n == dest@.len(),
            text@.len() <= n,
            forall|j: int| 0 <= j < i ==> dest@[j] == padded_to(text@, n as nat)[j],
        decreases n - i,
    {
        dest[i] = if i < text.len() {
            text[i]
        } else {
            0
        };
        i += 1;
    }
    assert(dest@ =~= padded_to(text@, n as nat));
}

/// The text that bytes read as, one character for each byte.
pub fn text_of(bytes: &[u8]) -> (s: String)
    ensures
        s@ == as_chars(bytes@),
{
    let mut s = String::new();
    let mut i: usize = 0;
    while i < bytes.len()
        invariant
            i <= bytes@.len(),
            s@ == as_chars(bytes@.take(i as int)),
        decreases bytes@.len() - i,
    {
        push_char(&mut s, bytes[i] as char);
        i += 1;
        assert(s@ =~= as_chars(bytes@.take(i as int)));
    }
    assert(bytes@.take(i as int) =~= bytes@);
    s
}

/// The mathematical value of a [`MetaNode`].
pub struct MetaNodeView {
    pub name: Seq<u8>,
    pub mode: Seq<u8>,
    pub owner_id: Seq<u8>,
    pub group_id: Seq<u8>,
    pub file_size: Seq<u8>,
    pub modif_time: Seq<u8>,
    pub checksum: Seq<u8>,
    pub file_type: Seq<u8>,
    pub linked_name: Seq<u8>,
    pub magic_id: Seq<u8>,
    pub magic_version: Seq<u8>,
    pub owner_name: Seq<u8>,
    pub group_name: Seq<u8>,
    pub device_major: Seq<u8>,
    pub device_minor: Seq<u8>,
    pub name_prefix: Seq<u8>,
    pub usable: Seq<u8>,
    pub padding: Seq<u8>,
}

/// The header that the 512 bytes of a sector stand for.
pub open spec fn parsed(sector: Seq<u8>) -> MetaNodeView {
    MetaNodeView {
        name: sector.subrange(0, 100),
        mode: sector.subrange(100, 108),
        owner_id: sector.subrange(108, 116),
        group_id: sector.subrange(116, 124),
        file_size: sector.subrange(124, 136),
        modif_time: sector.subrange(136, 148),
        checksum: sector.subrange(148, 156),
        file_type: sector.subrange(156, 157),
        linked_name: sector.subrange(157, 257),
        magic_id: sector.subrange(257, 263),
        magic_version: sector.subrange(263, 265),
        owner_name: sector.subrange(265, 297),
        group_name: sector.subrange(297, 329),
        device_major: sector.subrange(329, 337),
        device_minor: sector.subrange(337, 345),
        name_prefix: sector.subrange(345, 500),
        usable: seq![1u8],
        padding: Seq::new(11, |i: int| 0u8),
    }
}

/// The header of a new file called `name` that holds `size` bytes.
pub open spec fn new_header(name: Seq<u8>, size: nat) -> MetaNodeView {
    MetaNodeView {
        name: padded_to(name, 100),
        mode: octal_field(0, 8),
        owner_id: octal_field(0, 8),
        group_id: octal_field(0, 8),
        file_size: octal_field(size, 12),
        modif_time: octal_field(0, 12),
        checksum: octal_field(0, 8),
        file_type: seq![0x30u8],
        linked_name: padded_to(name, 100),
        magic_id: seq![0x55u8, 0x53u8, 0x54u8, 0x41u8, 0x52u8, 0u8],
        magic_version: seq![0x30u8, 0x30u8],
        owner_name: padded_to(seq![0x55u8, 0x4Eu8, 0x4Bu8], 32),
        group_name: octal_field(0, 32),
        device_major: octal_field(0, 8),
        device_minor: octal_field(0, 8),
        name_prefix: Seq::new(155, |i: int| 0u8),
        usable: seq![1u8],
        padding: Seq::new(11, |i: int| 0u8),
    }
}

/// The bytes of a header before its checksum is filled in: the name at 0, the size at 124,
/// the type at 156, the magic word at 257 and its version at 263. Every other byte is zero.
pub open spec fn header_base(v: MetaNodeView) -> Seq<u8> {
    placed(
        placed(
            placed(placed(placed(Seq::new(512, |i: int| 0u8), 0, v.name), 156, v.file_type), 124, v.file_size),
            257,
            v.magic_id,
        ),
        263,
        v.magic_version,
    )
}

/// The 512 bytes of a header as it is written out: the bytes of `header_base`, with their sum
/// in eight octal digits at 148.
pub open spec fn header_bytes(v: MetaNodeView) -> Seq<u8> {
    placed(header_base(v), 148, octal_field(byte_sum(header_base(v)), 8))
}

/// The number of sectors that `size` bytes take.
pub open spec fn sectors_for(size: nat) -> nat {
    if size % 512 > 0 {
        size / 512 + 1
    } else {
        size / 512
    }
}

/// The header of a file in an archive.
#[derive(Debug, Clone, Copy)]
pub struct MetaNode {
    name: [u8; 100],
    mode: [u8; 8],
    owner_id: [u8; 8],
    group_id: [u8; 8],
    file_size: [u8; 12],
    modif_time: [u8; 12],
    checksum: [u8; 8],
    file_type: [u8; 1],
    linked_name: [u8; 100],
    magic_id: [u8; 6],
    magic_version: [u8; 2],
    owner_name: [u8; 32],
    group_name: [u8; 32],
    device_major: [u8; 8],
    device_minor: [u8; 8],
    name_prefix: [u8; 155],
    usable: [u8; 1],
    padding: [u8; 11],
}

impl View for MetaNode {
    type V = MetaNodeView;

    closed spec fn view(&self) -> MetaNodeView {
        MetaNodeView {
            name: self.name@,
            mode: self.mode@,
            owner_id: self.owner_id@,
            group_id: self.group_id@,
            file_size: self.file_size@,
            modif_time: self.modif_time@,
            checksum: self.checksum@,
            file_type: self.file_type@,
            linked_name: self.linked_name@,
            magic_id: self.magic_id@,
            magic_version: self.magic_version@,
            owner_name: self.owner_name@,
            group_name: self.group_name@,
            device_major: self.device_major@,
            device_minor: self.device_minor@,
            name_prefix: self.name_prefix@,
            usable: self.usable@,
            padding: self.padding@,
        }
    }
}

impl MetaNode {
    /// Every field of a header has its fixed length.
    pub broadcast proof fn lemma_lengths(self)
        ensures
            #![trigger self@]
            self@.name.len() == 100,
            self@.owner_id.len() == 8,
            self@.group_id.len() == 8,
            self@.file_size.len() == 12,
            self@.file_type.len() == 1,
            self@.magic_id.len() == 6,
            self@.magic_version.len() == 2,
            self@.owner_name.len() == 32,
            self@.group_name.len() == 32,
    {
    }

    /// Reads the header that a sector holds.
    pub fn from_sector(sector: [u8; 512]) -> (node: MetaNode)
        ensures
            node@ == parsed(sector@),
    {
        let mut name = [0u8; 100];
        fill(&mut name, &sector, 0);
        let mut mode = [0u8; 8];
        fill(&mut mode, &sector, 100);
        let mut owner_id = [0u8; 8];
        fill(&mut owner_id, &sector, 108);
        let mut group_id = [0u8; 8];
        fill(&mut group_id, &sector, 116);
        let mut file_size = [0u8; 12];
        fill(&mut file_size, &sector, 124);
        let mut modif_time = [0u8; 12];
        fill(&mut modif_time, &sector, 136);
        let mut checksum = [0u8; 8];
        fill(&mut checksum, &sector, 148);
        let mut file_type = [0u8; 1];
        fill(&mut file_type, &sector, 156);
        let mut linked_name = [0u8; 100];
        fill(&mut linked_name, &sector, 157);
        let mut magic_id = [0u8; 6];
        fill(&mut magic_id, &sector, 257);
        let mut magic_version = [0u8; 2];
        fill(&mut magic_version, &sector, 263);
        let mut owner_name = [0u8; 32];
        fill(&mut owner_name, &sector, 265);
        let mut group_name = [0u8; 32];
        fill(&mut group_name, &sector, 297);
        let mut device_major = [0u8; 8];
        fill(&mut device_major, &sector, 329);
        let mut device_minor = [0u8; 8];
        fill(&mut device_minor, &sector, 337);
        let mut name_prefix = [0u8; 155];
        fill(&mut name_prefix, &sector, 345);
        let node = MetaNode {
            name, mode, owner_id, group_id, file_size, modif_time, checksum, file_type, linked_name, magic_id, magic_version, owner_name, group_name, device_major, device_minor, name_prefix,
            padding: [0u8; 11],
            usable: [1u8; 1],
        };
        assert(node@.usable =~= seq![1u8]);
        assert(node@.padding =~= Seq::new(11, |i: int| 0u8));
        node
    }

    /// The header of `file` as a new file: its name, its size in octal digits, and the
    /// marks of the format. The name must fit into 100 bytes and the size into 12 octal
    /// digits.
    pub fn new(file: &TarFile) -> (node: MetaNode)
        requires
            file.storable(),
        ensures
            node@ == new_header(encode_utf8(file@.name), file@.data.len()),
    {
        let text = file.name.as_str().as_bytes();
        let mut name = [0u8; 100];
        fill_text(&mut name, text);
        let mut linked_name = [0u8; 100];
        fill_text(&mut linked_name, text);
        let mut file_size = [0u8; 12];
        octal_into(file.data.len(), &mut file_size);
        let mut zero8 = [0u8; 8];
        let mut zero12 = [0u8; 12];
        let mut zero32 = [0u8; 32];
        proof {
            reveal_with_fuel(fits_octal, 40);
            assert(fits_octal(0, 8) && fits_octal(0, 12) && fits_octal(0, 32));
        }
        octal_into(0, &mut zero8);
        octal_into(0, &mut zero12);
        octal_into(0, &mut zero32);
        let unknown: [u8; 3] = [0x55, 0x4E, 0x4B];
        let mut owner_name = [0u8; 32];
        fill_text(&mut owner_name, &unknown);
        let node = MetaNode {
            name,
            checksum: zero8,
            device_major: zero8,
            device_minor: zero8,
            file_size,
            file_type: [0x30u8; 1],
            group_id: zero8,
            group_name: zero32,
            linked_name,
            magic_id: [0x55, 0x53, 0x54, 0x41, 0x52, 0],
            magic_version: [0x30, 0x30],
            mode: zero8,
            modif_time: zero12,
            name_prefix: [0u8; 155],
            owner_id: zero8,
            owner_name,
            padding: [0u8; 11],
            usable: [1u8; 1],
        };
        proof {
            assert(unknown@ =~= seq![0x55u8, 0x4Eu8, 0x4Bu8]);
            assert(node@.file_type =~= seq![0x30u8]);
            assert(node@.magic_id =~= seq![0x55u8, 0x53u8, 0x54u8, 0x41u8, 0x52u8, 0u8]);
            assert(node@.magic_version =~= seq![0x30u8, 0x30u8]);
            assert(node@.name_prefix =~= Seq::new(155, |i: int| 0u8));
            assert(node@.usable =~= seq![1u8]);
            assert(node@.padding =~= Seq::new(11, |i: int| 0u8));
        }
        node
    }

    /// The name, one character for each of its 100 bytes.
    pub fn name(&self) -> (s: String)
        ensures
            s@ == as_chars(self@.name),
    {
        text_of(&self.name)
    }

    /// The owner's name, one character for each of its 32 bytes, and the owner's number. The
    /// number field must hold octal digits.
    pub fn owner(&self) -> (r: (String, usize))
        requires
            is_octal(self@.owner_id),
        ensures
            r.0@ == as_chars(self@.owner_name),
            r.1 == octal_value(self@.owner_id),
    {
        proof {
            lemma_eight_digits(self@.owner_id);
        }
        (text_of(&self.owner_name), octal_number(&self.owner_id))
    }

    /// The group's name, one character for each of its 32 bytes, and the group's number. The
    /// number field must hold octal digits.
    pub fn group(&self) -> (r: (String, usize))
        requires
            is_octal(self@.group_id),
        ensures
            r.0@ == as_chars(self@.group_name),
            r.1 == octal_value(self@.group_id),
    {
        proof {
            lemma_eight_digits(self@.group_id);
        }
        (text_of(&self.group_name), octal_number(&self.group_id))
    }

    /// Whether the number of the owner can be read: the field holds octal digits.
    pub fn owner_readable(&self) -> (r: bool)
        ensures
            r == is_octal(self@.owner_id),
    {
        octal_digits(&self.owner_id)
    }

    /// Whether the number of the group can be read: the field holds octal digits.
    pub fn group_readable(&self) -> (r: bool)
        ensures
            r == is_octal(self@.group_id),
    {
        octal_digits(&self.group_id)
    }

    /// Whether the size can be read: the field holds octal digits, and they stand for a
    /// number that the machine can hold.
    pub fn size_readable(&self) -> (r: bool)
        ensures
            r == (is_octal(self@.file_size) && octal_value(self@.file_size) <= usize::MAX),
    {
        if !octal_digits(&self.file_size) {
            return false;
        }
        proof {
            lemma_digits_bound(self@.file_size);
            reveal_with_fuel(eight_to, 13);
            assert(eight_to(12) == 0x10_0000_0000);
        }
        let mut value: u64 = 0;
        let mut i: usize = 0;
        assert(self@.file_size.take(0) =~= Seq::<u8>::empty());
        while i < 12
            invariant
                i <= 12,
                is_octal(self@.file_size),
                self@.file_size.len() == 12,
                octal_value(self@.file_size) < 0x10_0000_0000,
                value == octal_value(self@.file_size.take(i as int)),
            decreases 12 - i,
        {
            proof {
                lemma_octal_prefix(self@.file_size, i as int + 1);
                assert(self@.file_size.take(i as int + 1).drop_last() =~= self@.file_size.take(i as int));
                assert(is_octal_digit(self@.file_size[i as int]));
            }
            value = value * 8 + (self.file_size[i] - 0x30) as u64;
            i += 1;
        }
        assert(self@.file_size.take(12) =~= self@.file_size);
        value <= usize::MAX as u64
    }

    /// The size of the file in bytes. The size field must hold octal digits that stand for a
    /// number the machine can hold.
    pub fn file_size(&self) -> (n: usize)
        requires
            is_octal(self@.file_size),
            octal_value(self@.file_size) <= usize::MAX,
        ensures
            n == octal_value(self@.file_size),
    {
        octal_number(&self.file_size)
    }

    /// The number of sectors that the contents of the file take.
    pub fn file_sector_length(&self) -> (n: usize)
        requires
            is_octal(self@.file_size),
            octal_value(self@.file_size) <= usize::MAX,
        ensures
            n == sectors_for(octal_value(self@.file_size)),
    {
        let mut sectors = self.file_size() / 512;
        if self.file_size() % 512 > 0 {
            sectors += 1;
        }
        sectors
    }

    /// The type of the file: the one character of the type field.
    pub fn file_type(&self) -> (s: String)
        ensures
            s@ == as_chars(self@.file_type),
    {
        text_of(&self.file_type)
    }

    /// The 512 bytes of the header as it is written out.
    pub fn as_slice(&self) -> (buffer: [u8; 512])
        ensures
            buffer@ == header_bytes(self@),
    {
        let mut buffer: [u8; 512] = [0u8; 512];
        assert(buffer@ =~= Seq::new(512, |i: int| 0u8));
        insert_slice(&self.name, &mut buffer, 0);
        insert_slice(&self.file_type, &mut buffer, 156);
        insert_slice(&self.file_size, &mut buffer, 124);
        insert_slice(&self.magic_id, &mut buffer, 257);
        insert_slice(&self.magic_version, &mut buffer, 263);
        let sum = MetaNode::gen_checksum(buffer);
        let mut digits = [0u8; 8];
        proof {
            lemma_byte_sum_bound(buffer@);
            reveal_with_fuel(fits_octal, 9);
            assert(fits_octal(sum as nat, 8));
        }
        octal_into(sum, &mut digits);
        insert_slice(&digits, &mut buffer, 148);
        buffer
    }

    /// The sum of the 512 bytes.
    pub fn gen_checksum(buffer: [u8; 512]) -> (sum: usize)
        ensures
            sum == byte_sum(buffer@),
    {
        let mut sum: usize = 0;
        let mut i: usize = 0;
        assert(buffer@.take(0) =~= Seq::<u8>::empty());
        while i < 512
            invariant
                i <= 512,
                sum == byte_sum(buffer@.take(i as int)),
                sum <= 255 * i,
            decreases 512 - i,
        {
            assert(buffer@.take(i as int + 1).drop_last() =~= buffer@.take(i as int));
            sum += buffer[i] as usize;
            i += 1;
        }
        assert(buffer@.take(512) =~= buffer@);
        sum
    }
}

/// Eight octal digits stand for a number below 8^8.
proof fn lemma_eight_digits(digits: Seq<u8>)
    requires
        digits.len() == 8,
        is_octal(digits),
    ensures
        octal_value(digits) < 0x100_0000,
{
    lemma_digits_bound(digits);
    reveal_with_fuel(eight_to, 9);
}

/// 8 to the power of `n`.
pub open spec fn eight_to(n: nat) -> nat
    decreases n,
{
    if n == 0 {
        1
    } else {
        8 * eight_to((n - 1) as nat)
    }
}

/// `n` octal digits stand for a number below 8 to the power of `n`.
pub proof fn lemma_digits_bound(digits: Seq<u8>)
    requires
        forall|i: int| 0 <= i < digits.len() ==> is_octal_digit(#[trigger] digits[i]),
    ensures
        octal_value(digits) < eight_to(digits.len()),
    decreases digits.len(),
{
    if digits.len() > 0 {
        lemma_digits_bound(digits.drop_last());
        assert(is_octal_digit(digits.last()));
    }
}

/// Checks that the fields of a header fill one sector exactly. The answer is always yes.
pub fn check_meta_block_size() -> (ok: bool)
    ensures
        ok,
{
    100 + 8 + 8 + 8 + 12 + 12 + 8 + 1 + 100 + 6 + 2 + 32 + 32 + 8 + 8 + 155 + 1 + 11 == 512usize
}

/// The contents of the file called `_name` in `_archive`. Archives kept in memory hold no
/// files.
pub fn get_file_data<'a>(_archive: &'a [u8], _name: &'a str) -> (data: Vec<u8>)
    ensures
        data@ == Seq::<u8>::empty(),
{
    let data: Vec<u8> = Vec::new();
    data
}

/// The mathematical value of a [`TarFile`].
pub struct TarFileView {
    /// The contents.
    pub data: Seq<u8>,
    /// The name.
    pub name: Seq<char>,
}

/// A file of an archive, held in memory.
#[derive(Debug)]
pub struct TarFile {
    data: Vec<u8>,
    name: String,
}

impl View for TarFile {
    type V = TarFileView;

    closed spec fn view(&self) -> TarFileView {
        TarFileView { data: self.data@, name: self.name@ }
    }
}

/// Where the text of `s` starts when zero characters in front are left out: the first
/// position at or after `from` that holds another character, or the end.
pub open spec fn lead(s: Seq<char>, from: int) -> int
    decreases s.len() - from,
{
    if from < 0 || from >= s.len() || s[from] != '\0' {
        from
    } else {
        lead(s, from + 1)
    }
}

/// Where the text of `s` ends when zero characters at the end are left out: just after the
/// last position before `upto` that holds another character, or the start.
pub open spec fn tail(s: Seq<char>, upto: int) -> int
    decreases upto,
{
    if upto <= 0 || upto > s.len() || s[upto - 1] != '\0' {
        upto
    } else {
        tail(s, upto - 1)
    }
}

/// `s` without the zero characters in front and at the end.
pub open spec fn trimmed(s: Seq<char>) -> Seq<char> {
    if lead(s, 0) < tail(s, s.len() as int) {
        s.subrange(lead(s, 0), tail(s, s.len() as int))
    } else {
        Seq::empty()
    }
}

/// `s` without the zero characters at the end.
pub open spec fn trimmed_end(s: Seq<char>) -> Seq<char> {
    if 0 < tail(s, s.len() as int) {
        s.subrange(0, tail(s, s.len() as int))
    } else {
        Seq::empty()
    }
}

/// The characters of `text` from `from` up to, and without, `to`.
fn part_of(text: &str, from: usize, to: usize) -> (s: String)
    requires
        from <= to <= text@.len(),
    ensures
        s@ == text@.subrange(from as int, to as int),
{
    let mut s = String::new();
    let mut i: usize = from;
    while i < to
        invariant
            from <= i <= to <= text@.len(),
            s@ == text@.subrange(from as int, i as int),
        decreases to - i,
    {
        push_char(&mut s, text.get_char(i));
        i += 1;
        assert(s@ =~= text@.subrange(from as int, i as int));
    }
    s
}

/// Where the text of `text` ends when zero characters at the end are left out.
fn text_tail(text: &str) -> (end: usize)
    ensures
        end == tail(text@, text@.len() as int),
        end <= text@.len(),
{
    let mut end = text.unicode_len();
    while end > 0
        invariant
            end <= text@.len(),
            tail(text@, text@.len() as int) == tail(text@, end as int),
        decreases end,
    {
        if text.get_char(end - 1) != '\0' {
            return end;
        }
        end -= 1;
    }
    end
}

/// `text` without the zero characters in front and at the end.
pub fn trim_zeros(text: &str) -> (s: String)
    ensures
        s@ == trimmed(text@),
{
    let n = text.unicode_len();
    let end = text_tail(text);
    let mut start: usize = 0;
    while start < n
        invariant_except_break
            start <= n,
            lead(text@, 0) == lead(text@, start as int),
        invariant
            n == text@.len(),
        ensures
            start == lead(text@, 0),
            start <= n,
        decreases n - start,
    {
        if text.get_char(start) != '\0' {
            break;
        }
        start += 1;
    }
    if start < end {
        part_of(text, start, end)
    } else {
        String::new()
    }
}

/// `text` without the zero characters at the end.
pub fn trim_zeros_end(text: &str) -> (s: String)
    ensures
        s@ == trimmed_end(text@),
{
    let end = text_tail(text);
    if 0 < end {
        part_of(text, 0, end)
    } else {
        String::new()
    }
}

/// The bytes of the sectors `from .. from + count` of a list, sector after sector. Sectors
/// that the list does not have add nothing.
pub open spec fn gathered(list: Seq<SectorView>, from: int, count: nat) -> Seq<u8>
    decreases count,
{
    if count == 0 {
        Seq::empty()
    } else {
        gathered(list, from, (count - 1) as nat) + (if 0 <= from + count - 1 < list.len() {
            list[from + count - 1].data
        } else {
            Seq::empty()
        })
    }
}

/// The contents that are read for a file of `size` bytes from the bytes of its sectors: all
/// of them, or the first `size + 1` if there are more than `size`.
pub open spec fn cut(bytes: Seq<u8>, size: nat) -> Seq<u8> {
    if bytes.len() > size {
        bytes.take(size as int + 1)
    } else {
        bytes
    }
}

/// What was gathered from fewer sectors is the front of what is gathered from more.
pub proof fn lemma_gathered_prefix(list: Seq<SectorView>, from: int, fewer: nat, more: nat)
    requires
        fewer <= more,
    ensures
        gathered(list, from, fewer).len() <= gathered(list, from, more).len(),
        gathered(list, from, more).take(gathered(list, from, fewer).len() as int) == gathered(list, from, fewer),
    decreases more,
{
    if fewer < more {
        lemma_gathered_prefix(list, from, fewer, (more - 1) as nat);
        let a = gathered(list, from, fewer);
        let b = gathered(list, from, (more - 1) as nat);
        assert(gathered(list, from, more).take(a.len() as int) =~= b.take(a.len() as int));
    } else {
        assert(gathered(list, from, more).take(gathered(list, from, fewer).len() as int) =~= gathered(
            list,
            from,
            fewer,
        ));
    }
}

impl TarFile {
    /// The file can be laid out in sectors: its name fits into the 100 bytes of a header and
    /// its size into 12 octal digits.
    pub open spec fn storable(&self) -> bool {
        &&& encode_utf8(self@.name).len() <= 100
        &&& fits_octal(self@.data.len(), 12)
    }

    /// Whether the file can be laid out in sectors.
    pub fn can_store(&self) -> (r: bool)
        ensures
            r == self.storable(),
    {
        proof {
            lemma_fits_octal(self@.data.len(), 12);
            reveal_with_fuel(eight_to, 13);
            assert(eight_to(12) == 0x10_0000_0000);
        }
        self.name.as_str().as_bytes().len() <= 100 && (self.data.len() as u64) < 0x10_0000_0000u64
    }

    /// The name.
    pub fn name(&self) -> (r: &String)
        ensures
            r@ == self@.name,
    {
        &self.name
    }

    /// The contents.
    pub fn data(&self) -> (r: &Vec<u8>)
        ensures
            r@ == self@.data,
    {
        &self.data
    }

    /// Reads the file whose header `node` stands in sector `node_index` of `sectors`: its
    /// contents are gathered from the sectors after the header, as many as its size asks
    /// for, and cut after `size + 1` bytes. The size field of the header must hold octal
    /// digits.
    pub fn from_metanode(node: MetaNode, sectors: &SectorList, node_index: usize) -> (file: TarFile)
        requires
            is_octal(node@.file_size),
            octal_value(node@.file_size) <= usize::MAX,
            sectors_for(octal_value(node@.file_size)) + node_index + 1 <= usize::MAX,
        ensures
            file@.name == as_chars(node@.name),
            file@.data == cut(
                gathered(sectors@, node_index + 1, sectors_for(octal_value(node@.file_size))),
                octal_value(node@.file_size),
            ),
    {
        let sector_length = node.file_sector_length();
        let file_size = node.file_size();
        let mut binary: Vec<u8> = Vec::new();
        let mut i: usize = 0;
        let mut full = false;
        let ghost from = node_index + 1;
        while i < sector_length && !full
            invariant
                i <= sector_length,
                from == node_index + 1,
                sector_length + node_index + 1 <= usize::MAX,
                !full ==> binary@ == gathered(sectors@, from, i as nat) && binary@.len() <= file_size,
                full ==> binary@.len() == file_size + 1 && binary@ == gathered(sectors@, from, i as nat).take(
                    file_size + 1,
                ) && gathered(sectors@, from, i as nat).len() > file_size,
            decreases sector_length - i + (if full { 0int } else { 1int }),
        {
            let ghost before = binary@;
            match sectors.get_sector(node_index + 1 + i) {
                Some(sector) => {
                    let data = sector.data();
                    let mut j: usize = 0;
                    assert(binary@ =~= before + data@.take(0));
                    while j < 512 && !full
                        invariant
                            j <= 512,
                            before.len() <= file_size,
                            !full ==> binary@ == before + data@.take(j as int) && binary@.len() <= file_size,
                            full ==> binary@.len() == file_size + 1 && binary@ == (before + data@).take(
                                file_size + 1,
                            ) && before.len() + 512 > file_size,
                        decreases 512 - j + (if full { 0int } else { 1int }),
                    {
                        binary.push(data[j]);
                        j += 1;
                        assert(binary@ =~= before + data@.take(j as int));
                        if binary.len() > file_size {
                            full = true;
                            assert(binary@ =~= (before + data@).take(file_size + 1));
                        }
                    }
                    proof {
                        if !full {
                            assert(data@.take(512) =~= data@);
                        }
                        assert(gathered(sectors@, from, (i + 1) as nat) == before + data@);
                    }
                },
                None => {
                    assert(gathered(sectors@, from, (i + 1) as nat) =~= before);
                },
            }
            i += 1;
        }
        proof {
            let all = gathered(sectors@, from, sector_length as nat);
            lemma_gathered_prefix(sectors@, from, i as nat, sector_length as nat);
            if full {
                let part = gathered(sectors@, from, i as nat);
                assert(all.take(part.len() as int) == part);
                let a = part.take(file_size + 1);
                let b = all.take(file_size + 1);
                assert forall|k: int| 0 <= k < a.len() implies #[trigger] a[k] == b[k] by {
                    assert(all.take(part.len() as int)[k] == all[k]);
                }
                assert(a =~= b);
            }
        }
        TarFile { data: binary, name: node.name() }
    }

    /// Writes the bytes of `s` to the file.
    pub fn write_str(&mut self, s: &str)
        ensures
            final(self)@ == (TarFileView { data: old(self)@.data + s.spec_bytes(), ..old(self)@ }),
    {
        let bytes = s.as_bytes();
        let mut i: usize = 0;
        assert(self@.data =~= old(self)@.data + bytes@.take(0));
        while i < bytes.len()
            invariant
                i <= bytes@.len(),
                self@.name == old(self)@.name,
                self@.data == old(self)@.data + bytes@.take(i as int),
            decreases bytes@.len() - i,
        {
            self.write(bytes[i]);
            i += 1;
            assert(self@.data =~= old(self)@.data + bytes@.take(i as int));
        }
        assert(bytes@.take(i as int) =~= bytes@);
    }
}

impl IoReader<u8> for TarFile {
    /// Takes the last byte off the file.
    fn read(&mut self) -> (r: Option<u8>)
        ensures
            old(self)@.data.len() == 0 ==> r is None && final(self)@ == old(self)@,
            old(self)@.data.len() > 0 ==> r == Some(old(self)@.data.last()) && final(self)@ == (TarFileView {
                data: old(self)@.data.drop_last(),
                ..old(self)@
            }),
    {
        self.data.pop()
    }
}

impl IoWriter<u8> for TarFile {
    /// Adds a byte at the end of the file.
    fn write(&mut self, item: u8)
        ensures
            final(self)@ == (TarFileView { data: old(self)@.data.push(item), ..old(self)@ }),
    {
        self.data.push(item);
    }
}

impl File<u8> for TarFile {
    open spec fn storable(&self) -> bool {
        TarFile::storable(self)
    }

    /// An empty file called `name`, without the zero characters that the name starts or ends
    /// with.
    fn open(name: &str) -> (file: TarFile)
        ensures
            file@ == (TarFileView { data: Seq::empty(), name: trimmed(name@) }),
    {
        TarFile { data: Vec::new(), name: trim_zeros(name) }
    }

    /// Stores the file, header first, on drive 1 of bus 1 in the blocks from `start_block`
    /// on. The file stays as it is.
    fn close(&mut self, ata: &mut Ata, start_block: u32)
        ensures
            final(self)@ == old(self)@,
            start_block + stored_as(old(self)@).len() <= 0x1_0000_0000 ==> final(ata)@ == crate::ata::with_run(
                old(ata)@,
                1,
                1,
                start_block as int,
                stored_as(old(self)@).map_values(|s: SectorView| s.data),
            ),
            start_block + stored_as(old(self)@).len() > 0x1_0000_0000 ==> final(ata)@ == old(ata)@,
    {
        let sectors = self.get_sectors();
        if sectors.len() as u64 <= 0x1_0000_0000u64 - start_block as u64 {
            save_fs(ata, 1, 1, &sectors, start_block);
        }
    }

    /// Takes every byte out of the file and hands the bytes out in the order in which they
    /// were written.
    fn read_all(&mut self) -> (v: Vec<u8>)
        ensures
            v@ == old(self)@.data,
            final(self)@ == (TarFileView { data: Seq::empty(), ..old(self)@ }),
    {
        let mut taken: Vec<u8> = Vec::new();
        let ghost all = self@.data;
        assert(all =~= self@.data + taken@.reverse());
        loop
            invariant
                self@.name == old(self)@.name,
                all == self@.data + taken@.reverse(),
            ensures
                self@.data.len() == 0,
                self@.name == old(self)@.name,
                all == self@.data + taken@.reverse(),
            decreases self@.data.len(),
        {
            match self.read() {
                Some(b) => {
                    let ghost before = taken@;
                    taken.push(b);
                    assert(taken@.reverse() =~= seq![b] + before.reverse());
                    assert(all =~= self@.data + taken@.reverse());
                },
                None => {
                    break;
                },
            }
        }
        let mut v: Vec<u8> = Vec::new();
        let n = taken.len();
        let mut i: usize = n;
        while i > 0
            invariant
                i <= n,
                n == taken@.len(),
                v@.len() == n - i,
                forall|k: int| 0 <= k < v@.len() ==> v@[k] == taken@[n - 1 - k],
            decreases i,
        {
            i -= 1;
            v.push(taken[i]);
        }
        assert(v@ =~= taken@.reverse());
        assert(self@.data =~= Seq::<u8>::empty());
        v
    }

    /// Adds the bytes of `data` at the end of the file.
    fn write_all(&mut self, data: Vec<u8>)
        ensures
            final(self)@ == (TarFileView { data: old(self)@.data + data@, ..old(self)@ }),
    {
        let mut i: usize = 0;
        assert(self@.data =~= old(self)@.data + data@.take(0));
        while i < data.len()
            invariant
                i <= data@.len(),
                self@.name == old(self)@.name,
                self@.data == old(self)@.data + data@.take(i as int),
            decreases data@.len() - i,
        {
            self.write(data[i]);
            i += 1;
            assert(self@.data =~= old(self)@.data + data@.take(i as int));
        }
        assert(data@.take(i as int) =~= data@);
    }

    /// The sectors that the file is stored as: the sector of its header, then the sectors of
    /// its contents.
    fn get_sectors(&self) -> (list: SectorList)
        ensures
            list@ == stored_as(self@),
    {
        let mut list = SectorList::new();
        let _ = self.data.len();
        list.write_slice(self.data.as_slice(), 0);
        let mut meta_sector = SectorList::new();
        let header = MetaNode::new(self).as_slice();
        meta_sector.write_slice(&header, 0);
        let _ = meta_sector.append(&mut list);
        meta_sector
    }
}

/// The sectors that a file is stored as: the sector of its header, then the sectors of its
/// contents.
pub open spec fn stored_as(file: TarFileView) -> Seq<SectorView> {
    written_all(Seq::empty(), 0, header_bytes(new_header(encode_utf8(file.name), file.data.len())))
        + written_all(Seq::empty(), 0, file.data)
}

/// Reads the first `sector_count` sectors of the drive at (bus, disk).
pub fn load_fs(ata: &Ata, bus: u8, disk: u8, sector_count: usize) -> (sectors: SectorList)
    requires
        sector_count <= 0x1_0000_0000,
    ensures
        sectors@.len() == sector_count,
        forall|i: int|
            0 <= i < sector_count ==> #[trigger] sectors@[i] == crate::ata::read_over(
                crate::ata::image_of(ata@, bus, disk),
                0,
                i,
                crate::sector_list::fresh_sector(i),
            ),
{
    let mut sectors = SectorList::with_capacity(sector_count);
    ata.read_sectors(bus, disk, 0, &mut sectors);
    sectors
}

/// Writes `sectors` to the blocks from `start_block` on of the drive at (bus, disk).
pub fn save_fs(ata: &mut Ata, bus: u8, disk: u8, sectors: &SectorList, start_block: u32)
    requires
        start_block + sectors@.len() <= 0x1_0000_0000,
    ensures
        final(ata)@ == crate::ata::with_run(
            old(ata)@,
            bus,
            disk,
            start_block as int,
            sectors@.map_values(|s: SectorView| s.data),
        ),
{
    ata.write_sectors(bus, disk, start_block, sectors);
}

/// An empty file called `name`.
pub fn file_create(name: &str) -> (r: Option<TarFile>)
    ensures
        r matches Some(file) && file@ == (TarFileView { data: Seq::empty(), name: trimmed(name@) }),
{
    let file = TarFile::open(name);
    Some(file)
}

/// The positions of the sectors of a list that hold the header of a file: those whose byte
/// 156 is the digit `0`.
pub open spec fn headers_in(list: Seq<SectorView>) -> Seq<int>
    decreases list.len(),
{
    if list.len() == 0 {
        Seq::empty()
    } else if list.last().data[156] == 0x30 {
        headers_in(list.drop_last()).push(list.len() - 1)
    } else {
        headers_in(list.drop_last())
    }
}

/// The files of a partition: for every sector that holds the header of a file, its position,
/// the name in the header and the header itself, in the order of the sectors.
pub fn list_files(sectors: &SectorList) -> (names: Vec<(usize, String, MetaNode)>)
    ensures
        names@.len() == headers_in(sectors@).len(),
        forall|k: int|
            0 <= k < names@.len() ==> {
                &&& (#[trigger] names@[k]).0 == headers_in(sectors@)[k]
                &&& names@[k].2@ == parsed(sectors@[names@[k].0 as int].data)
                &&& names@[k].1@ == as_chars(names@[k].2@.name)
            },
{
    let mut names: Vec<(usize, String, MetaNode)> = Vec::new();
    let mut idx: usize = 0;
    let n = sectors.len();
    assert(sectors@.take(0) =~= Seq::<SectorView>::empty());
    while idx < n
        invariant
            idx <= n,
            n == sectors@.len(),
            names@.len() == headers_in(sectors@.take(idx as int)).len(),
            forall|k: int|
                0 <= k < names@.len() ==> {
                    &&& (#[trigger] names@[k]).0 == headers_in(sectors@.take(idx as int))[k]
                    &&& names@[k].0 < idx
                    &&& names@[k].2@ == parsed(sectors@[names@[k].0 as int].data)
                    &&& names@[k].1@ == as_chars(names@[k].2@.name)
                },
        decreases n - idx,
    {
        let sector = sectors.get_sector(idx).unwrap();
        let node = MetaNode::from_sector(sector.data());
        proof {
            assert(sectors@.take(idx as int + 1).drop_last() =~= sectors@.take(idx as int));
            assert(sectors@.take(idx as int + 1).last() == sectors@[idx as int]);
            sector.lemma_len();
        }
        if node.file_type[0] == 0x30 {
            names.push((idx, node.name(), node));
        }
        idx += 1;
    }
    assert(sectors@.take(n as int) =~= sectors@);
    names
}

/// Whether `a` comes before `b` when the two are compared byte by byte from position `from`
/// on: at the first position where they differ `a` has the smaller byte, or `a` ends first.
pub open spec fn before_from(a: Seq<u8>, b: Seq<u8>, from: int) -> bool
    decreases a.len() - from,
{
    if from < 0 || from >= b.len() {
        false
    } else if from >= a.len() {
        true
    } else if a[from] != b[from] {
        a[from] < b[from]
    } else {
        before_from(a, b, from + 1)
    }
}

/// Whether the name `a` comes before the name `b` in the order of the table.
pub open spec fn name_before(a: Seq<u8>, b: Seq<u8>) -> bool {
    before_from(a, b, 0)
}

/// Of two names that agree up to `from` and are not the same, one comes before the other.
pub proof fn lemma_one_comes_first(a: Seq<u8>, b: Seq<u8>, from: int)
    requires
        0 <= from,
        from <= a.len(),
        from <= b.len(),
        forall|i: int| 0 <= i < from ==> a[i] == b[i],
        a != b,
    ensures
        before_from(a, b, from) || before_from(b, a, from),
        !(before_from(a, b, from) && before_from(b, a, from)),
    decreases a.len() - from,
{
    if from < a.len() && from < b.len() && a[from] == b[from] {
        lemma_one_comes_first(a, b, from + 1);
    } else if from == a.len() && from == b.len() {
        assert(a =~= b);
    }
}

/// The mathematical value of an entry of the table of an archive.
pub struct TableEntryView {
    /// The name of the file.
    pub name: Seq<char>,
    /// The header of the file.
    pub node: MetaNodeView,
    /// The sector of the partition that holds the header.
    pub index: usize,
}

/// The bytes by which an entry is found and ordered.
pub open spec fn key_of(e: TableEntryView) -> Seq<u8> {
    encode_utf8(e.name)
}

/// The first position at or after `from` whose entry does not come before `key`; the number
/// of entries when every entry does.
pub open spec fn position(entries: Seq<TableEntryView>, key: Seq<u8>, from: int) -> int
    decreases entries.len() - from,
{
    if from < 0 || from >= entries.len() || !name_before(key_of(entries[from]), key) {
        from
    } else {
        position(entries, key, from + 1)
    }
}

/// The entries after `e` has been entered: it takes the place of the entry of the same name,
/// or else goes in front of the first entry that does not come before it.
pub open spec fn entered(entries: Seq<TableEntryView>, e: TableEntryView) -> Seq<TableEntryView> {
    let p = position(entries, key_of(e), 0);
    if p < entries.len() && key_of(entries[p]) == key_of(e) {
        entries.update(p, e)
    } else {
        entries.insert(p, e)
    }
}

/// The entry that is found under `key`.
pub open spec fn found(entries: Seq<TableEntryView>, key: Seq<u8>) -> Option<TableEntryView> {
    let p = position(entries, key, 0);
    if p < entries.len() && key_of(entries[p]) == key {
        Some(entries[p])
    } else {
        None
    }
}

/// Every entry comes before the entry after it, so that no name occurs twice.
pub open spec fn in_order(entries: Seq<TableEntryView>) -> bool {
    forall|i: int|
        0 <= i < entries.len() - 1 ==> name_before(key_of(#[trigger] entries[i]), key_of(entries[i + 1]))
}

/// `position` finds a place in front of which every entry comes before `key`, and at which
/// the entry does not.
pub proof fn lemma_position(entries: Seq<TableEntryView>, key: Seq<u8>, from: int)
    requires
        0 <= from <= entries.len(),
    ensures
        from <= position(entries, key, from) <= entries.len(),
        forall|i: int| from <= i < position(entries, key, from) ==> name_before(key_of(#[trigger] entries[i]), key),
        position(entries, key, from) < entries.len() ==> !name_before(
            key_of(entries[position(entries, key, from)]),
            key,
        ),
    decreases entries.len() - from,
{
    if from < entries.len() && name_before(key_of(entries[from]), key) {
        lemma_position(entries, key, from + 1);
    }
}

/// Entering an entry into entries that are in order leaves them in order.
pub proof fn lemma_entered_in_order(entries: Seq<TableEntryView>, e: TableEntryView)
    requires
        in_order(entries),
    ensures
        in_order(entered(entries, e)),
{
    let key = key_of(e);
    let p = position(entries, key, 0);
    lemma_position(entries, key, 0);
    let after = entered(entries, e);
    if p < entries.len() && key_of(entries[p]) == key {
        assert forall|i: int| 0 <= i < after.len() - 1 implies name_before(
            key_of(#[trigger] after[i]),
            key_of(after[i + 1]),
        ) by {
            assert(key_of(after[i]) == key_of(entries[i]));
            assert(key_of(after[i + 1]) == key_of(entries[i + 1]));
        }
    } else {
        if p < entries.len() {
            lemma_one_comes_first(key_of(entries[p]), key, 0);
        }
        assert forall|i: int| 0 <= i < after.len() - 1 implies name_before(
            key_of(#[trigger] after[i]),
            key_of(after[i + 1]),
        ) by {
            if i + 1 < p {
                assert(after[i] == entries[i] && after[i + 1] == entries[i + 1]);
            } else if i + 1 == p {
                assert(after[i] == entries[i] && after[i + 1] == e);
            } else if i == p {
                assert(after[i] == e && after[i + 1] == entries[p]);
            } else {
                assert(after[i] == entries[i - 1] && after[i + 1] == entries[i]);
            }
        }
    }
}

/// The entry for the file whose header stands in sector `index` of a partition: the name is
/// the name in the header without the zero characters at its end.
pub open spec fn entry_at(partition: Seq<SectorView>, index: int) -> TableEntryView {
    TableEntryView {
        name: trimmed_end(as_chars(parsed(partition[index].data).name)),
        node: parsed(partition[index].data),
        index: index as usize,
    }
}

/// The table that lists the files whose headers stand at `positions` of a partition, entered
/// one after another.
pub open spec fn table_of(partition: Seq<SectorView>, positions: Seq<int>) -> Seq<TableEntryView>
    decreases positions.len(),
{
    if positions.len() == 0 {
        Seq::empty()
    } else {
        entered(table_of(partition, positions.drop_last()), entry_at(partition, positions.last()))
    }
}

/// The number in slot `k` of a sector that lists files: two bytes, the first counting 256.
pub open spec fn slot_at(raw: Seq<u8>, k: int) -> int {
    raw[2 * k] * 256 + raw[2 * k + 1]
}

/// The table that the first `upto` slots of a sector list: every slot that is not 0 names a
/// sector of the partition, and the file whose header stands there is entered, unless the
/// partition has no such sector.
pub open spec fn loaded(raw: Seq<u8>, partition: Seq<SectorView>, upto: nat) -> Seq<TableEntryView>
    decreases upto,
{
    if upto == 0 {
        Seq::empty()
    } else {
        let before = loaded(raw, partition, (upto - 1) as nat);
        let slot = slot_at(raw, upto - 1);
        if 0 < slot < partition.len() {
            entered(before, entry_at(partition, slot))
        } else {
            before
        }
    }
}

/// Byte `i` of the sector that a table is written to: from byte 5 on, two bytes for every
/// entry, in the order of the table, that give the sector of the entry's header; the first
/// byte counts 256. Every other byte is zero.
pub open spec fn table_byte(entries: Seq<TableEntryView>, i: int) -> u8 {
    if 5 <= i < 5 + 2 * entries.len() {
        if (i - 5) % 2 == 0 {
            (entries[(i - 5) / 2].index / 256 % 256) as u8
        } else {
            (entries[(i - 5) / 2].index % 256) as u8
        }
    } else {
        0
    }
}

struct TableEntry {
    name: String,
    node: MetaNode,
    index: usize,
}

impl TableEntry {
    spec fn value(&self) -> TableEntryView {
        TableEntryView { name: self.name@, node: self.node@, index: self.index }
    }
}

/// Whether the bytes `a` come before the bytes `b`.
fn comes_before(a: &[u8], b: &[u8]) -> (r: bool)
    ensures
        r == name_before(a@, b@),
{
    let mut i: usize = 0;
    loop
        invariant
            i <= a@.len(),
            i <= b@.len(),
            name_before(a@, b@) == before_from(a@, b@, i as int),
        decreases a@.len() - i,
    {
        if i >= b.len() {
            return false;
        }
        if i >= a.len() {
            return true;
        }
        if a[i] != b[i] {
            return a[i] < b[i];
        }
        i += 1;
    }
}

/// Whether the bytes `a` are the bytes `b`.
fn same_bytes(a: &[u8], b: &[u8]) -> (r: bool)
    ensures
        r == (a@ == b@),
{
    if a.len() != b.len() {
        return false;
    }
    let mut i: usize = 0;
    while i < a.len()
        invariant
            i <= a@.len(),
            a@.len() == b@.len(),
            forall|j: int| 0 <= j < i ==> a@[j] == b@[j],
        decreases a@.len() - i,
    {
        if a[i] != b[i] {
            return false;
        }
        i += 1;
    }
    assert(a@ =~= b@);
    true
}

/// The table of an archive: for every file its name, its header and the sector of the
/// partition that holds the header, in the order of the names.
pub struct FileTable {
    table: Vec<TableEntry>,
}

impl View for FileTable {
    type V = Seq<TableEntryView>;

    closed spec fn view(&self) -> Seq<TableEntryView> {
        Seq::new(self.table@.len(), |i: int| self.table@[i].value())
    }
}

impl FileTable {
    /// The first place whose entry does not come before `key`.
    fn place(&self, key: &[u8]) -> (p: usize)
        ensures
            p == position(self@, key@, 0),
            p <= self@.len(),
    {
        let mut p: usize = 0;
        while p < self.table.len()
            invariant
                p <= self.table@.len(),
                position(self@, key@, 0) == position(self@, key@, p as int),
            decreases self.table@.len() - p,
        {
            if !comes_before(self.table[p].name.as_str().as_bytes(), key) {
                return p;
            }
            p += 1;
        }
        p
    }

    /// Enters a file into the table.
    fn enter(&mut self, name: String, node: MetaNode, index: usize)
        ensures
            final(self)@ == entered(old(self)@, TableEntryView { name: name@, node: node@, index }),
            in_order(old(self)@) ==> in_order(final(self)@),
    {
        proof {
            if in_order(self@) {
                lemma_entered_in_order(self@, TableEntryView { name: name@, node: node@, index });
            }
        }
        let p = self.place(name.as_str().as_bytes());
        let ghost e = TableEntryView { name: name@, node: node@, index };
        if p < self.table.len() && same_bytes(self.table[p].name.as_str().as_bytes(), name.as_str().as_bytes()) {
            self.table[p] = TableEntry { name, node, index };
            assert(self@ =~= old(self)@.update(p as int, e));
        } else {
            self.table.insert(p, TableEntry { name, node, index });
            assert(self@ =~= old(self)@.insert(p as int, e));
        }
    }

    /// The table that lists every file of `partition`.
    pub fn new(partition: &SectorList) -> (t: FileTable)
        ensures
            t@ == table_of(partition@, headers_in(partition@)),
            in_order(t@),
    {
        let mut t = FileTable { table: Vec::new() };
        let files = list_files(partition);
        let ghost positions = headers_in(partition@);
        let mut k: usize = 0;
        assert(t@ =~= table_of(partition@, positions.take(0)));
        while k < files.len()
            invariant
                k <= files@.len(),
                files@.len() == positions.len(),
                positions == headers_in(partition@),
                forall|j: int|
                    0 <= j < files@.len() ==> {
                        &&& (#[trigger] files@[j]).0 == positions[j]
                        &&& files@[j].2@ == parsed(partition@[files@[j].0 as int].data)
                        &&& files@[j].1@ == as_chars(files@[j].2@.name)
                    },
                t@ == table_of(partition@, positions.take(k as int)),
                in_order(t@),
            decreases files@.len() - k,
        {
            let index = files[k].0;
            let node = files[k].2;
            let name = trim_zeros_end(files[k].1.as_str());
            proof {
                assert(positions.take(k as int + 1).drop_last() =~= positions.take(k as int));
                assert(positions.take(k as int + 1).last() == positions[k as int]);
            }
            t.enter(name, node, index);
            k += 1;
        }
        assert(positions.take(k as int) =~= positions);
        t
    }

    /// The table that `sector` lists: each of its first 64 slots that is not 0 names the
    /// sector of `partition` in which the header of a file stands.
    pub fn from_sector(sector: &Sector, partition: &SectorList) -> (t: FileTable)
        ensures
            t@ == loaded(sector@.data, partition@, 64),
            in_order(t@),
    {
        let mut t = FileTable { table: Vec::new() };
        let raw = sector.data();
        let mut k: usize = 0;
        assert(t@ =~= loaded(raw@, partition@, 0));
        while k < 64
            invariant
                k <= 64,
                raw@ == sector@.data,
                t@ == loaded(raw@, partition@, k as nat),
                in_order(t@),
            decreases 64 - k,
        {
            let entry = raw[2 * k] as usize * 256 + raw[2 * k + 1] as usize;
            if entry > 0 {
                match partition.get_sector(entry) {
                    Some(found) => {
                        let node = MetaNode::from_sector(found.data());
                        let full_name = node.name();
                        let name = trim_zeros_end(full_name.as_str());
                        t.enter(name, node, entry);
                    },
                    None => {},
                }
            }
            k += 1;
        }
        t
    }

    /// The number of files.
    pub fn len(&self) -> (n: usize)
        ensures
            n == self@.len(),
    {
        self.table.len()
    }

    /// The header of the file called `name` and the sector that holds it, if the table
    /// lists such a file.
    pub fn get(&self, name: &str) -> (r: Option<(MetaNode, usize)>)
        ensures
            r is Some <==> found(self@, name.spec_bytes()) is Some,
            r matches Some(hit) ==> hit.0@ == found(self@, name.spec_bytes())->0.node && hit.1 == found(
                self@,
                name.spec_bytes(),
            )->0.index,
    {
        let key = name.as_bytes();
        let p = self.place(key);
        if p < self.table.len() && same_bytes(self.table[p].name.as_str().as_bytes(), key) {
            Some((self.table[p].node, self.table[p].index))
        } else {
            None
        }
    }

    /// Whether the table lists a file called `name`.
    pub fn contains_key(&self, name: &str) -> (r: bool)
        ensures
            r == found(self@, name.spec_bytes()) is Some,
    {
        self.get(name).is_some()
    }

    /// The sector that the table is written to. A table of more than 253 files does not fit
    /// into one.
    pub fn to_sector(&mut self) -> (sector: Sector)
        requires
            old(self)@.len() <= 253,
        ensures
            final(self)@ == old(self)@,
            sector@.index == 0,
            sector@.data == Seq::new(512, |i: int| table_byte(old(self)@, i)),
    {
        let mut sector = Sector::new(0);
        let mut k: usize = 0;
        while k < self.table.len()
            invariant
                k <= self.table@.len(),
                self.table@.len() <= 253,
                self@ == old(self)@,
                sector@.index == 0,
                sector@.data.len() == 512,
                forall|i: int| 0 <= i < 5 + 2 * k ==> sector@.data[i] == table_byte(self@, i),
                forall|i: int| 5 + 2 * k <= i < 512 ==> sector@.data[i] == 0u8,
            decreases self.table@.len() - k,
        {
            let idx = 5 + 2 * k;
            let index = self.table[k].index;
            sector.write(idx, (index / 256 % 256) as u8);
            sector.write(idx + 1, (index % 256) as u8);
            proof {
                assert((idx - 5) / 2 == k && (idx - 5) % 2 == 0);
                assert((idx + 1 - 5) / 2 == k && (idx + 1 - 5) % 2 == 1);
                assert(self@[k as int].index == index);
            }
            k += 1;
        }
        assert(sector@.data =~= Seq::new(512, |i: int| table_byte(old(self)@, i)));
        sector
    }

    /// The first block that no file takes, which is not kept track of: always 0.
    pub fn next_free_block(&self) -> (next: usize)
        ensures
            next == 0,
    {
        let next: usize = 0;
        let _max_sector: usize = 0;
        next
    }
}

/// The contents of the file in `e` can be read: the size in its header is a number in octal
/// digits that the machine can hold, and so is the position of its last sector.
pub open spec fn readable(e: TableEntryView) -> bool {
    &&& is_octal(e.node.file_size)
    &&& octal_value(e.node.file_size) <= usize::MAX
    &&& sectors_for(octal_value(e.node.file_size)) + e.index + 1 <= usize::MAX
}

/// The file that `e` lists, read from `partition`.
pub open spec fn file_of(e: TableEntryView, partition: Seq<SectorView>) -> TarFileView {
    TarFileView {
        name: as_chars(e.node.name),
        data: cut(
            gathered(partition, e.index + 1, sectors_for(octal_value(e.node.file_size))),
            octal_value(e.node.file_size),
        ),
    }
}

/// Reads the file called `name` from `partition`, if `table` lists it.
pub fn search(table: &FileTable, partition: &SectorList, name: &str) -> (r: Option<TarFile>)
    requires
        found(table@, name.spec_bytes()) matches Some(e) ==> readable(e),
    ensures
        r is Some <==> found(table@, name.spec_bytes()) is Some,
        r matches Some(file) ==> file@ == file_of(found(table@, name.spec_bytes())->0, partition@),
{
    if let Some((node, index)) = table.get(name) {
        return Some(TarFile::from_metanode(node, partition, index));
    }
    None
}

/// Whether `table` lists a file called `name`.
pub fn file_exists(table: &FileTable, name: &str) -> (r: bool)
    ensures
        r == found(table@, name.spec_bytes()) is Some,
{
    table.contains_key(name)
}

/// Opens the file called `name`: read from `partition` if `table` lists it, and empty if it
/// does not.
pub fn open_file(table: &FileTable, partition: &SectorList, name: &str) -> (r: Option<TarFile>)
    requires
        found(table@, name.spec_bytes()) matches Some(e) ==> readable(e),
    ensures
        r matches Some(file) && file@ == (match found(table@, name.spec_bytes()) {
            Some(e) => file_of(e, partition@),
            None => TarFileView { data: Seq::empty(), name: trimmed(name@) },
        }),
{
    if file_exists(table, name) {
        search(table, partition, name)
    } else {
        file_create(name)
    }
}

} // verus!
