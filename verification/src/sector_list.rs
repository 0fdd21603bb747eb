//! A growable run of sector buffers addressed byte by byte: sector `i` of the list covers the
//! addresses `i * 512 .. (i + 1) * 512`. Writing past the end appends zeroed sectors until the
//! address exists; reading past the end finds nothing.

use vstd::prelude::*;
use vstd::string::StrSliceExecFns;
use crate::codec::push_char;
use crate::sector::{BlockIndex, Sector, SectorView, zero_sector, SECTOR_SIZE};

verus! {

/// The sector that growth appends at position `i`: zeroed, and carrying `i` as its address
/// (cut to 32 bits, the width of a block address).
pub open spec fn fresh_sector(i: int) -> SectorView {
    zero_sector((i % 0x1_0000_0000) as u32)
}

/// `s` extended with fresh sectors until it has at least `n` of them.
pub open spec fn grown(s: Seq<SectorView>, n: int) -> Seq<SectorView> {
    if n <= s.len() {
        s
    } else {
        Seq::new(
            n as nat,
            |i: int|
                if i < s.len() {
                    s[i]
                } else {
                    fresh_sector(i)
                },
        )
    }
}

/// `s` after `value` has been stored at byte address `address`.
pub open spec fn written(s: Seq<SectorView>, address: int, value: u8) -> Seq<SectorView> {
    let k = address / 512;
    let g = grown(s, k + 1);
    g.update(k, SectorView { index: g[k].index, data: g[k].data.update(address % 512, value) })
}

/// The byte at `address`, if the list reaches that far.
pub open spec fn byte_at(s: Seq<SectorView>, address: int) -> Option<u8> {
    if 0 <= address && address / 512 < s.len() {
        Some(s[address / 512].data[address % 512])
    } else {
        None
    }
}

/// `s` after the bytes of `bytes` have been stored one after another from `start` on.
pub open spec fn written_all(s: Seq<SectorView>, start: int, bytes: Seq<u8>) -> Seq<SectorView>
    decreases bytes.len(),
{
    if bytes.len() == 0 {
        s
    } else {
        written(written_all(s, start, bytes.drop_last()), start + bytes.len() - 1, bytes.last())
    }
}

/// Every sector holds 512 bytes.
pub open spec fn full_sectors(s: Seq<SectorView>) -> bool {
    forall|i: int| 0 <= i < s.len() ==> (#[trigger] s[i]).data.len() == 512
}

/// Growing keeps what was there and adds only fresh sectors.
pub proof fn lemma_grown(s: Seq<SectorView>, n: int)
    requires
        full_sectors(s),
    ensures
        grown(s, n).len() == if n <= s.len() { s.len() as int } else { n },
        full_sectors(grown(s, n)),
        forall|i: int| 0 <= i < s.len() ==> grown(s, n)[i] == s[i],
        forall|i: int| s.len() <= i < n ==> grown(s, n)[i] == fresh_sector(i),
{
}

/// A write keeps every sector at 512 bytes and makes the list just long enough to hold the
/// address written.
pub proof fn lemma_written_len(s: Seq<SectorView>, address: int, value: u8)
    requires
        full_sectors(s),
        0 <= address,
    ensures
        full_sectors(written(s, address, value)),
        written(s, address, value).len() == if address / 512 < s.len() {
            s.len() as int
        } else {
            address / 512 + 1
        },
{
    lemma_grown(s, address / 512 + 1);
    let w = written(s, address, value);
    assert forall|i: int| 0 <= i < w.len() implies (#[trigger] w[i]).data.len() == 512 by {
        assert(grown(s, address / 512 + 1)[i].data.len() == 512);
    }
}

/// A byte that was written is the byte that is read back from the same address.
pub proof fn lemma_write_then_read(s: Seq<SectorView>, address: int, value: u8)
    requires
        full_sectors(s),
        0 <= address,
    ensures
        byte_at(written(s, address, value), address) == Some(value),
{
    lemma_grown(s, address / 512 + 1);
    assert(grown(s, address / 512 + 1)[address / 512].data.len() == 512);
}

/// A write changes no other address: an address that held a byte still holds it, and an
/// address that growth brought into the list holds zero.
pub proof fn lemma_write_elsewhere(s: Seq<SectorView>, address: int, value: u8, other: int)
    requires
        full_sectors(s),
        0 <= address,
        0 <= other,
        other != address,
    ensures
        byte_at(written(s, address, value), other) == if other / 512 < s.len() {
            byte_at(s, other)
        } else if other / 512 <= address / 512 {
            Some(0u8)
        } else {
            None
        },
{
    lemma_grown(s, address / 512 + 1);
    assert(grown(s, address / 512 + 1)[address / 512].data.len() == 512);
}

/// A write to an address past the end grows the list by exactly the sectors needed to reach
/// that address; the sectors in between are fresh, so they read back as zeros.
pub proof fn lemma_write_grows(s: Seq<SectorView>, address: int, value: u8)
    requires
        full_sectors(s),
        0 <= address,
        address / 512 >= s.len(),
    ensures
        written(s, address, value).len() == address / 512 + 1,
        forall|i: int| 0 <= i < s.len() ==> written(s, address, value)[i] == s[i],
        forall|i: int| s.len() <= i < address / 512 ==> written(s, address, value)[i] == fresh_sector(i),
        written(s, address, value)[address / 512] == (SectorView {
            index: fresh_sector(address / 512).index,
            data: fresh_sector(address / 512).data.update(address % 512, value),
        }),
{
    lemma_grown(s, address / 512 + 1);
}

/// The number of sectors that `size` bytes take.
pub open spec fn sectors_of(size: int) -> int {
    (size + 511) / 512
}

/// The bytes of a run of sectors, sector after sector.
pub open spec fn list_bytes(list: Seq<SectorView>) -> Seq<u8> {
    Seq::new(list.len() * 512, |i: int| list[i / 512].data[i % 512])
}

/// `data` as it fills whole sectors: the bytes, then zeros to the end of the last sector.
pub open spec fn padded_bytes(data: Seq<u8>) -> Seq<u8> {
    Seq::new(
        (sectors_of(data.len() as int) * 512) as nat,
        |i: int|
            if i < data.len() {
                data[i]
            } else {
                0u8
            },
    )
}

/// Bytes written from address 0 into an empty list fill just the sectors they need: the
/// list holds the bytes, then zeros to the end of its last sector.
pub proof fn lemma_written_from_empty(data: Seq<u8>)
    ensures
        written_all(Seq::empty(), 0, data).len() == sectors_of(data.len() as int),
        full_sectors(written_all(Seq::empty(), 0, data)),
        list_bytes(written_all(Seq::empty(), 0, data)) == padded_bytes(data),
    decreases data.len(),
{
    let w = written_all(Seq::empty(), 0, data);
    if data.len() == 0 {
        assert(list_bytes(w) =~= padded_bytes(data));
    } else {
        let rest = data.drop_last();
        let before = written_all(Seq::empty(), 0, rest);
        let last = data.len() - 1;
        lemma_written_from_empty(rest);
        lemma_written_len(before, last, data.last());
        lemma_grown(before, last / 512 + 1);
        assert(w == written(before, last, data.last()));
        assert(w.len() == sectors_of(data.len() as int));
        assert forall|i: int| 0 <= i < w.len() * 512 implies list_bytes(w)[i] == padded_bytes(data)[i] by {
            let k = i / 512;
            if i == last {
                lemma_write_then_read(before, last, data.last());
            } else {
                lemma_write_elsewhere(before, last, data.last(), i);
                if k < before.len() {
                    assert(list_bytes(before)[i] == padded_bytes(rest)[i]);
                    assert(byte_at(before, i) == Some(list_bytes(before)[i]));
                    if i < rest.len() {
                        assert(rest[i] == data[i]);
                    }
                }
            }
            assert(byte_at(w, i) == Some(list_bytes(w)[i]));
        }
        assert(list_bytes(w) =~= padded_bytes(data));
    }
}

/// The two bytes of `v`, most significant first.
pub open spec fn be_bytes_u16(v: u16) -> Seq<u8> {
    seq![(v / 0x100) as u8, (v % 0x100) as u8]
}

/// The four bytes of `v`, most significant first.
pub open spec fn be_bytes_u32(v: u32) -> Seq<u8> {
    seq![
        (v / 0x100_0000) as u8,
        (v / 0x1_0000 % 0x100) as u8,
        (v / 0x100 % 0x100) as u8,
        (v % 0x100) as u8,
    ]
}

/// The eight bytes of `v`, most significant first.
pub open spec fn be_bytes_u64(v: u64) -> Seq<u8> {
    seq![
        (v / 0x100_0000_0000_0000) as u8,
        (v / 0x1_0000_0000_0000 % 0x100) as u8,
        (v / 0x100_0000_0000 % 0x100) as u8,
        (v / 0x1_0000_0000 % 0x100) as u8,
        (v / 0x100_0000 % 0x100) as u8,
        (v / 0x1_0000 % 0x100) as u8,
        (v / 0x100 % 0x100) as u8,
        (v % 0x100) as u8,
    ]
}

/// The 16-bit value whose two bytes, most significant first, start at `address`; `None`
/// unless the list holds both.
pub open spec fn u16_at(s: Seq<SectorView>, address: int) -> Option<u16> {
    if byte_at(s, address) is Some && byte_at(s, address + 1) is Some {
        Some((byte_at(s, address)->0 * 0x100 + byte_at(s, address + 1)->0) as u16)
    } else {
        None
    }
}

/// The 32-bit value whose four bytes, most significant first, start at `address`; `None`
/// unless the list holds all four.
pub open spec fn u32_at(s: Seq<SectorView>, address: int) -> Option<u32> {
    if u16_at(s, address) is Some && u16_at(s, address + 2) is Some {
        Some((u16_at(s, address)->0 * 0x1_0000 + u16_at(s, address + 2)->0) as u32)
    } else {
        None
    }
}

/// The 64-bit value whose eight bytes, most significant first, start at `address`; `None`
/// unless the list holds all eight.
pub open spec fn u64_at(s: Seq<SectorView>, address: int) -> Option<u64> {
    if u32_at(s, address) is Some && u32_at(s, address + 4) is Some {
        Some((u32_at(s, address)->0 * 0x1_0000_0000 + u32_at(s, address + 4)->0) as u64)
    } else {
        None
    }
}

/// The bytes that a text leaves on disk: one per character up to `~` (0x7E), in order.
/// Characters above that are left out.
pub open spec fn printable_bytes(text: Seq<char>) -> Seq<u8>
    decreases text.len(),
{
    if text.len() == 0 {
        Seq::empty()
    } else if text.last() as u32 <= 0x7E {
        printable_bytes(text.drop_last()).push(text.last() as u8)
    } else {
        printable_bytes(text.drop_last())
    }
}

/// `bytes` is the run of non-zero bytes that starts at `address` and ends just before the
/// first zero byte, the end of the list or the end of the address space.
pub open spec fn is_text_at(s: Seq<SectorView>, address: int, bytes: Seq<u8>) -> bool {
    &&& forall|i: int| 0 <= i < bytes.len() ==> byte_at(s, address + i) == Some(#[trigger] bytes[i]) && bytes[i] != 0
    &&& (address + bytes.len() > usize::MAX || byte_at(s, address + bytes.len()) is None || byte_at(
        s,
        address + bytes.len(),
    ) == Some(0u8))
}

/// After a run of bytes has been written, each of them is read back from its address, and
/// every sector still holds 512 bytes.
pub proof fn lemma_written_all_read(s: Seq<SectorView>, start: int, bytes: Seq<u8>)
    requires
        full_sectors(s),
        0 <= start,
    ensures
        full_sectors(written_all(s, start, bytes)),
        forall|k: int| 0 <= k < bytes.len() ==> byte_at(written_all(s, start, bytes), start + k) == Some(#[trigger] bytes[k]),
    decreases bytes.len(),
{
    if bytes.len() > 0 {
        let before = written_all(s, start, bytes.drop_last());
        let last = start + bytes.len() - 1;
        lemma_written_all_read(s, start, bytes.drop_last());
        lemma_written_len(before, last, bytes.last());
        lemma_write_then_read(before, last, bytes.last());
        assert forall|k: int| 0 <= k < bytes.len() implies byte_at(written_all(s, start, bytes), start + k) == Some(
            #[trigger] bytes[k],
        ) by {
            if k < bytes.len() - 1 {
                assert(bytes.drop_last()[k] == bytes[k]);
                lemma_write_elsewhere(before, last, bytes.last(), start + k);
            }
        }
    }
}

/// Writing a run of bytes changes no byte that the list held outside the run, and makes the
/// list no shorter.
pub proof fn lemma_written_all_elsewhere(s: Seq<SectorView>, start: int, bytes: Seq<u8>, other: int)
    requires
        full_sectors(s),
        0 <= start,
        0 <= other < 512 * s.len(),
        !(start <= other < start + bytes.len()),
    ensures
        written_all(s, start, bytes).len() >= s.len(),
        byte_at(written_all(s, start, bytes), other) == byte_at(s, other),
    decreases bytes.len(),
{
    if bytes.len() > 0 {
        let before = written_all(s, start, bytes.drop_last());
        let last = start + bytes.len() - 1;
        lemma_written_all_elsewhere(s, start, bytes.drop_last(), other);
        lemma_written_all_read(s, start, bytes.drop_last());
        lemma_written_len(before, last, bytes.last());
        lemma_write_elsewhere(before, last, bytes.last(), other);
    }
}

/// A 16-bit value that was written is the value that is read back, and its two bytes lie in
/// the list most significant first.
pub proof fn lemma_write_u16_read_u16(s: Seq<SectorView>, address: int, v: u16)
    requires
        full_sectors(s),
        0 <= address,
    ensures
        u16_at(written_all(s, address, be_bytes_u16(v)), address) == Some(v),
        forall|k: int| 0 <= k < 2 ==> byte_at(written_all(s, address, be_bytes_u16(v)), address + k) == Some(
            #[trigger] be_bytes_u16(v)[k],
        ),
{
    let b = be_bytes_u16(v);
    lemma_written_all_read(s, address, b);
    assert(b[0] == (v / 0x100) as u8 && b[1] == (v % 0x100) as u8);
}

/// Four bytes that are the bytes of `v`, most significant first, read as `v`.
proof fn lemma_compose_u32(w: Seq<SectorView>, address: int, v: u32)
    requires
        byte_at(w, address) == Some((v / 0x100_0000) as u8),
        byte_at(w, address + 1) == Some((v / 0x1_0000 % 0x100) as u8),
        byte_at(w, address + 2) == Some((v / 0x100 % 0x100) as u8),
        byte_at(w, address + 3) == Some((v % 0x100) as u8),
    ensures
        u32_at(w, address) == Some(v),
{
    let b0 = (v / 0x100_0000) as u8;
    let b1 = (v / 0x1_0000 % 0x100) as u8;
    let b2 = (v / 0x100 % 0x100) as u8;
    let b3 = (v % 0x100) as u8;
    assert(((v / 0x100_0000) as u8) as u32 * 0x100 + ((v / 0x1_0000 % 0x100) as u8) as u32 == v / 0x1_0000)
        by (bit_vector);
    assert(((v / 0x100 % 0x100) as u8) as u32 * 0x100 + ((v % 0x100) as u8) as u32 == v % 0x1_0000)
        by (bit_vector);
    assert((v / 0x1_0000) * 0x1_0000 + v % 0x1_0000 == v) by (bit_vector);
    assert(v / 0x1_0000 < 0x1_0000) by (bit_vector);
    assert(b0 * 0x100 + b1 == v / 0x1_0000);
    assert(b2 * 0x100 + b3 == v % 0x1_0000);
    assert(u16_at(w, address) == Some((v / 0x1_0000) as u16));
    assert(u16_at(w, address + 2) == Some((v % 0x1_0000) as u16));
}

/// A 32-bit value that was written is the value that is read back, and its four bytes lie in
/// the list most significant first.
pub proof fn lemma_write_u32_read_u32(s: Seq<SectorView>, address: int, v: u32)
    requires
        full_sectors(s),
        0 <= address,
    ensures
        u32_at(written_all(s, address, be_bytes_u32(v)), address) == Some(v),
        forall|k: int| 0 <= k < 4 ==> byte_at(written_all(s, address, be_bytes_u32(v)), address + k) == Some(
            #[trigger] be_bytes_u32(v)[k],
        ),
{
    let b = be_bytes_u32(v);
    let w = written_all(s, address, b);
    lemma_written_all_read(s, address, b);
    assert(byte_at(w, address + 0) == Some(b[0]));
    assert(byte_at(w, address + 1) == Some(b[1]));
    assert(byte_at(w, address + 2) == Some(b[2]));
    assert(byte_at(w, address + 3) == Some(b[3]));
    lemma_compose_u32(w, address, v);
}

/// A 64-bit value that was written is the value that is read back, and its eight bytes lie in
/// the list most significant first.
pub proof fn lemma_write_u64_read_u64(s: Seq<SectorView>, address: int, v: u64)
    requires
        full_sectors(s),
        0 <= address,
    ensures
        u64_at(written_all(s, address, be_bytes_u64(v)), address) == Some(v),
        forall|k: int| 0 <= k < 8 ==> byte_at(written_all(s, address, be_bytes_u64(v)), address + k) == Some(
            #[trigger] be_bytes_u64(v)[k],
        ),
{
    let b = be_bytes_u64(v);
    let w = written_all(s, address, b);
    lemma_written_all_read(s, address, b);
    assert(byte_at(w, address + 0) == Some(b[0]));
    assert(byte_at(w, address + 1) == Some(b[1]));
    assert(byte_at(w, address + 2) == Some(b[2]));
    assert(byte_at(w, address + 3) == Some(b[3]));
    assert(byte_at(w, address + 4) == Some(b[4]));
    assert(byte_at(w, address + 5) == Some(b[5]));
    assert(byte_at(w, address + 6) == Some(b[6]));
    assert(byte_at(w, address + 7) == Some(b[7]));
    let h = (v / 0x1_0000_0000) as u32;
    let l = (v % 0x1_0000_0000) as u32;
    assert(b[0] == (h / 0x100_0000) as u8 && b[1] == (h / 0x1_0000 % 0x100) as u8 && b[2] == (h / 0x100 % 0x100) as u8
        && b[3] == (h % 0x100) as u8) by {
        assert((v / 0x100_0000_0000_0000) as u8 == (((v / 0x1_0000_0000) as u32) / 0x100_0000) as u8) by (bit_vector);
        assert((v / 0x1_0000_0000_0000 % 0x100) as u8 == (((v / 0x1_0000_0000) as u32) / 0x1_0000 % 0x100) as u8)
            by (bit_vector);
        assert((v / 0x100_0000_0000 % 0x100) as u8 == (((v / 0x1_0000_0000) as u32) / 0x100 % 0x100) as u8)
            by (bit_vector);
        assert((v / 0x1_0000_0000 % 0x100) as u8 == (((v / 0x1_0000_0000) as u32) % 0x100) as u8) by (bit_vector);
    }
    assert(b[4] == (l / 0x100_0000) as u8 && b[5] == (l / 0x1_0000 % 0x100) as u8 && b[6] == (l / 0x100 % 0x100) as u8
        && b[7] == (l % 0x100) as u8) by {
        assert((v / 0x100_0000 % 0x100) as u8 == (((v % 0x1_0000_0000) as u32) / 0x100_0000) as u8) by (bit_vector);
        assert((v / 0x1_0000 % 0x100) as u8 == (((v % 0x1_0000_0000) as u32) / 0x1_0000 % 0x100) as u8)
            by (bit_vector);
        assert((v / 0x100 % 0x100) as u8 == (((v % 0x1_0000_0000) as u32) / 0x100 % 0x100) as u8) by (bit_vector);
        assert((v % 0x100) as u8 == (((v % 0x1_0000_0000) as u32) % 0x100) as u8) by (bit_vector);
    }
    lemma_compose_u32(w, address, h);
    lemma_compose_u32(w, address + 4, l);
}

/// The byte at `address` is there, is not zero, and reads as the character `c`.
pub open spec fn spells(s: Seq<SectorView>, address: int, c: char) -> bool {
    &&& byte_at(s, address) is Some
    &&& byte_at(s, address)->0 != 0
    &&& c == byte_at(s, address)->0 as char
}

/// `text` is what the bytes from `address` on spell, one character per byte, up to the first
/// zero byte, the end of the list or the end of the address space.
pub open spec fn is_string_at(s: Seq<SectorView>, address: int, text: Seq<char>) -> bool {
    &&& forall|i: int| 0 <= i < text.len() ==> #[trigger] spells(s, address + i, text[i])
    &&& (address + text.len() > usize::MAX || byte_at(s, address + text.len()) is None || byte_at(
        s,
        address + text.len(),
    ) == Some(0u8))
}

#[derive(Debug, Clone)]
pub struct SectorList {
    sectors: Vec<Sector>,
}

impl View for SectorList {
    type V = Seq<SectorView>;

    closed spec fn view(&self) -> Seq<SectorView> {
        self.sectors@.map_values(|s: Sector| s@)
    }
}

impl PartialEq for SectorList {
    /// Two lists are equal when they hold equal sectors in the same order.
    fn eq(&self, other: &SectorList) -> (r: bool) {
        if self.sectors.len() != other.sectors.len() {
            assert(self@.len() != other@.len());
            return false;
        }
        let mut i: usize = 0;
        while i < self.sectors.len()
            invariant
                i <= self.sectors@.len(),
                self.sectors@.len() == other.sectors@.len(),
                forall|j: int| 0 <= j < i ==> self@[j] == other@[j],
            decreases self.sectors@.len() - i,
        {
            if !(self.sectors[i] == other.sectors[i]) {
                assert(self@[i as int] != other@[i as int]);
                return false;
            }
            i += 1;
        }
        assert(self@ =~= other@);
        true
    }
}

impl vstd::std_specs::cmp::PartialEqSpecImpl for SectorList {
    open spec fn obeys_eq_spec() -> bool {
        true
    }

    open spec fn eq_spec(&self, other: &SectorList) -> bool {
        self@ == other@
    }
}

impl Eq for SectorList {

}

impl SectorList {
    /// Every sector of a list holds 512 bytes.
    pub broadcast proof fn lemma_full(self)
        ensures
            #[trigger] full_sectors(self@),
    {
        assert forall|i: int| 0 <= i < self@.len() implies (#[trigger] self@[i]).data.len() == 512 by {
            self.sectors@[i].lemma_len();
        }
    }

    /// A list with no sectors.
    pub fn new() -> (list: SectorList)
        ensures
            list@ == Seq::<SectorView>::empty(),
    {
        let list = SectorList { sectors: Vec::new() };
        assert(list@ =~= Seq::<SectorView>::empty());
        list
    }

    /// Appends a copy of `sector`.
    pub fn add_sector(&mut self, sector: &Sector)
        ensures
            final(self)@ == old(self)@.push(sector@),
    {
        self.sectors.push(*sector);
        assert(self@ =~= old(self)@.push(sector@));
    }

    /// A list of `capacity` fresh sectors.
    pub fn with_capacity(capacity: usize) -> (list: SectorList)
        ensures
            list@ == grown(Seq::empty(), capacity as int),
    {
        let mut list = SectorList { sectors: Vec::with_capacity(capacity) };
        assert(list@ =~= grown(Seq::empty(), 0));
        let mut i: usize = 0;
        while i < capacity
            invariant
                i <= capacity,
                list@ == grown(Seq::empty(), i as int),
            decreases capacity - i,
        {
            list.allocate_new_sector();
            i += 1;
            assert(list@ =~= grown(Seq::empty(), i as int));
        }
        list
    }

    /// The number of sectors.
    pub fn len(&self) -> (n: usize)
        ensures
            n == self@.len(),
    {
        self.sectors.len()
    }

    /// Stores `value` at byte address `address`, first growing the list one fresh sector at a
    /// time until that address exists.
    pub fn write(&mut self, address: usize, value: u8)
        ensures
            final(self)@ == written(old(self)@, address as int, value),
    {
        let sector = address / SECTOR_SIZE;
        let offset = address % SECTOR_SIZE;
        while sector >= self.sectors.len()
            invariant
                self@ == grown(old(self)@, self@.len() as int),
                self@.len() >= old(self)@.len(),
                self@.len() <= old(self)@.len() || self@.len() <= sector + 1,
                sector == address / 512,
                self.sectors@.len() == self@.len(),
            decreases sector + 1 - self.sectors.len(),
        {
            let ghost before = self@;
            self.allocate_new_sector();
            assert(self@ =~= grown(old(self)@, self@.len() as int));
        }
        assert(self@ =~= grown(old(self)@, sector + 1));
        let ghost g = self@;
        self.sectors[sector].write(offset, value);
        assert(self@ =~= g.update(
            sector as int,
            SectorView { index: g[sector as int].index, data: g[sector as int].data.update(offset as int, value) },
        ));
    }

    /// The byte at `address`, or `None` when the list does not reach that far.
    pub fn read(&self, address: usize) -> (r: Option<u8>)
        ensures
            r == byte_at(self@, address as int),
    {
        let sector = address / SECTOR_SIZE;
        if sector >= self.sectors.len() {
            return None;
        }
        let offset = address % SECTOR_SIZE;
        Some(self.sectors[sector].read(offset))
    }

    /// The sector at position `sector`, if there is one.
    pub fn get_sector(&self, sector: usize) -> (r: Option<&Sector>)
        ensures
            r is Some <==> sector < self@.len(),
            r matches Some(s) ==> s@ == self@[sector as int],
    {
        if sector >= self.sectors.len() {
            return None;
        }
        Some(&self.sectors[sector])
    }

    /// Replaces the sector at position `sector_idx`. Fails, changing nothing, when the list has
    /// no such position.
    pub fn set_sector(&mut self, sector_idx: usize, sector: Sector) -> (r: Result<(), &'static str>)
        ensures
            r is Ok <==> sector_idx < old(self)@.len(),
            r is Ok ==> final(self)@ == old(self)@.update(sector_idx as int, sector@),
            r is Err ==> final(self)@ == old(self)@,
    {
        if sector_idx >= self.sectors.len() {
            return Err("Sector Index Out Of Range");
        }
        self.sectors[sector_idx] = sector;
        assert(self@ =~= old(self)@.update(sector_idx as int, sector@));
        Ok(())
    }

    /// The sectors, in order.
    pub fn sectors(&self) -> (r: &Vec<Sector>)
        ensures
            r@.map_values(|s: Sector| s@) == self@,
    {
        &self.sectors
    }

    /// The sectors, open for any change.
    pub fn sectors_mut(&mut self) -> (r: &mut Vec<Sector>)
        ensures
            r@.map_values(|s: Sector| s@) == old(self)@,
            final(self)@ == final(r)@.map_values(|s: Sector| s@),
    {
        &mut self.sectors
    }

    /// The byte at `address`.
    pub fn read_u8(&self, address: usize) -> (r: Option<u8>)
        ensures
            r == byte_at(self@, address as int),
    {
        self.read(address)
    }

    /// The 16-bit value stored most significant byte first at `address`, or `None` when the
    /// list does not hold both bytes.
    pub fn read_u16(&self, address: usize) -> (r: Option<u16>)
        ensures
            r == if address + 1 <= usize::MAX {
                u16_at(self@, address as int)
            } else {
                None
            },
    {
        if address > usize::MAX - 1 {
            return None;
        }
        match (self.read_u8(address), self.read_u8(address + 1)) {
            (Some(a), Some(b)) => Some(a as u16 * 0x100 + b as u16),
            _ => None,
        }
    }

    /// The 32-bit value stored most significant byte first at `address`, or `None` when the
    /// list does not hold all four bytes.
    pub fn read_u32(&self, address: usize) -> (r: Option<u32>)
        ensures
            r == if address + 3 <= usize::MAX {
                u32_at(self@, address as int)
            } else {
                None
            },
    {
        if address > usize::MAX - 3 {
            return None;
        }
        match (self.read_u16(address), self.read_u16(address + 2)) {
            (Some(a), Some(b)) => Some(a as u32 * 0x1_0000 + b as u32),
            _ => None,
        }
    }

    /// The 64-bit value stored most significant byte first at `address`, or `None` when the
    /// list does not hold all eight bytes.
    pub fn read_u64(&self, address: usize) -> (r: Option<u64>)
        ensures
            r == if address + 7 <= usize::MAX {
                u64_at(self@, address as int)
            } else {
                None
            },
    {
        if address > usize::MAX - 7 {
            return None;
        }
        match (self.read_u32(address), self.read_u32(address + 4)) {
            (Some(a), Some(b)) => Some(a as u64 * 0x1_0000_0000 + b as u64),
            _ => None,
        }
    }

    /// Stores `value` at `address`.
    pub fn write_u8(&mut self, address: usize, value: u8)
        ensures
            final(self)@ == written(old(self)@, address as int, value),
    {
        self.write(address, value);
    }

    /// Stores the two bytes of `value` at `address`, most significant first.
    pub fn write_u16(&mut self, address: usize, value: u16)
        requires
            address + 1 <= usize::MAX,
        ensures
            final(self)@ == written_all(old(self)@, address as int, be_bytes_u16(value)),
    {
        let bytes: [u8; 2] = [(value / 0x100) as u8, (value % 0x100) as u8];
        assert(bytes@ =~= be_bytes_u16(value));
        self.write_slice(&bytes, address);
    }

    /// Stores the four bytes of `value` at `address`, most significant first. The value is
    /// then read back from `address`, each of its bytes from its own address, and every
    /// other byte that the list held is as it was.
    pub fn write_u32(&mut self, address: usize, value: u32)
        requires
            address + 3 <= usize::MAX,
        ensures
            final(self)@ == written_all(old(self)@, address as int, be_bytes_u32(value)),
            u32_at(final(self)@, address as int) == Some(value),
            forall|k: int| 0 <= k < 4 ==> byte_at(final(self)@, address + k) == Some(#[trigger] be_bytes_u32(value)[k]),
            forall|other: int|
                0 <= other < 512 * old(self)@.len() && !(address <= other < address + 4) ==> #[trigger] byte_at(
                    final(self)@,
                    other,
                ) == byte_at(old(self)@, other),
    {
        proof {
            self.lemma_full();
            lemma_write_u32_read_u32(self@, address as int, value);
            assert forall|other: int|
                0 <= other < 512 * self@.len() && !(address <= other < address + 4) implies #[trigger] byte_at(
                written_all(self@, address as int, be_bytes_u32(value)),
                other,
            ) == byte_at(self@, other) by {
                lemma_written_all_elsewhere(self@, address as int, be_bytes_u32(value), other);
            }
        }
        let bytes: [u8; 4] = [
            (value / 0x100_0000) as u8,
            (value / 0x1_0000 % 0x100) as u8,
            (value / 0x100 % 0x100) as u8,
            (value % 0x100) as u8,
        ];
        assert(bytes@ =~= be_bytes_u32(value));
        self.write_slice(&bytes, address);
    }

    /// Stores the eight bytes of `value` at `address`, most significant first.
    pub fn write_u64(&mut self, address: usize, value: u64)
        requires
            address + 7 <= usize::MAX,
        ensures
            final(self)@ == written_all(old(self)@, address as int, be_bytes_u64(value)),
    {
        let bytes: [u8; 8] = [
            (value / 0x100_0000_0000_0000) as u8,
            (value / 0x1_0000_0000_0000 % 0x100) as u8,
            (value / 0x100_0000_0000 % 0x100) as u8,
            (value / 0x1_0000_0000 % 0x100) as u8,
            (value / 0x100_0000 % 0x100) as u8,
            (value / 0x1_0000 % 0x100) as u8,
            (value / 0x100 % 0x100) as u8,
            (value % 0x100) as u8,
        ];
        assert(bytes@ =~= be_bytes_u64(value));
        self.write_slice(&bytes, address);
    }

    /// The bytes from `address` up to, and without, the first zero byte. The run also ends
    /// where the list ends.
    pub fn read_until_null(&self, address: usize) -> (v: Vec<u8>)
        ensures
            is_text_at(self@, address as int, v@),
    {
        let mut v: Vec<u8> = Vec::new();
        let mut index: usize = 0;
        while index <= usize::MAX - address
            invariant_except_break
                index == v@.len(),
            invariant
                forall|i: int| 0 <= i < v@.len() ==> byte_at(self@, address + i) == Some(#[trigger] v@[i]) && v@[i] != 0,
            ensures
                is_text_at(self@, address as int, v@),
            decreases usize::MAX - index,
        {
            match self.read_u8(address + index) {
                Some(byte) => {
                    if byte == 0 {
                        break;
                    }
                    v.push(byte);
                    if index == usize::MAX {
                        break;
                    }
                    index += 1;
                },
                None => {
                    break;
                },
            }
        }
        v
    }

    /// The text stored at `address`: one character per byte, up to the first zero byte or the
    /// end of the list. The list is left as it was.
    pub fn read_asciiz(&mut self, address: usize) -> (text: String)
        ensures
            final(self)@ == old(self)@,
            is_string_at(old(self)@, address as int, text@),
    {
        let data: Vec<u8> = self.read_until_null(address);
        let mut s = String::new();
        let mut i: usize = 0;
        while i < data.len()
            invariant
                i <= data@.len(),
                s@.len() == i,
                forall|j: int| 0 <= j < i ==> (#[trigger] s@[j]) == data@[j] as char,
            decreases data@.len() - i,
        {
            push_char(&mut s, data[i] as char);
            i += 1;
        }
        proof {
            let list = old(self)@;
            assert(self@ == list);
            assert forall|j: int| 0 <= j < s@.len() implies #[trigger] spells(list, address + j, s@[j]) by {
                assert(byte_at(list, address + j) == Some(data@[j]));
            }
        }
        s
    }

    /// Stores `text` at `address`, one byte per character, leaving out every character above
    /// `~` (0x7E). Returns the number of bytes stored.
    pub fn write_asciiz(&mut self, address: usize, text: String) -> (bytes_written: usize)
        requires
            address + text@.len() <= usize::MAX,
        ensures
            bytes_written == printable_bytes(text@).len(),
            final(self)@ == written_all(old(self)@, address as int, printable_bytes(text@)),
    {
        let chars = text.as_str();
        let n = chars.unicode_len();
        let mut bytes_written: usize = 0;
        let mut i: usize = 0;
        while i < n
            invariant
                i <= n,
                n == text@.len(),
                chars@ == text@,
                address + text@.len() <= usize::MAX,
                bytes_written <= i,
                bytes_written == printable_bytes(text@.take(i as int)).len(),
                self@ == written_all(old(self)@, address as int, printable_bytes(text@.take(i as int))),
            decreases n - i,
        {
            let chr = chars.get_char(i);
            assert(text@.take(i as int + 1).drop_last() =~= text@.take(i as int));
            assert(text@.take(i as int + 1).last() == chr);
            if chr as u32 <= 0x7E {
                let ghost before = printable_bytes(text@.take(i as int));
                assert(printable_bytes(text@.take(i as int + 1)).drop_last() =~= before);
                self.write(address + bytes_written, chr as u8);
                bytes_written += 1;
            }
            i += 1;
        }
        assert(text@.take(i as int) =~= text@);
        bytes_written
    }

    /// Moves every sector of this list to the end of `other`, leaving this list empty, and
    /// hands `other` back.
    pub fn prepend<'a>(&mut self, other: &'a mut SectorList) -> (r: &'a SectorList)
        ensures
            final(other)@ == old(other)@ + old(self)@,
            final(self)@ == Seq::<SectorView>::empty(),
            r@ == final(other)@,
    {
        other.sectors.append(&mut self.sectors);
        assert(other@ =~= old(other)@ + old(self)@);
        assert(self@ =~= Seq::<SectorView>::empty());
        other
    }

    /// Moves every sector of `other` to the end of this list, leaving `other` empty, and
    /// hands this list back.
    pub fn append<'a>(&'a mut self, other: &'a mut SectorList) -> (r: &'a SectorList)
        ensures
            final(self)@ == old(self)@ + old(other)@,
            final(other)@ == Seq::<SectorView>::empty(),
            r@ == final(self)@,
    {
        self.sectors.append(&mut other.sectors);
        assert(self@ =~= old(self)@ + old(other)@);
        assert(other@ =~= Seq::<SectorView>::empty());
        self
    }

    /// Appends one fresh sector.
    fn allocate_new_sector(&mut self)
        ensures
            final(self)@ == old(self)@.push(fresh_sector(old(self)@.len() as int)),
            final(self).sectors@.len() == old(self).sectors@.len() + 1,
    {
        let next_index = self.sectors.len();
        let index = (next_index as u64 % 0x1_0000_0000u64) as BlockIndex;
        self.sectors.push(Sector::new(index));
        assert(self@ =~= old(self)@.push(fresh_sector(old(self)@.len() as int)));
    }

    /// The address carried by the first sector.
    pub fn get_sector_begin(&self) -> (r: u32)
        requires
            self@.len() > 0,
        ensures
            r == self@[0].index,
    {
        self.sectors[0].index()
    }

    /// Stores the bytes of `slice` one after another from `start_address` on.
    pub fn write_slice(&mut self, slice: &[u8], start_address: usize)
        requires
            start_address + slice@.len() <= usize::MAX + 1,
        ensures
            final(self)@ == written_all(old(self)@, start_address as int, slice@),
    {
        let mut idx: usize = 0;
        while idx < slice.len()
            invariant
                idx <= slice@.len(),
                start_address + slice@.len() <= usize::MAX + 1,
                self@ == written_all(old(self)@, start_address as int, slice@.take(idx as int)),
            decreases slice@.len() - idx,
        {
            self.write(start_address + idx, slice[idx]);
            idx += 1;
            assert(slice@.take(idx as int).drop_last() =~= slice@.take(idx as int - 1));
        }
        assert(slice@.take(idx as int) =~= slice@);
    }
}

} // verus!
