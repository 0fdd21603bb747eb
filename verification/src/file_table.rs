//! The file table: a fixed directory of 15 named entries that lives in one sector of a drive.
//! An entry whose type is `Null` is a free slot; creating a file takes the lowest free slot.

use vstd::prelude::*;
use vstd::string::StringSliceAdditionalSpecFns;
use crate::ata::{Ata, block_of, image_of, with_block};
use crate::codec::{get_u32_le, get_u64_le, le_byte, le_byte_of, le_u32, le_u64, lemma_le_u32, lemma_le_u64, push_char};
use crate::file_systems::{Block, Disk};
use crate::sector::BlockIndex;

verus! {

/// Bytes of a sector that the entries of a table occupy.
pub const TABLE_SIZE: usize = 480;

/// Bytes that one entry occupies.
pub const FT_ENTRY_ALIGN: usize = 32;

/// Entries in a table.
pub const ENTRIES_PER_TABLE: usize = 15;

/// Bytes of a name.
pub const SMALL_STR_LEN: usize = 8;

/// What a slot of the table holds.
#[derive(Debug, Clone, Copy, PartialEq, Eq, Structural)]
pub enum FileType {
    /// Nothing: the slot is free.
    Null,
    File,
    Directory,
    Device,
}

/// The byte that stands for a file type on a drive.
pub open spec fn tag_of(t: FileType) -> u8 {
    match t {
        FileType::Null => 0,
        FileType::File => 1,
        FileType::Directory => 2,
        FileType::Device => 3,
    }
}

/// The file type that a byte stands for. A byte that stands for none reads as a free slot.
pub open spec fn type_of_tag(tag: u8) -> FileType {
    if tag == 1 {
        FileType::File
    } else if tag == 2 {
        FileType::Directory
    } else if tag == 3 {
        FileType::Device
    } else {
        FileType::Null
    }
}

impl FileType {
    /// The byte that stands for this type on a drive.
    pub fn tag(self) -> (b: u8)
        ensures
            b == tag_of(self),
    {
        match self {
            FileType::Null => 0,
            FileType::File => 1,
            FileType::Directory => 2,
            FileType::Device => 3,
        }
    }

    /// The type that `tag` stands for.
    pub fn from_tag(tag: u8) -> (t: FileType)
        ensures
            t == type_of_tag(tag),
    {
        if tag == 1 {
            FileType::File
        } else if tag == 2 {
            FileType::Directory
        } else if tag == 3 {
            FileType::Device
        } else {
            FileType::Null
        }
    }

    /// The word shown for this type in listings.
    pub fn label(self) -> (s: &'static str)
        ensures
            s@ == (match self {
                FileType::Null => "Empty"@,
                FileType::File => "File"@,
                FileType::Directory => "Dir"@,
                FileType::Device => "Device"@,
            }),
    {
        match self {
            FileType::Null => "Empty",
            FileType::File => "File",
            FileType::Directory => "Dir",
            FileType::Device => "Device",
        }
    }
}

/// A name as the table stores it: the bytes of the text, then zeros up to eight bytes.
pub open spec fn padded(bytes: Seq<u8>) -> Seq<u8> {
    Seq::new(
        8,
        |i: int|
            if i < bytes.len() {
                bytes[i]
            } else {
                0u8
            },
    )
}

/// Where the text that starts at `from` ends: at the first zero byte, or at the end of
/// `bytes`.
pub open spec fn text_end(bytes: Seq<u8>, from: int) -> int
    decreases bytes.len() - from,
{
    if from < 0 || from >= bytes.len() || bytes[from] == 0 {
        from
    } else {
        text_end(bytes, from + 1)
    }
}

/// The characters that a stored name spells: one per byte, up to the first zero byte.
pub open spec fn spelled(bytes: Seq<u8>) -> Seq<char> {
    Seq::new(text_end(bytes, 0) as nat, |i: int| bytes[i] as char)
}

/// A name of at most eight bytes, stored in exactly eight.
#[derive(Debug, Clone, Copy)]
pub struct SmallString {
    data: [u8; 8],
}

impl View for SmallString {
    type V = Seq<u8>;

    closed spec fn view(&self) -> Seq<u8> {
        self.data@
    }
}

impl PartialEq for SmallString {
    /// Two names are equal when all eight bytes are.
    fn eq(&self, other: &SmallString) -> (r: bool) {
        let mut i: usize = 0;
        while i < 8
            invariant
                i <= 8,
                forall|j: int| 0 <= j < i ==> self@[j] == other@[j],
            decreases 8 - i,
        {
            if self.data[i] != other.data[i] {
                return false;
            }
            i += 1;
        }
        assert(self@ =~= other@);
        true
    }
}

impl vstd::std_specs::cmp::PartialEqSpecImpl for SmallString {
    open spec fn obeys_eq_spec() -> bool {
        true
    }

    open spec fn eq_spec(&self, other: &SmallString) -> bool {
        self@ == other@
    }
}

impl Eq for SmallString {

}

impl SmallString {
    /// Every name is stored in eight bytes.
    pub broadcast proof fn lemma_len(self)
        ensures
            #[trigger] self@.len() == 8,
    {
    }

    /// The name that spells `text`. A text of more than eight bytes is not a name.
    pub fn from_str(text: &str) -> (name: SmallString)
        requires
            text.spec_bytes().len() <= SMALL_STR_LEN,
        ensures
            name@ == padded(text.spec_bytes()),
    {
        let mut buffer: [u8; 8] = [0u8; 8];
        let bytes = text.as_bytes();
        let mut index: usize = 0;
        while index < bytes.len()
            invariant
                index <= bytes@.len() <= 8,
                bytes@ == text.spec_bytes(),
                forall|j: int| 0 <= j < index ==> buffer@[j] == bytes@[j],
                forall|j: int| index <= j < 8 ==> buffer@[j] == 0u8,
            decreases bytes@.len() - index,
        {
            buffer[index] = bytes[index];
            index += 1;
        }
        let name = SmallString { data: buffer };
        assert(name@ =~= padded(text.spec_bytes()));
        name
    }

    /// The name made of the eight bytes `data`.
    pub fn from_bytes(data: [u8; 8]) -> (name: SmallString)
        ensures
            name@ == data@,
    {
        SmallString { data }
    }

    /// The eight bytes of the name.
    pub fn bytes(&self) -> (r: [u8; 8])
        ensures
            r@ == self@,
    {
        self.data
    }

    /// Appends the characters of the name to `text`: one per byte, up to the first zero byte.
    pub fn to_string(&self, text: &mut String)
        ensures
            final(text)@ == old(text)@ + spelled(self@),
    {
        let mut i: usize = 0;
        while i < 8
            invariant_except_break
                i <= 8,
            invariant
                0 <= i <= 8,
                self@.len() == 8,
                text_end(self@, 0) == text_end(self@, i as int),
                text@ == old(text)@ + Seq::new(i as nat, |j: int| self@[j] as char),
            ensures
                text_end(self@, 0) == i,
            decreases 8 - i,
        {
            let byte = self.data[i];
            if byte == 0 {
                break;
            }
            push_char(text, byte as char);
            assert(text@ =~= old(text)@ + Seq::new((i + 1) as nat, |j: int| self@[j] as char));
            i += 1;
        }
    }
}

/// The mathematical value of a [`FileTableEntry`].
pub struct FileTableEntryView {
    pub file_type: FileType,
    pub metanode_index: BlockIndex,
    pub bus: u8,
    pub disk: u8,
    pub table_index: usize,
    pub name: Seq<u8>,
}

/// The value of a free slot.
pub open spec fn empty_entry() -> FileTableEntryView {
    FileTableEntryView {
        file_type: FileType::Null,
        metanode_index: 0,
        bus: 0,
        disk: 1,
        table_index: 0,
        name: padded(Seq::empty()),
    }
}

/// Byte `i` of an entry as it lies on a drive: the type's tag at 0, the first node's block at
/// 4, bus and drive at 8 and 9, the slot number at 16, the name at 24. Numbers lie least
/// significant byte first; every other byte is zero.
pub open spec fn entry_byte(e: FileTableEntryView, i: int) -> u8 {
    if i == 0 {
        tag_of(e.file_type)
    } else if 4 <= i < 8 {
        le_byte(e.metanode_index as int, i - 4)
    } else if i == 8 {
        e.bus
    } else if i == 9 {
        e.disk
    } else if 16 <= i < 24 {
        le_byte(e.table_index as int, i - 16)
    } else if 24 <= i < 32 {
        e.name[i - 24]
    } else {
        0
    }
}

/// The 32 bytes of an entry as they lie on a drive.
pub open spec fn entry_bytes(e: FileTableEntryView) -> Seq<u8> {
    Seq::new(32, |i: int| entry_byte(e, i))
}

/// The entry that the 32 bytes from `at` on stand for.
pub open spec fn entry_of(bytes: Seq<u8>, at: int) -> FileTableEntryView {
    FileTableEntryView {
        file_type: type_of_tag(bytes[at]),
        metanode_index: le_u32(bytes, at + 4),
        bus: bytes[at + 8],
        disk: bytes[at + 9],
        table_index: le_u64(bytes, at + 16) as usize,
        name: bytes.subrange(at + 24, at + 32),
    }
}

/// An entry that was laid out in a buffer is read back from it unchanged.
pub proof fn lemma_entry_round_trip(e: FileTableEntry, bytes: Seq<u8>, at: int)
    requires
        0 <= at,
        at + 32 <= bytes.len(),
        forall|i: int| 0 <= i < 32 ==> bytes[at + i] == entry_byte(e@, i),
    ensures
        entry_of(bytes, at) == e@,
{
    let v = e@;
    assert(bytes[at + 0] == entry_byte(v, 0));
    assert(bytes[at + 8] == entry_byte(v, 8));
    assert(bytes[at + 9] == entry_byte(v, 9));
    assert forall|k: int| 0 <= k < 4 implies bytes[at + 4 + k] == #[trigger] le_byte(v.metanode_index as int, k) by {
        assert(bytes[at + (4 + k)] == entry_byte(v, 4 + k));
    }
    lemma_le_u32(bytes, at + 4, v.metanode_index);
    let slot = v.table_index as u64;
    assert forall|k: int| 0 <= k < 8 implies bytes[at + 16 + k] == #[trigger] le_byte(slot as int, k) by {
        assert(bytes[at + (16 + k)] == entry_byte(v, 16 + k));
    }
    lemma_le_u64(bytes, at + 16, slot);
    assert(bytes.subrange(at + 24, at + 32) =~= v.name) by {
        assert forall|k: int| 0 <= k < 8 implies bytes.subrange(at + 24, at + 32)[k] == v.name[k] by {
            assert(bytes[at + (24 + k)] == entry_byte(v, 24 + k));
        }
    }
}

/// One slot of the file table.
#[derive(Debug, Clone, Copy)]
pub struct FileTableEntry {
    file_type: FileType,
    metanode_index: BlockIndex,
    bus: u8,
    disk: u8,
    table_index: usize,
    name: SmallString,
}

impl View for FileTableEntry {
    type V = FileTableEntryView;

    closed spec fn view(&self) -> FileTableEntryView {
        FileTableEntryView {
            file_type: self.file_type,
            metanode_index: self.metanode_index,
            bus: self.bus,
            disk: self.disk,
            table_index: self.table_index,
            name: self.name@,
        }
    }
}

impl PartialEq for FileTableEntry {
    /// Two entries are equal when every field is.
    fn eq(&self, other: &FileTableEntry) -> (r: bool) {
        self.file_type == other.file_type && self.metanode_index == other.metanode_index && self.bus
            == other.bus && self.disk == other.disk && self.table_index == other.table_index
            && self.name == other.name
    }
}

impl vstd::std_specs::cmp::PartialEqSpecImpl for FileTableEntry {
    open spec fn obeys_eq_spec() -> bool {
        true
    }

    open spec fn eq_spec(&self, other: &FileTableEntry) -> bool {
        self@ == other@
    }
}

impl Eq for FileTableEntry {

}

impl FileTableEntry {
    /// The name of every entry is stored in eight bytes.
    pub broadcast proof fn lemma_name_len(self)
        ensures
            #[trigger] self@.name.len() == 8,
    {
    }

    /// The name.
    pub fn name(&self) -> (r: SmallString)
        ensures
            r@ == self@.name,
    {
        self.name
    }

    /// A free slot.
    pub fn empty() -> (e: FileTableEntry)
        ensures
            e@ == empty_entry(),
    {
        let name = SmallString { data: [0u8; 8] };
        assert(name@ =~= padded(Seq::empty()));
        FileTableEntry { table_index: 0, metanode_index: 0, bus: 0, disk: 1, file_type: FileType::Null, name }
    }

    /// The entry of a file called `name` on `disk`, in slot `table_index`, whose first node is
    /// at block `index`.
    pub fn new_file(table_index: usize, name: &str, disk: &Disk, index: BlockIndex) -> (e: FileTableEntry)
        requires
            name.spec_bytes().len() <= SMALL_STR_LEN,
        ensures
            e@ == (FileTableEntryView {
                file_type: FileType::File,
                metanode_index: index,
                bus: disk@.bus,
                disk: disk@.drive,
                table_index,
                name: padded(name.spec_bytes()),
            }),
    {
        FileTableEntry {
            metanode_index: index,
            table_index,
            file_type: FileType::File,
            bus: disk.bus(),
            disk: disk.drive(),
            name: SmallString::from_str(name),
        }
    }

    /// The block of the file's first node.
    pub fn index(&self) -> (r: BlockIndex)
        ensures
            r == self@.metanode_index,
    {
        self.metanode_index
    }

    /// The slot of the table that this entry says it is in.
    pub fn table_index(&self) -> (r: usize)
        ensures
            r == self@.table_index,
    {
        self.table_index
    }

    pub fn is_file(&self) -> (r: bool)
        ensures
            r == (self@.file_type == FileType::File),
    {
        self.file_type == FileType::File
    }

    pub fn is_device(&self) -> (r: bool)
        ensures
            r == (self@.file_type == FileType::Device),
    {
        self.file_type == FileType::Device
    }

    pub fn is_dir(&self) -> (r: bool)
        ensures
            r == (self@.file_type == FileType::Directory),
    {
        self.file_type == FileType::Directory
    }

    /// Points the entry at another first node.
    pub fn update_index(&mut self, index: BlockIndex)
        ensures
            final(self)@ == (FileTableEntryView { metanode_index: index, ..old(self)@ }),
    {
        self.metanode_index = index;
    }

    pub fn set_filetype(&mut self, filetype: FileType)
        ensures
            final(self)@ == (FileTableEntryView { file_type: filetype, ..old(self)@ }),
    {
        self.file_type = filetype;
    }

    /// Renames the entry. A text of more than eight bytes is not a name.
    pub fn set_filename(&mut self, name: &str)
        requires
            name.spec_bytes().len() <= SMALL_STR_LEN,
        ensures
            final(self)@ == (FileTableEntryView { name: padded(name.spec_bytes()), ..old(self)@ }),
    {
        self.name = SmallString::from_str(name);
    }

    pub fn set_table_index(&mut self, index: usize)
        ensures
            final(self)@ == (FileTableEntryView { table_index: index, ..old(self)@ }),
    {
        self.table_index = index;
    }

    pub fn filetype(&self) -> (r: FileType)
        ensures
            r == self@.file_type,
    {
        self.file_type
    }

    pub fn disk_id(&self) -> (r: u8)
        ensures
            r == self@.disk,
    {
        self.disk
    }

    pub fn bus_id(&self) -> (r: u8)
        ensures
            r == self@.bus,
    {
        self.bus
    }

    /// Byte `i` of the entry as it lies on a drive.
    pub fn byte_at(&self, i: usize) -> (b: u8)
        requires
            i < FT_ENTRY_ALIGN,
        ensures
            b == entry_byte(self@, i as int),
    {
        if i == 0 {
            self.file_type.tag()
        } else if 4 <= i && i < 8 {
            le_byte_of(self.metanode_index as u64, i - 4)
        } else if i == 8 {
            self.bus
        } else if i == 9 {
            self.disk
        } else if 16 <= i && i < 24 {
            le_byte_of(self.table_index as u64, i - 16)
        } else if 24 <= i {
            self.name.bytes()[i - 24]
        } else {
            0
        }
    }

    /// The 32 bytes of the entry as they lie on a drive.
    pub fn to_bytes(&self) -> (bytes: [u8; 32])
        ensures
            bytes@ == entry_bytes(self@),
    {
        let mut bytes = [0u8; 32];
        let mut i: usize = 0;
        while i < 32
            invariant
                i <= 32,
                forall|j: int| 0 <= j < i ==> bytes@[j] == entry_byte(self@, j),
            decreases 32 - i,
        {
            bytes[i] = self.byte_at(i);
            i += 1;
        }
        assert(bytes@ =~= entry_bytes(self@));
        bytes
    }

    /// The entry that the 32 bytes from `at` on stand for.
    pub fn from_bytes(bytes: &[u8], at: usize) -> (e: FileTableEntry)
        requires
            at + FT_ENTRY_ALIGN <= bytes@.len(),
        ensures
            e@ == entry_of(bytes@, at as int),
    {
        let _ = bytes.len();
        let mut name = [0u8; 8];
        let mut i: usize = 0;
        while i < 8
            invariant
                i <= 8,
                at + 32 <= bytes@.len() <= usize::MAX,
                forall|j: int| 0 <= j < i ==> name@[j] == bytes@[at + 24 + j],
            decreases 8 - i,
        {
            name[i] = bytes[at + 24 + i];
            i += 1;
        }
        assert(name@ =~= bytes@.subrange(at + 24, at + 32));
        FileTableEntry {
            file_type: FileType::from_tag(bytes[at]),
            metanode_index: get_u32_le(bytes, at + 4),
            bus: bytes[at + 8],
            disk: bytes[at + 9],
            table_index: #[verifier::truncate] (get_u64_le(bytes, at + 16) as usize),
            name: SmallString::from_bytes(name),
        }
    }
}

/// The mathematical value of a [`FileTable`].
pub struct FileTableView {
    /// Bus and drive of the drive the table belongs to.
    pub disk: (u8, u8),
    /// The block number the table records for itself.
    pub sector_index: BlockIndex,
    /// The 15 slots.
    pub entries: Seq<FileTableEntryView>,
}

/// The first free slot at or after `from`; the number of slots when there is none.
pub open spec fn first_free(entries: Seq<FileTableEntryView>, from: int) -> int
    decreases entries.len() - from,
{
    if from < 0 || from >= entries.len() || entries[from].file_type == FileType::Null {
        from
    } else {
        first_free(entries, from + 1)
    }
}

/// The first slot at or after `from` that is in use under the name `name`; the number of
/// slots when there is none.
pub open spec fn first_named(entries: Seq<FileTableEntryView>, name: Seq<u8>, from: int) -> int
    decreases entries.len() - from,
{
    if from < 0 || from >= entries.len() || (entries[from].file_type != FileType::Null && entries[from].name
        == name) {
        from
    } else {
        first_named(entries, name, from + 1)
    }
}

/// The entries that are in use, in slot order.
pub open spec fn in_use(entries: Seq<FileTableEntryView>) -> Seq<FileTableEntryView>
    decreases entries.len(),
{
    if entries.len() == 0 {
        Seq::empty()
    } else if entries.last().file_type != FileType::Null {
        in_use(entries.drop_last()).push(entries.last())
    } else {
        in_use(entries.drop_last())
    }
}

/// What slot `slot` holds once a file called `name` has been created in it.
pub open spec fn claimed(e: FileTableEntryView, slot: int, name: Seq<u8>) -> FileTableEntryView {
    FileTableEntryView { file_type: FileType::File, table_index: slot as usize, name, ..e }
}

/// The slots after a file called `name` has been created: the lowest free slot is claimed.
/// A full table stays as it is.
pub open spec fn created(entries: Seq<FileTableEntryView>, name: Seq<u8>) -> Seq<FileTableEntryView> {
    let slot = first_free(entries, 0);
    if slot < entries.len() {
        entries.update(slot, claimed(entries[slot], slot, name))
    } else {
        entries
    }
}

/// The slots after slot `slot` has been given up: its type is `Null` again.
pub open spec fn released(entries: Seq<FileTableEntryView>, slot: int) -> Seq<FileTableEntryView> {
    entries.update(slot, FileTableEntryView { file_type: FileType::Null, ..entries[slot] })
}

/// `first_free` finds a free slot that has no free slot before it.
pub proof fn lemma_first_free(entries: Seq<FileTableEntryView>, from: int)
    requires
        0 <= from <= entries.len(),
    ensures
        from <= first_free(entries, from) <= entries.len(),
        forall|j: int| from <= j < first_free(entries, from) ==> (#[trigger] entries[j]).file_type != FileType::Null,
        first_free(entries, from) < entries.len() ==> entries[first_free(entries, from)].file_type
            == FileType::Null,
    decreases entries.len() - from,
{
    if from < entries.len() && entries[from].file_type != FileType::Null {
        lemma_first_free(entries, from + 1);
    }
}

/// `first_named` finds a slot in use under the name that has no such slot before it.
pub proof fn lemma_first_named(entries: Seq<FileTableEntryView>, name: Seq<u8>, from: int)
    requires
        0 <= from <= entries.len(),
    ensures
        from <= first_named(entries, name, from) <= entries.len(),
        forall|j: int|
            from <= j < first_named(entries, name, from) ==> !((#[trigger] entries[j]).file_type != FileType::Null
                && entries[j].name == name),
        first_named(entries, name, from) < entries.len() ==> {
            &&& entries[first_named(entries, name, from)].file_type != FileType::Null
            &&& entries[first_named(entries, name, from)].name == name
        },
    decreases entries.len() - from,
{
    if from < entries.len() && !(entries[from].file_type != FileType::Null && entries[from].name == name) {
        lemma_first_named(entries, name, from + 1);
    }
}

/// Creating a file fills the lowest free slot and touches no other slot.
pub proof fn lemma_create_fills_lowest(entries: Seq<FileTableEntryView>, name: Seq<u8>)
    requires
        first_free(entries, 0) < entries.len(),
    ensures
        created(entries, name).len() == entries.len(),
        created(entries, name)[first_free(entries, 0)] == claimed(
            entries[first_free(entries, 0)],
            first_free(entries, 0),
            name,
        ),
        forall|j: int|
            0 <= j < entries.len() && j != first_free(entries, 0) ==> created(entries, name)[j] == entries[j],
        forall|j: int| 0 <= j < first_free(entries, 0) ==> (#[trigger] entries[j]).file_type != FileType::Null,
{
    lemma_first_free(entries, 0);
}

/// A slot that was given up is the slot the next file gets, unless a lower slot is free: after
/// a file is created and its slot released, the lowest free slot is that same slot.
pub proof fn lemma_released_slot_is_reused(entries: Seq<FileTableEntryView>, first: Seq<u8>, second: Seq<u8>)
    requires
        first_free(entries, 0) < entries.len(),
    ensures
        first_free(released(created(entries, first), first_free(entries, 0)), 0) == first_free(entries, 0),
        created(released(created(entries, first), first_free(entries, 0)), second)[first_free(entries, 0)]
            == claimed(entries[first_free(entries, 0)], first_free(entries, 0), second),
        forall|j: int|
            0 <= j < entries.len() && j != first_free(entries, 0) ==> created(
                released(created(entries, first), first_free(entries, 0)),
                second,
            )[j] == entries[j],
{
    let slot = first_free(entries, 0);
    let again = released(created(entries, first), slot);
    lemma_first_free(entries, 0);
    lemma_first_free(again, 0);
    assert(again[slot].file_type == FileType::Null);
    assert forall|j: int| 0 <= j < slot implies (#[trigger] again[j]).file_type != FileType::Null by {
        assert(again[j] == entries[j]);
    }
    if first_free(again, 0) < slot {
        assert(again[first_free(again, 0)].file_type != FileType::Null);
    }
}

/// Byte `i` of a table as it lies on a drive: bus and drive at 0 and 1, the table's own block
/// at 4, least significant byte first, and the 15 entries from 32 on, 32 bytes each. Every
/// other byte is zero.
pub open spec fn table_byte(t: FileTableView, i: int) -> u8 {
    if i == 0 {
        t.disk.0
    } else if i == 1 {
        t.disk.1
    } else if 4 <= i < 8 {
        le_byte(t.sector_index as int, i - 4)
    } else if 32 <= i < 512 {
        entry_byte(t.entries[(i - 32) / 32], (i - 32) % 32)
    } else {
        0
    }
}

/// The 512 bytes of a table as they lie on a drive.
pub open spec fn table_bytes(t: FileTableView) -> Seq<u8> {
    Seq::new(512, |i: int| table_byte(t, i))
}

/// The table that 512 bytes stand for.
pub open spec fn table_of(bytes: Seq<u8>) -> FileTableView {
    FileTableView {
        disk: (bytes[0], bytes[1]),
        sector_index: le_u32(bytes, 4),
        entries: Seq::new(15, |k: int| entry_of(bytes, 32 + 32 * k)),
    }
}

/// The directory of one drive.
#[derive(Debug, Clone, Copy)]
pub struct FileTable {
    disk: (u8, u8),
    sector_index: BlockIndex,
    entries: [FileTableEntry; 15],
}

impl View for FileTable {
    type V = FileTableView;

    closed spec fn view(&self) -> FileTableView {
        FileTableView {
            disk: self.disk,
            sector_index: self.sector_index,
            entries: Seq::new(15, |i: int| self.entries@[i]@),
        }
    }
}

impl Default for FileTable {
    fn default() -> (t: FileTable)
        ensures
            t@ == (FileTableView { disk: (0u8, 1u8), sector_index: 0, entries: Seq::new(15, |i: int| empty_entry()) }),
    {
        FileTable::new(0)
    }
}

impl FileTable {
    /// A table has 15 slots, and every name in it is stored in eight bytes.
    pub broadcast proof fn lemma_shape(self)
        ensures
            #![trigger self@]
            self@.entries.len() == 15,
            forall|i: int| 0 <= i < 15 ==> (#[trigger] self@.entries[i]).name.len() == 8,
    {
    }

    /// A table that is written out and read back is the same table.
    pub proof fn lemma_round_trip(self)
        ensures
            table_of(table_bytes(self@)) == self@,
    {
        let t = self@;
        let bytes = table_bytes(t);
        assert(bytes[0] == table_byte(t, 0));
        assert(bytes[1] == table_byte(t, 1));
        assert forall|k: int| 0 <= k < 4 implies bytes[4 + k] == #[trigger] le_byte(t.sector_index as int, k) by {
            assert(bytes[4 + k] == table_byte(t, 4 + k));
        }
        lemma_le_u32(bytes, 4, t.sector_index);
        assert forall|k: int| 0 <= k < 15 implies entry_of(bytes, 32 + 32 * k) == t.entries[k] by {
            assert forall|i: int| 0 <= i < 32 implies bytes[32 + 32 * k + i] == entry_byte(t.entries[k], i) by {
                let p = 32 + 32 * k + i;
                assert(bytes[p] == table_byte(t, p));
                assert((p - 32) / 32 == k && (p - 32) % 32 == i);
            }
            lemma_entry_round_trip(self.entries@[k], bytes, 32 + 32 * k);
        }
        assert(table_of(bytes).entries =~= t.entries);
    }

    /// An empty table for drive 1 on bus 0 that records `sector` as its block number.
    pub fn new(sector: BlockIndex) -> (t: FileTable)
        ensures
            t@ == (FileTableView {
                disk: (0u8, 1u8),
                sector_index: sector,
                entries: Seq::new(15, |i: int| empty_entry()),
            }),
    {
        let t = FileTable { disk: (0, 1), sector_index: sector, entries: [FileTableEntry::empty();15] };
        assert(t@.entries =~= Seq::new(15, |i: int| empty_entry()));
        t
    }

    /// A copy of the 15 slots.
    pub fn entries(&self) -> (r: [FileTableEntry; 15])
        ensures
            Seq::new(15, |i: int| r@[i]@) == self@.entries,
    {
        self.entries
    }

    /// The block number the table records for itself.
    pub fn sector_index(&self) -> (r: BlockIndex)
        ensures
            r == self@.sector_index,
    {
        self.sector_index
    }

    /// Bus and drive of the drive the table belongs to.
    pub fn disk(&self) -> (r: (u8, u8))
        ensures
            r == self@.disk,
    {
        self.disk
    }

    /// The slot at `index`.
    pub fn entry(&self, index: usize) -> (r: &FileTableEntry)
        requires
            index < ENTRIES_PER_TABLE,
        ensures
            r@ == self@.entries[index as int],
    {
        &self.entries[index]
    }

    /// The slot at `index`, open for any change. No other slot can change through it.
    pub fn entry_mut(&mut self, index: usize) -> (r: &mut FileTableEntry)
        requires
            index < ENTRIES_PER_TABLE,
        ensures
            r@ == old(self)@.entries[index as int],
            final(self)@ == (FileTableView {
                entries: old(self)@.entries.update(index as int, final(r)@),
                ..old(self)@
            }),
    {
        let ghost before = self@;
        let r = &mut self.entries[index];
        proof {
            assert(after_borrow(*self)@.entries =~= before.entries.update(index as int, final(r)@));
        }
        r
    }

    /// The entries that are in use, in slot order.
    pub fn list(&self) -> (r: Vec<FileTableEntry>)
        ensures
            r@.map_values(|e: FileTableEntry| e@) == in_use(self@.entries),
    {
        let mut r: Vec<FileTableEntry> = Vec::new();
        let mut i: usize = 0;
        assert(self@.entries.take(0) =~= Seq::empty());
        while i < 15
            invariant
                i <= 15,
                r@.map_values(|e: FileTableEntry| e@) == in_use(self@.entries.take(i as int)),
            decreases 15 - i,
        {
            assert(self@.entries.take(i as int + 1).drop_last() =~= self@.entries.take(i as int));
            let ghost before = r@.map_values(|e: FileTableEntry| e@);
            if self.entries[i].filetype() != FileType::Null {
                r.push(self.entries[i]);
                assert(r@.map_values(|e: FileTableEntry| e@) =~= before.push(self@.entries[i as int]));
            }
            i += 1;
        }
        assert(self@.entries.take(15) =~= self@.entries);
        r
    }

    /// Looks for a file called `name`: the entry in the lowest slot that is in use under that
    /// name, or `None` when no slot is. A text of more than eight bytes is not a name.
    pub fn search(&self, name: &str) -> (r: Option<FileTableEntry>)
        requires
            name.spec_bytes().len() <= SMALL_STR_LEN,
        ensures
            r is Some <==> first_named(self@.entries, padded(name.spec_bytes()), 0) < 15,
            r matches Some(e) ==> e@ == self@.entries[first_named(self@.entries, padded(name.spec_bytes()), 0)],
    {
        let cached_name: SmallString = SmallString::from_str(name);
        let mut i: usize = 0;
        while i < 15
            invariant
                i <= 15,
                cached_name@ == padded(name.spec_bytes()),
                first_named(self@.entries, cached_name@, 0) == first_named(self@.entries, cached_name@, i as int),
            decreases 15 - i,
        {
            let entry = self.entries[i];
            if entry.filetype() != FileType::Null && cached_name == entry.name() {
                return Some(entry);
            }
            i += 1;
        }
        None
    }

    /// Creates a file called `name` in the lowest free slot: the slot becomes a `File`, takes
    /// the name and records its own slot number. Returns the new entry, or `None`, changing
    /// nothing, when every slot is in use. A text of more than eight bytes is not a name.
    pub fn create(&mut self, name: &str) -> (r: Option<FileTableEntry>)
        requires
            name.spec_bytes().len() <= SMALL_STR_LEN,
        ensures
            final(self)@ == (FileTableView {
                entries: created(old(self)@.entries, padded(name.spec_bytes())),
                ..old(self)@
            }),
            r is Some <==> first_free(old(self)@.entries, 0) < 15,
            r matches Some(e) ==> e@ == final(self)@.entries[first_free(old(self)@.entries, 0)],
    {
        match self.get_first_mut_empty_ref() {
            Some((index, found)) => {
                let mut entry = found;
                entry.set_filetype(FileType::File);
                entry.set_filename(name);
                entry.set_table_index(index);
                self.entries[index] = entry;
                assert(self@.entries =~= created(old(self)@.entries, padded(name.spec_bytes())));
                Some(entry)
            },
            None => {
                assert(self@.entries =~= created(old(self)@.entries, padded(name.spec_bytes())));
                None
            },
        }
    }

    /// A table has 15 slots.
    pub proof fn lemma_slots(&self)
        ensures
            self@.entries.len() == 15,
    {
    }

    /// The number of the lowest free slot, or `None` when every slot is in use.
    pub fn first_free_slot(&self) -> (r: Option<usize>)
        ensures
            r is Some <==> first_free(self@.entries, 0) < 15,
            r matches Some(slot) ==> slot == first_free(self@.entries, 0),
    {
        let mut index: usize = 0;
        while index < 15
            invariant
                index <= 15,
                first_free(self@.entries, 0) == first_free(self@.entries, index as int),
            decreases 15 - index,
        {
            if self.entries[index].filetype() == FileType::Null {
                return Some(index);
            }
            index += 1;
        }
        None
    }

    /// The lowest free slot and what it holds.
    fn get_first_mut_empty_ref(&mut self) -> (r: Option<(usize, FileTableEntry)>)
        ensures
            *final(self) == *old(self),
            r is Some <==> first_free(old(self)@.entries, 0) < 15,
            r matches Some(found) ==> found.0 == first_free(old(self)@.entries, 0) && found.1@ == old(
                self,
            )@.entries[found.0 as int],
    {
        let mut index: usize = 0;
        while index < 15
            invariant
                index <= 15,
                *self == *old(self),
                first_free(self@.entries, 0) == first_free(self@.entries, index as int),
            decreases 15 - index,
        {
            if self.entries[index].filetype() == FileType::Null {
                return Some((index, self.entries[index]));
            }
            index += 1;
        }
        None
    }

    /// Gives up slot `index`: its type becomes `Null`, so that the next file may take it.
    pub fn release(&mut self, index: usize)
        requires
            index < ENTRIES_PER_TABLE,
        ensures
            final(self)@ == (FileTableView { entries: released(old(self)@.entries, index as int), ..old(self)@ }),
    {
        self.entries[index].set_filetype(FileType::Null);
        assert(self@.entries =~= released(old(self)@.entries, index as int));
    }

    /// Byte `i` of the table as it lies on a drive.
    fn byte_at(&self, i: usize) -> (b: u8)
        requires
            i < 512,
        ensures
            b == table_byte(self@, i as int),
    {
        if i == 0 {
            self.disk.0
        } else if i == 1 {
            self.disk.1
        } else if 4 <= i && i < 8 {
            le_byte_of(self.sector_index as u64, i - 4)
        } else if 32 <= i {
            self.entries[(i - 32) / 32].byte_at((i - 32) % 32)
        } else {
            0
        }
    }

    /// The block that holds the table as it lies on a drive.
    pub fn to_block(&self) -> (block: Block)
        ensures
            block@ == table_bytes(self@),
    {
        let mut bytes = [0u8; 512];
        let mut i: usize = 0;
        while i < 512
            invariant
                i <= 512,
                forall|j: int| 0 <= j < i ==> bytes@[j] == table_byte(self@, j),
            decreases 512 - i,
        {
            bytes[i] = self.byte_at(i);
            i += 1;
        }
        assert(bytes@ =~= table_bytes(self@));
        Block::from_bytes(bytes)
    }

    /// The table that a block stands for.
    pub fn from_block(block: &Block) -> (t: FileTable)
        ensures
            t@ == table_of(block@),
    {
        let bytes = block.bytes();
        let mut t = FileTable::new(get_u32_le(&bytes, 4));
        t.disk = (bytes[0], bytes[1]);
        let mut k: usize = 0;
        while k < 15
            invariant
                k <= 15,
                bytes@ == block@,
                t.disk == (bytes@[0], bytes@[1]),
                t.sector_index == le_u32(bytes@, 4),
                forall|j: int| 0 <= j < k ==> t.entries@[j]@ == entry_of(bytes@, 32 + 32 * j),
            decreases 15 - k,
        {
            t.entries[k] = FileTableEntry::from_bytes(&bytes, 32 + 32 * k);
            k += 1;
        }
        assert(t@.entries =~= table_of(block@).entries);
        t
    }

    /// Writes the whole table back to block 0 of its drive, the block it is read from. No
    /// other block is written, and the table stays as it is.
    pub fn update_on_disk(&self, ata: &mut Ata)
        requires
            old(ata)@.contains_key(self@.disk),
        ensures
            final(ata)@ == with_block(old(ata)@, self@.disk.0, self@.disk.1, 0, table_bytes(self@)),
    {
        self.to_block().save(ata, self.disk.0, self.disk.1, 0)
    }

    /// Reads the table of the drive at `disk` from block 0 of that drive.
    pub fn load_root(ata: &Ata, disk: (u8, u8)) -> (t: FileTable)
        requires
            ata@.contains_key(disk),
        ensures
            t@ == (FileTableView { disk, ..table_of(block_of(image_of(ata@, disk.0, disk.1), 0)) }),
    {
        let mut table = FileTable::from_block(&Block::load(ata, disk.0, disk.1, 0));
        table.set_disk(disk);
        table
    }

    /// Moves the table to another drive. Nothing is written.
    pub fn set_disk(&mut self, disk: (u8, u8))
        ensures
            final(self)@ == (FileTableView { disk, ..old(self)@ }),
    {
        self.disk = disk;
    }

    /// Hands out a free slot in `entry_buffer`, whatever `name` is.
    pub fn open_file(&mut self, name: &str, entry_buffer: &mut FileTableEntry)
        ensures
            *final(self) == *old(self),
            final(entry_buffer)@ == empty_entry(),
    {
        *entry_buffer = FileTableEntry::empty();
    }
}

/// Reads the table of the drive at `disk`.
pub fn get_root(ata: &Ata, disk: (u8, u8)) -> (t: FileTable)
    requires
        ata@.contains_key(disk),
    ensures
        t@ == (FileTableView { disk, ..table_of(block_of(image_of(ata@, disk.0, disk.1), 0)) }),
{
    FileTable::load_root(ata, disk)
}

} // verus!
