//! The block list of a file: index nodes, each holding up to 32 block addresses and the address
//! of the node that continues the list. Nodes live on drive 1 of bus 0, one per sector; the
//! address 0 in `next` ends the list, so block 0 is never a block of a file. On top of the
//! lists stand the files themselves: [`create_file`] makes one with its first node, and
//! [`FileInfo::set_data`] lays its contents out on the drive.

use vstd::prelude::*;
use crate::ata::{Ata, AtaView, block_of, image_of, with_block};
use crate::codec::{get_u32_le, le_byte, le_byte_of, le_u32, lemma_le_u32};
use crate::file_systems::{
    allocate_node_region, allocate_run, get_disk, get_disk_sector_count, get_sector, lemma_run_from, region_from,
    run_free, run_from, set_sector, Block,
};
use vstd::string::StringSliceAdditionalSpecFns;
use crate::file_table::{
    claimed, first_free, first_named, padded, table_bytes, FileTable, FileTableEntry, FileTableEntryView,
    FileTableView, ENTRIES_PER_TABLE, FT_ENTRY_ALIGN,
};
use crate::sector::{BlockIndex, Sector, SectorView, zero_block};
use crate::sector_list::{lemma_written_from_empty, padded_bytes, sectors_of, written_all, SectorList};

verus! {

/// Block addresses that one node holds.
pub const NODE_SLOTS: usize = 32;

/// The bus of the drive that holds the file system.
pub const FS_BUS: u8 = 0;

/// The number, on its bus, of the drive that holds the file system.
pub const FS_DRIVE: u8 = 1;

/// Why a change to a file was not made.
#[derive(Debug, Clone, Copy, PartialEq, Eq, Structural)]
pub enum FsError {
    /// The drive has no run of unused sectors that is long enough: 33 sectors to place
    /// another node in, or the sectors and further nodes of a file's new contents.
    DiskFull,
    /// The list of nodes goes on for more links than the drive has sectors, so it runs in a
    /// circle.
    BrokenChain,
    /// The file has no first node: its address is 0, or the block it names holds no node
    /// that knows this address as its own.
    NoLeadNode,
    /// Block 0 was given as the address of a node or of data. It is never one: it marks
    /// "nothing follows".
    ReservedBlock,
    /// Every slot of the file table is in use.
    TableFull,
}

/// The mathematical value of an [`IndexNode`].
pub struct IndexNodeView {
    /// The block the node is stored in.
    pub current: BlockIndex,
    /// The block of the node that continues the list; 0 when none does.
    pub next: BlockIndex,
    /// The block that follows the node and the blocks counted for its addresses.
    pub next_free: BlockIndex,
    /// How many addresses the node holds: the slot that the next address goes to.
    pub next_entry: BlockIndex,
    /// The 32 slots. Those from `next_entry` on hold nothing.
    pub data_blocks: Seq<BlockIndex>,
}

/// The sectors of the drive that holds the file system.
pub open spec fn fs_image(ata: AtaView) -> Seq<Seq<u8>> {
    image_of(ata, FS_BUS, FS_DRIVE)
}

/// The drives after block `index` of the file-system drive has been overwritten with `data`.
pub open spec fn fs_with_block(ata: AtaView, index: int, data: Seq<u8>) -> AtaView {
    with_block(ata, FS_BUS, FS_DRIVE, index, data)
}

/// `a + 1` as a block address: past the last address it starts again at 0.
pub open spec fn after(a: BlockIndex) -> BlockIndex {
    if a == u32::MAX {
        0u32
    } else {
        (a + 1) as u32
    }
}

/// `a + 1` as a block address.
pub fn next_block(a: BlockIndex) -> (r: BlockIndex)
    ensures
        r == after(a),
{
    if a == u32::MAX {
        0
    } else {
        a + 1
    }
}

/// The node that is created for block `index`: it holds no address and nothing follows it.
pub open spec fn fresh_node(index: BlockIndex) -> IndexNodeView {
    IndexNodeView {
        current: index,
        next: 0,
        next_free: after(index),
        next_entry: 0,
        data_blocks: Seq::new(32, |i: int| 0u32),
    }
}

/// How many addresses a node holds.
pub open spec fn used(n: IndexNodeView) -> int {
    if n.next_entry < 32 {
        n.next_entry as int
    } else {
        32
    }
}

/// The addresses a node holds, in the order they were added.
pub open spec fn pointers_of(n: IndexNodeView) -> Seq<BlockIndex> {
    n.data_blocks.take(used(n))
}

/// A node that has room, after `pointer` has been added to it.
pub open spec fn pushed(n: IndexNodeView, pointer: BlockIndex) -> IndexNodeView {
    IndexNodeView {
        next_free: after(n.next_free),
        next_entry: (n.next_entry + 1) as u32,
        data_blocks: n.data_blocks.update(n.next_entry as int, pointer),
        ..n
    }
}

/// A node after its addresses have been dropped. It stays where it is and keeps its link.
pub open spec fn emptied(n: IndexNodeView) -> IndexNodeView {
    IndexNodeView {
        next_free: after(n.current),
        next_entry: 0,
        data_blocks: Seq::new(32, |i: int| 0u32),
        ..n
    }
}

/// The number stored at `at` in a node: 0 for `current`, 1 for `next`, 2 for `next_free`, 3 for
/// `next_entry`, and `4 + i` for slot `i`.
pub open spec fn node_word(n: IndexNodeView, at: int) -> BlockIndex {
    if at == 0 {
        n.current
    } else if at == 1 {
        n.next
    } else if at == 2 {
        n.next_free
    } else if at == 3 {
        n.next_entry
    } else {
        n.data_blocks[at - 4]
    }
}

/// Byte `i` of a node as it lies on a drive: 36 numbers of four bytes each, least significant
/// byte first, then zeros.
pub open spec fn node_byte(n: IndexNodeView, i: int) -> u8 {
    if 0 <= i < 144 {
        le_byte(node_word(n, i / 4) as int, i % 4)
    } else {
        0
    }
}

/// The 512 bytes of a node as they lie on a drive.
pub open spec fn node_bytes(n: IndexNodeView) -> Seq<u8> {
    Seq::new(512, |i: int| node_byte(n, i))
}

/// The node that 512 bytes stand for.
pub open spec fn node_of(bytes: Seq<u8>) -> IndexNodeView {
    IndexNodeView {
        current: le_u32(bytes, 0),
        next: le_u32(bytes, 4),
        next_free: le_u32(bytes, 8),
        next_entry: le_u32(bytes, 12),
        data_blocks: Seq::new(32, |i: int| le_u32(bytes, 16 + 4 * i)),
    }
}

/// The node stored in block `index` of an image.
pub open spec fn node_at(blocks: Seq<Seq<u8>>, index: int) -> IndexNodeView {
    node_of(block_of(blocks, index))
}

/// Number `w` of a node is read back from the node's bytes.
proof fn lemma_node_word(n: IndexNodeView, w: int)
    requires
        0 <= w < 36,
    ensures
        le_u32(node_bytes(n), 4 * w) == node_word(n, w),
{
    let bytes = node_bytes(n);
    let v = node_word(n, w);
    let at = 4 * w;
    assert(bytes[at] == node_byte(n, at));
    assert(bytes[at + 1] == node_byte(n, at + 1));
    assert(bytes[at + 2] == node_byte(n, at + 2));
    assert(bytes[at + 3] == node_byte(n, at + 3));
    assert(at / 4 == w && at % 4 == 0);
    assert((at + 1) / 4 == w && (at + 1) % 4 == 1);
    assert((at + 2) / 4 == w && (at + 2) % 4 == 2);
    assert((at + 3) / 4 == w && (at + 3) % 4 == 3);
    assert(bytes[at] == le_byte(v as int, 0));
    assert(bytes[at + 1] == le_byte(v as int, 1));
    assert(bytes[at + 2] == le_byte(v as int, 2));
    assert(bytes[at + 3] == le_byte(v as int, 3));
    assert forall|k: int| 0 <= k < 4 implies bytes[at + k] == #[trigger] le_byte(v as int, k) by {
    }
    lemma_le_u32(bytes, at, v);
}

/// A node with 32 slots that is written out and read back is the same node.
pub proof fn lemma_node_round_trip(n: IndexNodeView)
    requires
        n.data_blocks.len() == 32,
    ensures
        node_of(node_bytes(n)) == n,
{
    let bytes = node_bytes(n);
    lemma_node_word(n, 0);
    lemma_node_word(n, 1);
    lemma_node_word(n, 2);
    lemma_node_word(n, 3);
    assert forall|i: int| 0 <= i < 32 implies le_u32(bytes, 16 + 4 * i) == n.data_blocks[i] by {
        lemma_node_word(n, 4 + i);
    }
    assert(node_of(bytes).data_blocks =~= n.data_blocks);
}

/// A block of zeros stands for a node stored nowhere, holding nothing, followed by nothing.
pub proof fn lemma_zero_node()
    ensures
        node_of(zero_block()).current == 0,
        node_of(zero_block()).next == 0,
        node_of(zero_block()).next_entry == 0,
{
}

/// An image after block `index` has been overwritten with `data`. An image that has no such
/// block stays as it is.
pub open spec fn put(blocks: Seq<Seq<u8>>, index: int, data: Seq<u8>) -> Seq<Seq<u8>> {
    if 0 <= index < blocks.len() {
        blocks.update(index, data)
    } else {
        blocks
    }
}

/// The drives when the file-system drive holds `blocks` and all else is as in `ata`.
pub open spec fn with_image(ata: AtaView, blocks: Seq<Seq<u8>>) -> AtaView {
    ata.insert((FS_BUS, FS_DRIVE), crate::ata::DriveView { model: ata[(FS_BUS, FS_DRIVE)].model, blocks })
}

/// Writing one block of the file-system drive changes that block of its image and nothing
/// else.
pub proof fn lemma_fs_with_block(ata: AtaView, index: int, data: Seq<u8>)
    requires
        ata.contains_key((FS_BUS, FS_DRIVE)),
    ensures
        fs_with_block(ata, index, data) == with_image(ata, put(fs_image(ata), index, data)),
        fs_image(with_image(ata, put(fs_image(ata), index, data))) == put(fs_image(ata), index, data),
        with_image(ata, fs_image(ata)) == ata,
        fs_with_block(ata, index, data).contains_key((FS_BUS, FS_DRIVE)),
{
    assert(fs_with_block(ata, index, data) =~= with_image(ata, put(fs_image(ata), index, data)));
    assert(with_image(ata, fs_image(ata)) =~= ata);
}

/// The nodes of a list, first to last: `head`, then the node its link names, and so on until
/// a node has no link or `fuel` links have been followed.
pub open spec fn chain(blocks: Seq<Seq<u8>>, head: IndexNodeView, fuel: nat) -> Seq<IndexNodeView>
    decreases fuel,
{
    if head.next == 0 || fuel == 0 {
        seq![head]
    } else {
        seq![head] + chain(blocks, node_at(blocks, head.next as int), (fuel - 1) as nat)
    }
}

/// The sectors that the addresses of one node name, each paired with the node.
pub open spec fn node_sectors(blocks: Seq<Seq<u8>>, n: IndexNodeView) -> Seq<(IndexNodeView, SectorView)> {
    Seq::new(
        used(n) as nat,
        |k: int| (n, SectorView { index: n.data_blocks[k], data: block_of(blocks, n.data_blocks[k] as int) }),
    )
}

/// The sectors that the addresses of a run of nodes name, node after node.
pub open spec fn chain_sectors(blocks: Seq<Seq<u8>>, nodes: Seq<IndexNodeView>) -> Seq<
    (IndexNodeView, SectorView),
>
    decreases nodes.len(),
{
    if nodes.len() == 0 {
        Seq::empty()
    } else {
        chain_sectors(blocks, nodes.drop_last()) + node_sectors(blocks, nodes.last())
    }
}

/// The addresses that a run of nodes holds, node after node.
pub open spec fn chain_pointers(nodes: Seq<IndexNodeView>) -> Seq<BlockIndex>
    decreases nodes.len(),
{
    if nodes.len() == 0 {
        Seq::empty()
    } else {
        chain_pointers(nodes.drop_last()) + pointers_of(nodes.last())
    }
}

/// The nodes of the list that starts with `head`, as the drive has them.
pub open spec fn file_nodes(ata: AtaView, head: IndexNodeView) -> Seq<IndexNodeView> {
    chain(fs_image(ata), head, fs_image(ata).len())
}

/// The data sectors of the list that starts with `head`, in order.
pub open spec fn file_sectors(ata: AtaView, head: IndexNodeView) -> Seq<(IndexNodeView, SectorView)> {
    chain_sectors(fs_image(ata), file_nodes(ata, head))
}

/// The bytes of a run of sectors, sector after sector.
pub open spec fn flat(sectors: Seq<(IndexNodeView, SectorView)>) -> Seq<u8> {
    Seq::new(sectors.len() * 512, |i: int| sectors[i / 512].1.data[i % 512])
}

/// The values of a run of (node, sector) pairs.
pub open spec fn pair_views(list: Seq<(IndexNode, Sector)>) -> Seq<(IndexNodeView, SectorView)> {
    Seq::new(list.len(), |i: int| (list[i].0@, list[i].1@))
}

/// What adding an address to a list comes to: whether it was added, the node the list starts
/// with afterwards, and the image afterwards.
pub struct Appended {
    pub result: Result<(), FsError>,
    pub node: IndexNodeView,
    pub blocks: Seq<Seq<u8>>,
}

/// Adds `pointer` to the list that starts with `node`. A node with room takes it. A full node
/// hands it to the node its link names and stores that node again. A full node without a link
/// gets one: a new node is placed at the lowest free region and takes the address. Nothing
/// changes when the address is block 0, when the drive has no free region, or when `fuel`
/// links were followed without reaching a node that could take the address.
pub open spec fn append_at(blocks: Seq<Seq<u8>>, node: IndexNodeView, fuel: nat, pointer: BlockIndex) -> Appended
    decreases fuel,
{
    if pointer == 0 {
        Appended { result: Err(FsError::ReservedBlock), node, blocks }
    } else if node.next_entry < 32 {
        Appended { result: Ok(()), node: pushed(node, pointer), blocks }
    } else if node.next != 0 {
        if fuel == 0 {
            Appended { result: Err(FsError::BrokenChain), node, blocks }
        } else {
            let sub = append_at(blocks, node_at(blocks, node.next as int), (fuel - 1) as nat, pointer);
            if sub.result is Ok {
                Appended { result: Ok(()), node, blocks: put(sub.blocks, node.next as int, node_bytes(sub.node)) }
            } else {
                Appended { result: sub.result, node, blocks }
            }
        }
    } else {
        let start = crate::file_systems::region_from(blocks, 1);
        if start < blocks.len() {
            Appended {
                result: Ok(()),
                node: IndexNodeView { next: start as u32, ..node },
                blocks: put(blocks, start, node_bytes(pushed(fresh_node(start as u32), pointer))),
            }
        } else {
            Appended { result: Err(FsError::DiskFull), node, blocks }
        }
    }
}

/// Adding an address that fails leaves the node and the image as they were.
pub proof fn lemma_append_failed(blocks: Seq<Seq<u8>>, node: IndexNodeView, fuel: nat, pointer: BlockIndex)
    ensures
        append_at(blocks, node, fuel, pointer).result is Err ==> {
            &&& append_at(blocks, node, fuel, pointer).node == node
            &&& append_at(blocks, node, fuel, pointer).blocks == blocks
        },
        append_at(blocks, node, fuel, pointer).blocks.len() == blocks.len(),
    decreases fuel,
{
    if pointer != 0 && node.next_entry >= 32 && node.next != 0 && fuel > 0 {
        lemma_append_failed(blocks, node_at(blocks, node.next as int), (fuel - 1) as nat, pointer);
    }
}

/// Adds the addresses of `pointers` one after another, stopping at the first that cannot be
/// added.
pub open spec fn append_all(blocks: Seq<Seq<u8>>, node: IndexNodeView, fuel: nat, pointers: Seq<BlockIndex>) -> Appended
    decreases pointers.len(),
{
    if pointers.len() == 0 {
        Appended { result: Ok(()), node, blocks }
    } else {
        let before = append_all(blocks, node, fuel, pointers.drop_last());
        if before.result is Ok {
            append_at(before.blocks, before.node, fuel, pointers.last())
        } else {
            before
        }
    }
}

/// What dropping the addresses of a list comes to: the node the list starts with afterwards,
/// and the image afterwards.
pub struct Cleared {
    pub node: IndexNodeView,
    pub blocks: Seq<Seq<u8>>,
}

/// Drops the addresses of `node` and of every node after it, following at most `fuel` links.
/// Each node after the first is stored again once the nodes after it are done.
pub open spec fn clear_at(blocks: Seq<Seq<u8>>, node: IndexNodeView, fuel: nat) -> Cleared
    decreases fuel,
{
    if node.next == 0 || fuel == 0 {
        Cleared { node: emptied(node), blocks }
    } else {
        let sub = clear_at(blocks, node_at(blocks, node.next as int), (fuel - 1) as nat);
        Cleared { node: emptied(node), blocks: put(sub.blocks, node.next as int, node_bytes(sub.node)) }
    }
}

/// The nodes after the first that a list of `n` addresses needs.
pub open spec fn extra_nodes(n: int) -> int {
    if n <= 32 {
        0
    } else {
        (n - 1) / 32
    }
}

/// A list of `n` addresses, one at least, takes `n / 32` nodes, rounded up.
pub proof fn lemma_nodes_needed(n: int)
    requires
        1 <= n,
    ensures
        extra_nodes(n) + 1 == (n + 31) / 32,
        32 * extra_nodes(n) < n <= 32 * (extra_nodes(n) + 1),
{
}

/// The blocks that a file of `size` bytes needs besides its first node: one for each sector
/// of its contents and one for each further node.
pub open spec fn blocks_needed(size: int) -> int {
    sectors_of(size) + extra_nodes(sectors_of(size))
}

/// The number of addresses that node number `j` of a list of `n` addresses holds when the
/// list is laid out afresh: every node but the last is full.
pub open spec fn laid_count(n: int, j: int) -> int {
    if j < extra_nodes(n) {
        32
    } else {
        n - 32 * extra_nodes(n)
    }
}

/// Node number `j` of a list of `n` addresses that is laid out afresh. The first node, number
/// 0, stands at `lead`. The further nodes stand one after another from `start` on, and the
/// contents follow them, sector after sector; the addresses of the list name these sectors
/// in order.
pub open spec fn laid_node(lead: int, start: int, n: int, j: int) -> IndexNodeView {
    let extra = extra_nodes(n);
    let count = laid_count(n, j);
    let current = if j == 0 {
        lead
    } else {
        start + j - 1
    };
    IndexNodeView {
        current: current as u32,
        next: (if j < extra {
            start + j
        } else {
            0
        }) as u32,
        next_free: ((current + 1 + count) % 0x1_0000_0000) as u32,
        next_entry: count as u32,
        data_blocks: Seq::new(
            32,
            |i: int|
                if i < count {
                    (start + extra + 32 * j + i) as u32
                } else {
                    0u32
                },
        ),
    }
}

/// An image while a file is laid out on it: the first `data_done` sectors of `contents` are
/// stored, the first `nodes_done` further nodes are, and the first node is if `head_done`
/// says so. Every other block is as in `blocks`.
pub open spec fn partly_laid(
    blocks: Seq<Seq<u8>>,
    lead: int,
    start: int,
    contents: Seq<Seq<u8>>,
    data_done: int,
    nodes_done: int,
    head_done: bool,
) -> Seq<Seq<u8>> {
    let n = contents.len() as int;
    let extra = extra_nodes(n);
    Seq::new(
        blocks.len(),
        |b: int|
            if head_done && b == lead {
                node_bytes(laid_node(lead, start, n, 0))
            } else if start <= b < start + nodes_done {
                node_bytes(laid_node(lead, start, n, b - start + 1))
            } else if start + extra <= b < start + extra + data_done {
                contents[b - start - extra]
            } else {
                blocks[b]
            },
    )
}

/// An image after a file with the sectors `contents` has been laid out on it: its first node
/// at `lead`, its further nodes from `start` on, its contents after them.
pub open spec fn laid_out(blocks: Seq<Seq<u8>>, lead: int, start: int, contents: Seq<Seq<u8>>) -> Seq<Seq<u8>> {
    partly_laid(blocks, lead, start, contents, contents.len() as int, extra_nodes(contents.len() as int), true)
}

/// The block `lead` holds the first node of a file: it is a block of the drive, other than
/// block 0, and the node in it knows the address as its own.
pub open spec fn lead_present(blocks: Seq<Seq<u8>>, lead: int) -> bool {
    &&& 1 <= lead < blocks.len()
    &&& node_at(blocks, lead).current == lead
}

/// The drive has room for `total` more blocks in one run.
pub open spec fn has_room(blocks: Seq<Seq<u8>>, total: int) -> bool {
    total == 0 || run_from(blocks, 1, total) < blocks.len()
}

/// A file of `size` bytes can be written: its first node is there, and the drive has room
/// for its contents and its further nodes in one run.
pub open spec fn can_hold(blocks: Seq<Seq<u8>>, lead: int, size: int) -> bool {
    lead_present(blocks, lead) && has_room(blocks, blocks_needed(size))
}

/// Writing a block of an image that stands for the file-system drive: the drives then hold
/// the image with that block overwritten.
pub proof fn lemma_image_step(ata: AtaView, image: Seq<Seq<u8>>, index: int, data: Seq<u8>)
    requires
        ata.contains_key((FS_BUS, FS_DRIVE)),
    ensures
        fs_with_block(with_image(ata, image), index, data) == with_image(ata, put(image, index, data)),
        fs_image(with_image(ata, image)) == image,
        with_image(ata, image).contains_key((FS_BUS, FS_DRIVE)),
{
    assert(fs_with_block(with_image(ata, image), index, data) =~= with_image(ata, put(image, index, data)));
}

/// One node of a file's block list.
#[derive(Debug, Clone, Copy)]
pub struct IndexNode {
    current: BlockIndex,
    next: BlockIndex,
    next_free: BlockIndex,
    next_entry: BlockIndex,
    data_blocks: [BlockIndex; 32],
}

impl View for IndexNode {
    type V = IndexNodeView;

    closed spec fn view(&self) -> IndexNodeView {
        IndexNodeView {
            current: self.current,
            next: self.next,
            next_free: self.next_free,
            next_entry: self.next_entry,
            data_blocks: self.data_blocks@,
        }
    }
}

impl IndexNode {
    /// Every node has 32 slots.
    pub broadcast proof fn lemma_slots(self)
        ensures
            #[trigger] self@.data_blocks.len() == 32,
    {
    }

    /// An empty node for block `index`. Block 0 is never the block of a node.
    pub fn create(index: BlockIndex) -> (n: IndexNode)
        requires
            index != 0,
        ensures
            n@ == fresh_node(index),
    {
        let n = IndexNode {
            current: index,
            next: 0,
            data_blocks: [0u32; 32],
            next_free: next_block(index),
            next_entry: 0,
        };
        assert(n@.data_blocks =~= Seq::new(32, |i: int| 0u32));
        n
    }

    /// The block the node is stored in.
    pub fn current(&self) -> (r: BlockIndex)
        ensures
            r == self@.current,
    {
        self.current
    }

    /// The block of the node that continues the list; 0 when none does.
    pub fn next(&self) -> (r: BlockIndex)
        ensures
            r == self@.next,
    {
        self.next
    }

    /// How many addresses the node holds.
    pub fn len(&self) -> (r: usize)
        ensures
            r == used(self@),
    {
        if self.next_entry < 32 {
            self.next_entry as usize
        } else {
            32
        }
    }

    /// The address in slot `slot`.
    pub fn pointer(&self, slot: usize) -> (r: BlockIndex)
        requires
            slot < NODE_SLOTS,
        ensures
            r == self@.data_blocks[slot as int],
    {
        self.data_blocks[slot]
    }

    /// Node number `j` of a list of `n` addresses that is laid out afresh.
    fn laid(lead: BlockIndex, start: BlockIndex, n: usize, j: usize) -> (node: IndexNode)
        requires
            j <= extra_nodes(n as int),
            start + extra_nodes(n as int) + n <= 0x1_0000_0000,
        ensures
            node@ == laid_node(lead as int, start as int, n as int, j as int),
    {
        let extra: u64 = if n <= 32 {
            0
        } else {
            (n as u64 - 1) / 32
        };
        let count: u64 = if (j as u64) < extra {
            32
        } else {
            n as u64 - 32 * extra
        };
        let current: u64 = if j == 0 {
            lead as u64
        } else {
            start as u64 + j as u64 - 1
        };
        let next: u32 = if (j as u64) < extra {
            (start as u64 + j as u64) as u32
        } else {
            0
        };
        let mut data_blocks = [0u32; 32];
        let mut i: usize = 0;
        while i < 32
            invariant
                i <= 32,
                extra == extra_nodes(n as int),
                count == laid_count(n as int, j as int),
                j <= extra,
                start + extra + n <= 0x1_0000_0000,
                forall|m: int|
                    0 <= m < i ==> data_blocks@[m] == laid_node(
                        lead as int,
                        start as int,
                        n as int,
                        j as int,
                    ).data_blocks[m],
                forall|m: int| i <= m < 32 ==> data_blocks@[m] == 0u32,
            decreases 32 - i,
        {
            if (i as u64) < count {
                data_blocks[i] = (start as u64 + extra + 32 * j as u64 + i as u64) as u32;
            }
            i += 1;
        }
        let node = IndexNode {
            current: current as u32,
            next,
            next_free: ((current + 1 + count) % 0x1_0000_0000) as u32,
            next_entry: count as u32,
            data_blocks,
        };
        assert(node@.data_blocks =~= laid_node(lead as int, start as int, n as int, j as int).data_blocks);
        node
    }

    fn word(&self, at: usize) -> (r: BlockIndex)
        requires
            at < 36,
        ensures
            r == node_word(self@, at as int),
    {
        if at == 0 {
            self.current
        } else if at == 1 {
            self.next
        } else if at == 2 {
            self.next_free
        } else if at == 3 {
            self.next_entry
        } else {
            self.data_blocks[at - 4]
        }
    }

    /// The block that holds the node as it lies on a drive.
    pub fn to_block(&self) -> (block: Block)
        ensures
            block@ == node_bytes(self@),
    {
        let mut bytes = [0u8; 512];
        let mut i: usize = 0;
        while i < 144
            invariant
                i <= 144,
                forall|j: int| 0 <= j < i ==> bytes@[j] == node_byte(self@, j),
                forall|j: int| i <= j < 512 ==> bytes@[j] == 0u8,
            decreases 144 - i,
        {
            bytes[i] = le_byte_of(self.word(i / 4) as u64, i % 4);
            i += 1;
        }
        assert(bytes@ =~= node_bytes(self@));
        Block::from_bytes(bytes)
    }

    /// The node that a block stands for.
    pub fn from_block(data: &Block) -> (n: IndexNode)
        ensures
            n@ == node_of(data@),
    {
        let bytes = data.bytes();
        let mut data_blocks = [0u32; 32];
        let mut i: usize = 0;
        while i < 32
            invariant
                i <= 32,
                bytes@ == data@,
                forall|j: int| 0 <= j < i ==> data_blocks@[j] == le_u32(bytes@, 16 + 4 * j),
            decreases 32 - i,
        {
            data_blocks[i] = get_u32_le(&bytes, 16 + 4 * i);
            i += 1;
        }
        let n = IndexNode {
            current: get_u32_le(&bytes, 0),
            next: get_u32_le(&bytes, 4),
            next_free: get_u32_le(&bytes, 8),
            next_entry: get_u32_le(&bytes, 12),
            data_blocks,
        };
        assert(n@.data_blocks =~= node_of(data@).data_blocks);
        n
    }

    /// Reads the node stored in block `index` of the file-system drive.
    pub fn from_index(ata: &Ata, index: BlockIndex) -> (n: IndexNode)
        requires
            ata@.contains_key((FS_BUS, FS_DRIVE)),
        ensures
            n@ == node_at(fs_image(ata@), index as int),
    {
        IndexNode::from_block(&Block::load(ata, FS_BUS, FS_DRIVE, index))
    }

    /// Writes the node to block `index` of the file-system drive.
    pub fn save(&self, ata: &mut Ata, index: BlockIndex)
        requires
            old(ata)@.contains_key((FS_BUS, FS_DRIVE)),
        ensures
            final(ata)@ == fs_with_block(old(ata)@, index as int, node_bytes(self@)),
    {
        self.to_block().save(ata, FS_BUS, FS_DRIVE, index)
    }

    /// Reads the node that continues the list, if one does.
    pub fn get_next(&self, ata: &Ata) -> (r: Option<IndexNode>)
        requires
            ata@.contains_key((FS_BUS, FS_DRIVE)),
        ensures
            r is Some <==> self@.next != 0,
            r matches Some(n) ==> n@ == node_at(fs_image(ata@), self@.next as int),
    {
        if self.next == 0 {
            None
        } else {
            Some(IndexNode::from_index(ata, self.next))
        }
    }

    /// The data sectors of the list that starts with this node, in order, each read from the
    /// drive and paired with the node that names it.
    pub fn sectors(&self, ata: &Ata) -> (list: Vec<(IndexNode, Sector)>)
        requires
            ata@.contains_key((FS_BUS, FS_DRIVE)),
        ensures
            pair_views(list@) == file_sectors(ata@, self@),
    {
        let disk = get_disk(ata, FS_BUS, FS_DRIVE).unwrap();
        let mut left = get_disk_sector_count(ata, FS_BUS, FS_DRIVE);
        let mut list: Vec<(IndexNode, Sector)> = Vec::new();
        let mut node = *self;
        let ghost blocks = fs_image(ata@);
        let ghost mut visited: Seq<IndexNodeView> = Seq::empty();
        assert(pair_views(list@) =~= chain_sectors(blocks, visited));
        loop
            invariant_except_break
                file_nodes(ata@, self@) == visited + chain(blocks, node@, left as nat),
                pair_views(list@) == chain_sectors(blocks, visited),
            invariant
                blocks == fs_image(ata@),
                ata@.contains_key((FS_BUS, FS_DRIVE)),
                disk@.bus == FS_BUS,
                disk@.drive == FS_DRIVE,
            ensures
                pair_views(list@) == file_sectors(ata@, self@),
            decreases left,
        {
            let n = node.len();
            let mut k: usize = 0;
            let ghost start = pair_views(list@);
            assert(pair_views(list@) =~= start + node_sectors(blocks, node@).take(0));
            while k < n
                invariant
                    k <= n,
                    n == used(node@),
                    blocks == fs_image(ata@),
                    disk@.bus == FS_BUS,
                    disk@.drive == FS_DRIVE,
                    pair_views(list@) == start + node_sectors(blocks, node@).take(k as int),
                decreases n - k,
            {
                let ghost before = pair_views(list@);
                let sector = get_sector(ata, &disk, node.pointer(k));
                list.push((node, sector));
                assert(pair_views(list@) =~= before.push((node@, sector@)));
                assert(node_sectors(blocks, node@)[k as int] == (node@, sector@));
                k += 1;
                assert(node_sectors(blocks, node@).take(k as int) =~= node_sectors(blocks, node@).take(
                    k as int - 1,
                ).push((node@, sector@)));
                assert(pair_views(list@) =~= start + node_sectors(blocks, node@).take(k as int));
            }
            proof {
                assert(node_sectors(blocks, node@).take(n as int) =~= node_sectors(blocks, node@));
                assert(visited.push(node@).drop_last() =~= visited);
                let before = visited;
                visited = visited.push(node@);
                assert(pair_views(list@) == chain_sectors(blocks, visited));
                if node@.next == 0 || left == 0 {
                    assert(file_nodes(ata@, self@) =~= visited);
                } else {
                    assert(before + chain(blocks, node@, left as nat) =~= visited + chain(
                        blocks,
                        node_at(blocks, node@.next as int),
                        (left - 1) as nat,
                    ));
                }
            }
            if node.next == 0 || left == 0 {
                break;
            }
            node = IndexNode::from_index(ata, node.next);
            left -= 1;
        }
        list
    }

    /// The contents of the file whose list starts with this node: the bytes of its data
    /// sectors, in order.
    pub fn get_data(&self, ata: &Ata) -> (v: Vec<u8>)
        requires
            ata@.contains_key((FS_BUS, FS_DRIVE)),
        ensures
            v@ == flat(file_sectors(ata@, self@)),
    {
        let list = self.sectors(ata);
        let mut v: Vec<u8> = Vec::new();
        let mut i: usize = 0;
        let ghost all = pair_views(list@);
        assert(v@ =~= flat(all.take(0)));
        while i < list.len()
            invariant
                i <= list@.len(),
                all == pair_views(list@),
                v@ == flat(all.take(i as int)),
            decreases list@.len() - i,
        {
            let data = list[i].1.data();
            let ghost start = v@;
            let mut j: usize = 0;
            assert(v@ =~= start + data@.take(0));
            while j < 512
                invariant
                    j <= 512,
                    v@ == start + data@.take(j as int),
                decreases 512 - j,
            {
                v.push(data[j]);
                j += 1;
                assert(v@ =~= start + data@.take(j as int));
            }
            i += 1;
            proof {
                assert(data@.take(512) =~= data@);
                assert(data@ == all[i as int - 1].1.data);
                let a = flat(all.take(i as int));
                let b = start + data@;
                assert(a.len() == b.len());
                assert forall|x: int| 0 <= x < a.len() implies a[x] == b[x] by {
                    if x < start.len() {
                        assert(all.take(i as int)[x / 512] == all.take(i as int - 1)[x / 512]);
                    } else {
                        assert(x / 512 == i as int - 1);
                    }
                }
                assert(a =~= b);
            }
        }
        assert(all.take(list@.len() as int) =~= all);
        v
    }

    /// Adds the address of `sector` to the file's block list: to this node if it has room,
    /// else to the list that continues it. A list whose last node is full is continued by a
    /// new node, placed at the lowest free region of the drive.
    pub fn add_data_sector(&mut self, ata: &mut Ata, sector: &Sector) -> (r: Result<(), FsError>)
        requires
            old(ata)@.contains_key((FS_BUS, FS_DRIVE)),
        ensures
            ({
                let out = append_at(fs_image(old(ata)@), old(self)@, fs_image(old(ata)@).len(), sector@.index);
                &&& r == out.result
                &&& final(self)@ == out.node
                &&& final(ata)@ == with_image(old(ata)@, out.blocks)
            }),
    {
        let fuel = get_disk_sector_count(ata, FS_BUS, FS_DRIVE);
        self.append_within(ata, sector.index(), fuel)
    }

    /// Adds `index`, the address under which `sector` is kept, to the file's block list, as
    /// `add_data_sector` does.
    pub fn add_block(&mut self, ata: &mut Ata, sector: &Block, index: BlockIndex) -> (r: Result<(), FsError>)
        requires
            old(ata)@.contains_key((FS_BUS, FS_DRIVE)),
        ensures
            ({
                let out = append_at(fs_image(old(ata)@), old(self)@, fs_image(old(ata)@).len(), index);
                &&& r == out.result
                &&& final(self)@ == out.node
                &&& final(ata)@ == with_image(old(ata)@, out.blocks)
            }),
    {
        let fuel = get_disk_sector_count(ata, FS_BUS, FS_DRIVE);
        self.append_within(ata, index, fuel)
    }

    fn append_within(&mut self, ata: &mut Ata, pointer: BlockIndex, fuel: usize) -> (r: Result<(), FsError>)
        requires
            old(ata)@.contains_key((FS_BUS, FS_DRIVE)),
        ensures
            ({
                let out = append_at(fs_image(old(ata)@), old(self)@, fuel as nat, pointer);
                &&& r == out.result
                &&& final(self)@ == out.node
                &&& final(ata)@ == with_image(old(ata)@, out.blocks)
            }),
            final(ata)@.contains_key((FS_BUS, FS_DRIVE)),
        decreases fuel,
    {
        proof {
            lemma_fs_with_block(ata@, 0, zero_block());
            ata.lemma_well_formed();
        }
        if pointer == 0 {
            Err(FsError::ReservedBlock)
        } else if self.next_entry < 32 {
            self.data_blocks[self.next_entry as usize] = pointer;
            self.next_entry += 1;
            self.next_free = next_block(self.next_free);
            assert(self@ == pushed(old(self)@, pointer));
            Ok(())
        } else if self.next != 0 {
            if fuel == 0 {
                return Err(FsError::BrokenChain);
            }
            let mut successor = IndexNode::from_index(ata, self.next);
            let ghost sub = append_at(fs_image(ata@), successor@, (fuel - 1) as nat, pointer);
            proof {
                lemma_append_failed(fs_image(ata@), successor@, (fuel - 1) as nat, pointer);
            }
            match successor.append_within(ata, pointer, fuel - 1) {
                Ok(()) => {
                    proof {
                        lemma_fs_with_block(ata@, self.next as int, node_bytes(successor@));
                        assert(fs_image(ata@) =~= sub.blocks);
                    }
                    successor.save(ata, self.next);
                    assert(ata@ =~= with_image(
                        old(ata)@,
                        put(sub.blocks, self.next as int, node_bytes(successor@)),
                    ));
                    Ok(())
                },
                Err(e) => {
                    assert(ata@ =~= old(ata)@);
                    Err(e)
                },
            }
        } else {
            match self.add_index_node(ata) {
                Ok(created) => {
                    let mut node = created;
                    let ghost mid = ata@;
                    let start = self.next;
                    proof {
                        lemma_fs_with_block(old(ata)@, start as int, node_bytes(fresh_node(start)));
                    }
                    node.data_blocks[node.next_entry as usize] = pointer;
                    node.next_entry += 1;
                    node.next_free = next_block(node.next_free);
                    assert(node@ =~= pushed(fresh_node(start), pointer));
                    proof {
                        lemma_fs_with_block(mid, start as int, node_bytes(node@));
                    }
                    node.save(ata, start);
                    proof {
                        let img = fs_image(old(ata)@);
                        let fresh = node_bytes(fresh_node(start));
                        crate::file_systems::lemma_region_from(img, 1);
                        assert(mid == with_image(old(ata)@, put(img, start as int, fresh)));
                        assert(fs_image(mid) == put(img, start as int, fresh));
                        assert(put(put(img, start as int, fresh), start as int, node_bytes(node@)) =~= put(
                            img,
                            start as int,
                            node_bytes(node@),
                        ));
                        assert(ata@ == with_image(mid, put(img, start as int, node_bytes(node@))));
                        assert(ata@ =~= with_image(old(ata)@, put(img, start as int, node_bytes(node@))));
                    }
                    Ok(())
                },
                Err(e) => Err(e),
            }
        }
    }

    /// Continues the list after this node: places an empty node at the lowest free region of
    /// the drive, stores it there, links this node to it and hands it out. Fails, changing
    /// nothing, when the drive has no free region.
    fn add_index_node(&mut self, ata: &mut Ata) -> (r: Result<IndexNode, FsError>)
        requires
            old(ata)@.contains_key((FS_BUS, FS_DRIVE)),
        ensures
            ({
                let start = crate::file_systems::region_from(fs_image(old(ata)@), 1);
                &&& r is Ok <==> start < fs_image(old(ata)@).len()
                &&& r matches Ok(node) ==> {
                    &&& node@ == fresh_node(start as u32)
                    &&& final(self)@ == (IndexNodeView { next: start as u32, ..old(self)@ })
                    &&& final(ata)@ == fs_with_block(old(ata)@, start, node_bytes(node@))
                }
                &&& r matches Err(e) ==> {
                    &&& e == FsError::DiskFull
                    &&& final(self)@ == old(self)@
                    &&& final(ata)@ == old(ata)@
                }
            }),
    {
        let disk = get_disk(ata, FS_BUS, FS_DRIVE).unwrap();
        proof {
            crate::file_systems::lemma_region_from(fs_image(ata@), 1);
        }
        match allocate_node_region(ata, &disk) {
            Some(start) => {
                let node = IndexNode::create(start);
                node.save(ata, start);
                self.next = start;
                Ok(node)
            },
            None => Err(FsError::DiskFull),
        }
    }

    /// Drops every address of the file's block list: of this node and of every node after it.
    /// The nodes stay linked, so that the list can be filled again.
    pub fn clear_list(&mut self, ata: &mut Ata)
        requires
            old(ata)@.contains_key((FS_BUS, FS_DRIVE)),
        ensures
            ({
                let out = clear_at(fs_image(old(ata)@), old(self)@, fs_image(old(ata)@).len());
                &&& final(self)@ == out.node
                &&& final(ata)@ == with_image(old(ata)@, out.blocks)
            }),
    {
        let fuel = get_disk_sector_count(ata, FS_BUS, FS_DRIVE);
        self.clear_within(ata, fuel)
    }

    fn clear_within(&mut self, ata: &mut Ata, fuel: usize)
        requires
            old(ata)@.contains_key((FS_BUS, FS_DRIVE)),
        ensures
            ({
                let out = clear_at(fs_image(old(ata)@), old(self)@, fuel as nat);
                &&& final(self)@ == out.node
                &&& final(ata)@ == with_image(old(ata)@, out.blocks)
            }),
            final(ata)@.contains_key((FS_BUS, FS_DRIVE)),
        decreases fuel,
    {
        proof {
            lemma_fs_with_block(ata@, 0, zero_block());
        }
        self.data_blocks = [0u32; 32];
        self.next_free = next_block(self.current);
        self.next_entry = 0;
        assert(self@.data_blocks =~= Seq::new(32, |i: int| 0u32));
        if self.next != 0 && fuel > 0 {
            let mut next = IndexNode::from_index(ata, self.next);
            let ghost sub = clear_at(fs_image(ata@), next@, (fuel - 1) as nat);
            next.clear_within(ata, fuel - 1);
            proof {
                lemma_fs_with_block(ata@, self.next as int, node_bytes(next@));
                assert(fs_image(ata@) =~= sub.blocks);
            }
            next.save(ata, self.next);
            assert(ata@ =~= with_image(old(ata)@, put(sub.blocks, self.next as int, node_bytes(next@))));
        }
    }
}

/// Dropping the addresses of a list keeps the number of sectors of the image.
pub proof fn lemma_clear_len(blocks: Seq<Seq<u8>>, node: IndexNodeView, fuel: nat)
    ensures
        clear_at(blocks, node, fuel).blocks.len() == blocks.len(),
    decreases fuel,
{
    if node.next != 0 && fuel > 0 {
        lemma_clear_len(blocks, node_at(blocks, node.next as int), (fuel - 1) as nat);
    }
}

/// Adding a run of addresses keeps the number of sectors of the image.
pub proof fn lemma_append_all_len(blocks: Seq<Seq<u8>>, node: IndexNodeView, fuel: nat, pointers: Seq<BlockIndex>)
    ensures
        append_all(blocks, node, fuel, pointers).blocks.len() == blocks.len(),
    decreases pointers.len(),
{
    if pointers.len() > 0 {
        lemma_append_all_len(blocks, node, fuel, pointers.drop_last());
        let before = append_all(blocks, node, fuel, pointers.drop_last());
        lemma_append_failed(before.blocks, before.node, fuel, pointers.last());
    }
}

/// The addresses that the sectors of a list carry, in order.
pub open spec fn indices(list: Seq<SectorView>) -> Seq<BlockIndex> {
    Seq::new(list.len(), |i: int| list[i].index)
}

/// The mathematical value of a [`FileInfo`].
pub struct FileInfoView {
    /// The block of the file's first node; 0 when the file has none.
    pub index_node_lead: BlockIndex,
}

/// The handle of a file: where its block list starts.
#[derive(Debug, Clone, Copy)]
pub struct FileInfo {
    index_node_lead: BlockIndex,
}

impl View for FileInfo {
    type V = FileInfoView;

    closed spec fn view(&self) -> FileInfoView {
        FileInfoView { index_node_lead: self.index_node_lead }
    }
}

impl FileInfo {
    /// The handle of a file that has no block list yet, whatever sectors are offered.
    pub fn new(_sectors: Vec<Sector>) -> (info: FileInfo)
        ensures
            info@.index_node_lead == 0,
    {
        let index_node_lead: BlockIndex = 0;
        FileInfo { index_node_lead }
    }

    /// The handle of the file whose block list starts at block `lead`.
    pub fn at(lead: BlockIndex) -> (info: FileInfo)
        ensures
            info@.index_node_lead == lead,
    {
        FileInfo { index_node_lead: lead }
    }

    /// The handle that a block stands for: the first four bytes name the first node.
    pub fn from_block(block: &Block) -> (info: FileInfo)
        ensures
            info@.index_node_lead == le_u32(block@, 0),
    {
        let bytes = block.bytes();
        FileInfo { index_node_lead: get_u32_le(&bytes, 0) }
    }

    /// The block of the file's first node.
    pub fn lead(&self) -> (r: BlockIndex)
        ensures
            r == self@.index_node_lead,
    {
        self.index_node_lead
    }

    /// Reads the file's first node.
    pub fn index_head(&self, ata: &Ata) -> (head: IndexNode)
        requires
            ata@.contains_key((FS_BUS, FS_DRIVE)),
        ensures
            head@ == node_at(fs_image(ata@), self@.index_node_lead as int),
    {
        let head = IndexNode::from_index(ata, self.index_node_lead);
        head
    }

    /// The contents of the file: the bytes of its data sectors, in order.
    pub fn get_data(&self, ata: &Ata) -> (v: Vec<u8>)
        requires
            ata@.contains_key((FS_BUS, FS_DRIVE)),
        ensures
            v@ == flat(file_sectors(ata@, node_at(fs_image(ata@), self@.index_node_lead as int))),
    {
        self.index_head(ata).get_data(ata)
    }

    /// Writes `data` as the contents of the file. The bytes are cut into sectors, the last
    /// one filled up with zeros. The sectors and the nodes that the list needs beyond the
    /// first are stored in the lowest run of unused sectors that holds them all, nodes
    /// first; the first node stays where it is and names the first 32 sectors. What the file
    /// held before is no longer named by it. Nothing is written when the file has no first
    /// node or the drive has no such run.
    pub fn set_data(&mut self, ata: &mut Ata, data: Vec<u8>) -> (r: Result<(), FsError>)
        requires
            old(ata)@.contains_key((FS_BUS, FS_DRIVE)),
        ensures
            final(self)@ == old(self)@,
            r is Ok <==> can_hold(fs_image(old(ata)@), old(self)@.index_node_lead as int, data@.len() as int),
            r matches Err(e) ==> final(ata)@ == old(ata)@ && e == (if lead_present(
                fs_image(old(ata)@),
                old(self)@.index_node_lead as int,
            ) {
                FsError::DiskFull
            } else {
                FsError::NoLeadNode
            }),
            r is Ok ==> ({
                let blocks = fs_image(old(ata)@);
                let lead = old(self)@.index_node_lead as int;
                let list = written_all(Seq::empty(), 0, data@);
                let start = run_from(blocks, 1, blocks_needed(data@.len() as int));
                let head = node_at(fs_image(final(ata)@), lead);
                &&& final(ata)@ == with_image(
                    old(ata)@,
                    laid_out(blocks, lead, start, crate::file_systems::contents(list)),
                )
                &&& file_nodes(final(ata)@, head).len() == extra_nodes(list.len() as int) + 1
                &&& chain_pointers(file_nodes(final(ata)@, head)) == crate::linked::laid_pointers(
                    start,
                    list.len() as int,
                    0,
                )
                &&& chain_pointers(file_nodes(final(ata)@, head)).len() == list.len()
                &&& flat(file_sectors(final(ata)@, head)) == padded_bytes(data@)
            }),
    {
        let ghost blocks = fs_image(ata@);
        let ghost before = ata@;
        proof {
            ata.lemma_well_formed();
            lemma_written_from_empty(data@);
            lemma_zero_node();
        }
        let lead = self.index_node_lead;
        let sectors = get_disk_sector_count(ata, FS_BUS, FS_DRIVE);
        if lead == 0 || lead as usize >= sectors {
            return Err(FsError::NoLeadNode);
        }
        if IndexNode::from_index(ata, lead).current != lead {
            return Err(FsError::NoLeadNode);
        }
        let mut list = SectorList::new();
        let _ = data.len();
        list.write_slice(data.as_slice(), 0);
        let n = list.len();
        let ghost content = crate::file_systems::contents(list@);
        let ghost needed = blocks_needed(data@.len() as int);
        if n > sectors {
            return Err(FsError::DiskFull);
        }
        let extra: usize = if n <= 32 {
            0
        } else {
            (n - 1) / 32
        };
        let total: u64 = n as u64 + extra as u64;
        assert(total == needed);
        let disk = get_disk(ata, FS_BUS, FS_DRIVE).unwrap();
        proof {
            lemma_run_from(blocks, 1, needed);
        }
        let start: u32 = if total == 0 {
            1
        } else {
            match allocate_run(ata, &disk, total) {
                Some(s) => s,
                None => {
                    return Err(FsError::DiskFull);
                },
            }
        };
        proof {
            if total > 0 {
                assert(run_free(blocks, start as int, needed));
                if start <= lead < start + needed {
                    assert(block_of(blocks, lead as int) == zero_block());
                }
            }
            assert(blocks =~= partly_laid(blocks, lead as int, start as int, content, 0, 0, false));
            lemma_fs_with_block(ata@, 0, zero_block());
        }
        let mut k: usize = 0;
        while k < n
            invariant
                k <= n,
                n == list@.len(),
                n == content.len(),
                content == crate::file_systems::contents(list@),
                extra == extra_nodes(n as int),
                total == n + extra,
                total > 0 ==> 1 <= start && start + total <= blocks.len(),
                blocks.len() <= u32::MAX,
                blocks == fs_image(before),
                before.contains_key((FS_BUS, FS_DRIVE)),
                disk@.bus == FS_BUS,
                disk@.drive == FS_DRIVE,
                ata@ == with_image(before, partly_laid(blocks, lead as int, start as int, content, k as int, 0, false)),
            decreases n - k,
        {
            let sector = list.get_sector(k).unwrap();
            let at = (start as u64 + extra as u64 + k as u64) as u32;
            proof {
                let image = partly_laid(blocks, lead as int, start as int, content, k as int, 0, false);
                lemma_image_step(before, image, at as int, sector@.data);
                assert(content[k as int] == sector@.data);
                assert(put(image, at as int, sector@.data) =~= partly_laid(
                    blocks,
                    lead as int,
                    start as int,
                    content,
                    k + 1,
                    0,
                    false,
                ));
            }
            set_sector(ata, &disk, at, sector);
            k += 1;
        }
        let mut j: usize = 0;
        while j < extra
            invariant
                j <= extra,
                n == content.len(),
                extra == extra_nodes(n as int),
                total == n + extra,
                total > 0 ==> 1 <= start && start + total <= blocks.len(),
                blocks.len() <= u32::MAX,
                blocks == fs_image(before),
                before.contains_key((FS_BUS, FS_DRIVE)),
                ata@ == with_image(
                    before,
                    partly_laid(blocks, lead as int, start as int, content, n as int, j as int, false),
                ),
            decreases extra - j,
        {
            let node = IndexNode::laid(lead, start, n, j + 1);
            let at = (start as u64 + j as u64) as u32;
            proof {
                let image = partly_laid(blocks, lead as int, start as int, content, n as int, j as int, false);
                lemma_image_step(before, image, at as int, node_bytes(node@));
                assert(put(image, at as int, node_bytes(node@)) =~= partly_laid(
                    blocks,
                    lead as int,
                    start as int,
                    content,
                    n as int,
                    j + 1,
                    false,
                ));
            }
            node.save(ata, at);
            j += 1;
        }
        let head = IndexNode::laid(lead, start, n, 0);
        proof {
            let image = partly_laid(blocks, lead as int, start as int, content, n as int, extra as int, false);
            lemma_image_step(before, image, lead as int, node_bytes(head@));
            assert(put(image, lead as int, node_bytes(head@)) =~= laid_out(blocks, lead as int, start as int, content));
        }
        head.save(ata, lead);
        proof {
            let spot = run_from(blocks, 1, needed);
            assert(laid_out(blocks, lead as int, start as int, content) =~= laid_out(
                blocks,
                lead as int,
                spot,
                content,
            ));
            lemma_image_step(before, laid_out(blocks, lead as int, spot, content), 0, zero_block());
            crate::linked::lemma_laid_out(blocks, lead as int, spot, content);
        }
        Ok(())
    }

    /// A fresh, empty sector list to collect the file's sectors in.
    pub fn get_mut_sectorlist(&mut self) -> (sectors: SectorList)
        ensures
            final(self)@ == old(self)@,
            sectors@ == Seq::<SectorView>::empty(),
    {
        let sectors = SectorList::new();
        sectors
    }

    /// Replaces the file's block list by the addresses that the sectors of `sectors` carry:
    /// the list is emptied, the addresses are added in order, and the first node is stored
    /// again. Stops at the first address that cannot be added; what was added until then
    /// stays. A file without a first node is left alone.
    pub fn set_sectors(&mut self, ata: &mut Ata, sectors: &SectorList) -> (r: Result<(), FsError>)
        requires
            old(ata)@.contains_key((FS_BUS, FS_DRIVE)),
        ensures
            final(self)@ == old(self)@,
            old(self)@.index_node_lead == 0 ==> r == Err::<(), FsError>(FsError::NoLeadNode) && final(ata)@ == old(
                ata,
            )@,
            old(self)@.index_node_lead != 0 ==> ({
                let blocks = fs_image(old(ata)@);
                let lead = old(self)@.index_node_lead as int;
                let cleared = clear_at(blocks, node_at(blocks, lead), blocks.len());
                let out = append_all(cleared.blocks, cleared.node, blocks.len(), indices(sectors@));
                &&& r == out.result
                &&& final(ata)@ == with_image(old(ata)@, put(out.blocks, lead, node_bytes(out.node)))
            }),
    {
        if self.index_node_lead == 0 {
            return Err(FsError::NoLeadNode);
        }
        let ghost blocks = fs_image(ata@);
        let ghost fuel = blocks.len();
        let mut head = self.index_head(ata);
        let ghost cleared = clear_at(blocks, head@, fuel);
        proof {
            lemma_clear_len(blocks, head@, fuel);
            lemma_fs_with_block(ata@, 0, zero_block());
        }
        head.clear_list(ata);
        let n = sectors.len();
        let mut i: usize = 0;
        let mut result: Result<(), FsError> = Ok(());
        let ghost wanted = indices(sectors@);
        assert(wanted.take(0) =~= Seq::<BlockIndex>::empty());
        while i < n && result.is_ok()
            invariant
                i <= n,
                n == sectors@.len(),
                wanted == indices(sectors@),
                cleared.blocks.len() == fuel,
                old(ata)@.contains_key((FS_BUS, FS_DRIVE)),
                ata@.contains_key((FS_BUS, FS_DRIVE)),
                ({
                    let out = append_all(cleared.blocks, cleared.node, fuel, wanted.take(i as int));
                    &&& result == out.result
                    &&& head@ == out.node
                    &&& ata@ == with_image(old(ata)@, out.blocks)
                    &&& result is Err ==> out == append_all(cleared.blocks, cleared.node, fuel, wanted)
                }),
            decreases n - i + (if result is Ok { 1int } else { 0int }),
        {
            let sector = sectors.get_sector(i).unwrap();
            proof {
                let before = append_all(cleared.blocks, cleared.node, fuel, wanted.take(i as int));
                lemma_append_all_len(cleared.blocks, cleared.node, fuel, wanted.take(i as int));
                assert(wanted.take(i as int + 1).drop_last() =~= wanted.take(i as int));
                assert(wanted.take(i as int + 1).last() == sector@.index);
                lemma_fs_with_block(old(ata)@, 0, zero_block());
                assert(fs_image(ata@) == before.blocks);
                lemma_append_failed(before.blocks, before.node, fuel, sector@.index);
            }
            let ghost mid = ata@;
            result = head.add_data_sector(ata, sector);
            i += 1;
            proof {
                let out = append_all(cleared.blocks, cleared.node, fuel, wanted.take(i as int));
                assert(ata@ =~= with_image(old(ata)@, out.blocks));
                if result is Err {
                    lemma_append_all_stops(cleared.blocks, cleared.node, fuel, wanted, i as int);
                }
            }
        }
        proof {
            if result is Ok {
                assert(wanted.take(i as int) =~= wanted);
            }
            let out = append_all(cleared.blocks, cleared.node, fuel, wanted);
            lemma_append_all_len(cleared.blocks, cleared.node, fuel, wanted);
            lemma_fs_with_block(ata@, self.index_node_lead as int, node_bytes(head@));
        }
        head.save(ata, self.index_node_lead);
        proof {
            let out = append_all(cleared.blocks, cleared.node, fuel, wanted);
            assert(ata@ =~= with_image(old(ata)@, put(out.blocks, self.index_node_lead as int, node_bytes(out.node))));
        }
        result
    }
}

/// Once an address of a run could not be added, the addresses after it change nothing more.
pub proof fn lemma_append_all_stops(
    blocks: Seq<Seq<u8>>,
    node: IndexNodeView,
    fuel: nat,
    pointers: Seq<BlockIndex>,
    upto: int,
)
    requires
        0 <= upto <= pointers.len(),
        append_all(blocks, node, fuel, pointers.take(upto)).result is Err,
    ensures
        append_all(blocks, node, fuel, pointers) == append_all(blocks, node, fuel, pointers.take(upto)),
    decreases pointers.len() - upto,
{
    if upto < pointers.len() {
        assert(pointers.take(upto + 1).drop_last() =~= pointers.take(upto));
        lemma_append_all_stops(blocks, node, fuel, pointers, upto + 1);
    } else {
        assert(pointers.take(upto) =~= pointers);
    }
}

impl FileTableEntry {
    /// Reads the handle of the file from the block of its first node.
    pub fn get_fileinfo(&self, ata: &Ata) -> (info: FileInfo)
        requires
            ata@.contains_key((FS_BUS, FS_DRIVE)),
        ensures
            info@.index_node_lead == le_u32(block_of(fs_image(ata@), self@.metanode_index as int), 0),
    {
        FileInfo::from_block(&Block::from_disk_b(ata, self.index()))
    }
}

/// Bytes that a file table takes on a drive.
pub const FILE_TABLE_BYTES: usize = 32 + ENTRIES_PER_TABLE * FT_ENTRY_ALIGN;

/// Bytes that an index node takes on a drive.
pub const INDEX_NODE_BYTES: usize = 16 + NODE_SLOTS * 4;

/// Bytes that a file handle takes on a drive.
pub const FILE_INFO_BYTES: usize = 4;

/// Checks that every structure that is stored in a sector fits into one. The answer is always
/// yes.
pub fn check_sizes() -> (ok: bool)
    ensures
        ok,
{
    FILE_TABLE_BYTES <= 512 && FT_ENTRY_ALIGN <= 32 && FILE_INFO_BYTES <= 512 && INDEX_NODE_BYTES <= 512
}

/// A file can be created: the table has a free slot, and the file-system drive has room for
/// the file's first node.
pub open spec fn can_create(table: FileTableView, blocks: Seq<Seq<u8>>) -> bool {
    first_free(table.entries, 0) < 15 && region_from(blocks, 1) < blocks.len()
}

/// The entry of a file called `name` that was created in slot `slot`, which held `e`, with
/// its first node in block `lead`.
pub open spec fn new_entry(e: FileTableEntryView, slot: int, name: Seq<u8>, lead: int) -> FileTableEntryView {
    FileTableEntryView { metanode_index: lead as u32, ..claimed(e, slot, name) }
}

/// Creates a file called `name` together with its first node. The file takes the lowest free
/// slot of `root`; its first node, empty, is stored in the lowest block, other than block 0,
/// from which 33 sectors are unused, and the entry records that block; the table is then
/// written to block 0 of its drive. Returns the new entry: the handle that is read through
/// it names the node, so that the file can be written at once. Nothing is changed when the
/// table is full or the drive has no room for the node. A text of more than eight bytes is
/// not a name.
pub fn create_file(ata: &mut Ata, root: &mut FileTable, name: &str) -> (r: Result<FileTableEntry, FsError>)
    requires
        old(ata)@.contains_key((FS_BUS, FS_DRIVE)),
        old(ata)@.contains_key(old(root)@.disk),
        name.spec_bytes().len() <= crate::file_table::SMALL_STR_LEN,
    ensures
        r is Ok <==> can_create(old(root)@, fs_image(old(ata)@)),
        r matches Err(e) ==> {
            &&& final(ata)@ == old(ata)@
            &&& final(root)@ == old(root)@
            &&& e == (if first_free(old(root)@.entries, 0) < 15 {
                FsError::DiskFull
            } else {
                FsError::TableFull
            })
        },
        r matches Ok(entry) ==> ({
            let slot = first_free(old(root)@.entries, 0);
            let lead = region_from(fs_image(old(ata)@), 1);
            &&& 0 <= slot < 15
            &&& 1 <= lead < fs_image(old(ata)@).len()
            &&& entry@.metanode_index == lead
            &&& entry@ == new_entry(old(root)@.entries[slot], slot, padded(name.spec_bytes()), lead)
            &&& final(root)@ == (FileTableView {
                entries: old(root)@.entries.update(slot, entry@),
                ..old(root)@
            })
            &&& final(root)@.entries[slot] == entry@
            &&& final(ata)@ == with_block(
                fs_with_block(old(ata)@, lead, node_bytes(fresh_node(lead as u32))),
                old(root)@.disk.0,
                old(root)@.disk.1,
                0,
                table_bytes(final(root)@),
            )
            &&& node_at(fs_image(final(ata)@), lead) == fresh_node(lead as u32)
            &&& lead_present(fs_image(final(ata)@), lead)
            &&& le_u32(block_of(fs_image(final(ata)@), lead), 0) == lead
        }),
{
    proof {
        ata.lemma_well_formed();
        crate::file_systems::lemma_region_from(fs_image(ata@), 1);
        lemma_fs_with_block(ata@, 0, zero_block());
        root.lemma_slots();
        crate::file_table::lemma_first_free(root@.entries, 0);
    }
    let slot = match root.first_free_slot() {
        Some(slot) => slot,
        None => {
            return Err(FsError::TableFull);
        },
    };
    let disk = get_disk(ata, FS_BUS, FS_DRIVE).unwrap();
    let lead = match allocate_node_region(ata, &disk) {
        Some(lead) => lead,
        None => {
            return Err(FsError::DiskFull);
        },
    };
    let _ = root.create(name);
    let entry = root.entry_mut(slot);
    entry.update_index(lead);
    let made = *root.entry(slot);
    proof {
        root.lemma_slots();
        assert(root@.entries =~= old(root)@.entries.update(slot as int, made@));
    }
    IndexNode::create(lead).save(ata, lead);
    root.update_on_disk(ata);
    proof {
        lemma_node_round_trip(fresh_node(lead));
        lemma_node_word(fresh_node(lead), 0);
        assert(fs_image(ata@)[lead as int] == node_bytes(fresh_node(lead)));
    }
    Ok(made)
}

/// The handle under which the file called `name` is opened: the slot number its entry
/// records, or 0 when `root` has no such file. A text of more than eight bytes is not a name.
pub fn open_file(root: &FileTable, name: &str) -> (file_handle: usize)
    requires
        name.spec_bytes().len() <= crate::file_table::SMALL_STR_LEN,
    ensures
        file_handle == ({
            let slot = first_named(root@.entries, padded(name.spec_bytes()), 0);
            if slot < 15 {
                root@.entries[slot].table_index
            } else {
                0usize
            }
        }),
{
    if let Some(file) = root.search(name) {
        file.table_index()
    } else {
        0
    }
}

/// Reads the handle of the file in slot `index` of `root`.
pub fn file_info(ata: &Ata, root: &FileTable, index: usize) -> (info: FileInfo)
    requires
        index < ENTRIES_PER_TABLE,
        ata@.contains_key((FS_BUS, FS_DRIVE)),
    ensures
        info@.index_node_lead == le_u32(
            block_of(fs_image(ata@), root@.entries[index as int].metanode_index as int),
            0,
        ),
{
    root.entry(index).get_fileinfo(ata)
}

} // verus!
