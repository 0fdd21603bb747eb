//! Well-linked block lists: what holds of the lists that this crate builds, as opposed to
//! whatever bytes a drive may hold. Adding an address to such a list keeps it well linked and
//! puts the address at its end; the list never has more nodes than its addresses need.

use vstd::prelude::*;
use vstd::set_lib::{lemma_int_range, lemma_len_subset, set_int_range};
use crate::ata::block_of;
use crate::file::{
    append_all, append_at, chain, chain_pointers, chain_sectors, extra_nodes, flat, fresh_node, laid_node, laid_out,
    lemma_append_failed, lemma_node_round_trip, lemma_zero_node, node_at, node_bytes, pointers_of, pushed, put,
    used, FsError, IndexNodeView,
};
use crate::file_systems::{lemma_region_from, region_free, region_from};
use crate::sector::{BlockIndex, SectorView, zero_block};

verus! {

/// The list that starts with `head` and goes on through the nodes stored at `addrs`, in that
/// order, is well linked: each node names the next one and the last names none; every node
/// but the last is full, and every node but the first holds at least one address; each
/// stored node sits in a block of the drive, other than block 0, and knows its own address;
/// and no block is visited twice.
pub open spec fn well_linked(blocks: Seq<Seq<u8>>, head: IndexNodeView, addrs: Seq<int>) -> bool
    decreases addrs.len(),
{
    if addrs.len() == 0 {
        head.next == 0 && head.data_blocks.len() == 32
    } else {
        let a = addrs[0];
        &&& head.next == a
        &&& head.next_entry >= 32
        &&& head.data_blocks.len() == 32
        &&& 1 <= a < blocks.len()
        &&& node_at(blocks, a).current == a
        &&& node_at(blocks, a).next_entry >= 1
        &&& !addrs.drop_first().contains(a)
        &&& well_linked(blocks, node_at(blocks, a), addrs.drop_first())
    }
}

/// The last node of the list that goes on through `addrs`.
pub open spec fn last_node(blocks: Seq<Seq<u8>>, head: IndexNodeView, addrs: Seq<int>) -> IndexNodeView {
    if addrs.len() == 0 {
        head
    } else {
        node_at(blocks, addrs.last())
    }
}

/// The addresses held by the list that goes on through `addrs`, first node first.
pub open spec fn linked_pointers(blocks: Seq<Seq<u8>>, head: IndexNodeView, addrs: Seq<int>) -> Seq<BlockIndex>
    decreases addrs.len(),
{
    if addrs.len() == 0 {
        pointers_of(head)
    } else {
        pointers_of(head) + linked_pointers(blocks, node_at(blocks, addrs[0]), addrs.drop_first())
    }
}

/// The addresses of a run of nodes are those of its first node followed by those of the rest.
pub proof fn lemma_pointers_cons(first: IndexNodeView, rest: Seq<IndexNodeView>)
    ensures
        chain_pointers(seq![first] + rest) == pointers_of(first) + chain_pointers(rest),
    decreases rest.len(),
{
    let all = seq![first] + rest;
    if rest.len() == 0 {
        assert(all.drop_last() =~= Seq::<IndexNodeView>::empty());
        assert(chain_pointers(Seq::<IndexNodeView>::empty()) =~= Seq::<BlockIndex>::empty());
        assert(all.last() == first);
        assert(chain_pointers(all) =~= pointers_of(first) + chain_pointers(rest));
    } else {
        assert(all.drop_last() =~= seq![first] + rest.drop_last());
        assert(all.last() == rest.last());
        lemma_pointers_cons(first, rest.drop_last());
        assert(chain_pointers(all) =~= pointers_of(first) + chain_pointers(rest));
    }
}

/// Walking a well-linked list with enough fuel visits exactly its nodes: one more than it has
/// links, ending at the node that names no other, and collecting the list's addresses.
pub proof fn lemma_chain_linked(blocks: Seq<Seq<u8>>, head: IndexNodeView, addrs: Seq<int>, fuel: nat)
    requires
        well_linked(blocks, head, addrs),
        fuel >= addrs.len(),
    ensures
        chain(blocks, head, fuel).len() == addrs.len() + 1,
        chain(blocks, head, fuel).last() == last_node(blocks, head, addrs),
        chain(blocks, head, fuel).last().next == 0,
        chain_pointers(chain(blocks, head, fuel)) == linked_pointers(blocks, head, addrs),
    decreases addrs.len(),
{
    if addrs.len() == 0 {
        assert(chain(blocks, head, fuel) =~= seq![head]);
        lemma_pointers_cons(head, Seq::empty());
        assert(seq![head] + Seq::<IndexNodeView>::empty() =~= seq![head]);
        assert(chain_pointers(Seq::<IndexNodeView>::empty()) =~= Seq::<BlockIndex>::empty());
        assert(chain_pointers(seq![head]) =~= pointers_of(head));
    } else {
        let next = node_at(blocks, addrs[0]);
        let rest = addrs.drop_first();
        lemma_chain_linked(blocks, next, rest, (fuel - 1) as nat);
        let tail = chain(blocks, next, (fuel - 1) as nat);
        assert(chain(blocks, head, fuel) == seq![head] + tail);
        lemma_pointers_cons(head, tail);
        if rest.len() > 0 {
            assert(rest.last() == addrs.last());
        }
    }
}

/// The blocks of a well-linked list are all different and lie on the drive, so that the list
/// has fewer links than the drive has sectors.
pub proof fn lemma_links_bounded(blocks: Seq<Seq<u8>>, head: IndexNodeView, addrs: Seq<int>)
    requires
        well_linked(blocks, head, addrs),
    ensures
        addrs.no_duplicates(),
        forall|i: int| 0 <= i < addrs.len() ==> 1 <= #[trigger] addrs[i] < blocks.len(),
        addrs.len() == 0 || addrs.len() < blocks.len(),
    decreases addrs.len(),
{
    lemma_links_distinct(blocks, head, addrs);
    if addrs.len() > 0 {
        addrs.unique_seq_to_set();
        lemma_int_range(1, blocks.len() as int);
        assert(addrs.to_set().subset_of(set_int_range(1, blocks.len() as int))) by {
            assert forall|a: int| addrs.to_set().contains(a) implies set_int_range(1, blocks.len() as int).contains(
                a,
            ) by {
                let i = choose|i: int| 0 <= i < addrs.len() && addrs[i] == a;
                assert(1 <= addrs[i] < blocks.len());
            }
        }
        lemma_len_subset(addrs.to_set(), set_int_range(1, blocks.len() as int));
    }
}

proof fn lemma_links_distinct(blocks: Seq<Seq<u8>>, head: IndexNodeView, addrs: Seq<int>)
    requires
        well_linked(blocks, head, addrs),
    ensures
        addrs.no_duplicates(),
        forall|i: int| 0 <= i < addrs.len() ==> 1 <= #[trigger] addrs[i] < blocks.len(),
        forall|i: int| 0 <= i < addrs.len() ==> node_at(blocks, #[trigger] addrs[i]).current == addrs[i],
    decreases addrs.len(),
{
    if addrs.len() > 0 {
        let rest = addrs.drop_first();
        lemma_links_distinct(blocks, node_at(blocks, addrs[0]), rest);
        assert forall|i: int, j: int| 0 <= i < addrs.len() && 0 <= j < addrs.len() && i != j implies addrs[i]
            != addrs[j] by {
            if i == 0 {
                assert(rest[j - 1] == addrs[j]);
                assert(rest.contains(addrs[j]));
            } else if j == 0 {
                assert(rest[i - 1] == addrs[i]);
                assert(rest.contains(addrs[i]));
            } else {
                assert(rest[i - 1] == addrs[i] && rest[j - 1] == addrs[j]);
            }
        }
        assert forall|i: int| 0 <= i < addrs.len() implies 1 <= #[trigger] addrs[i] < blocks.len() && node_at(
            blocks,
            addrs[i],
        ).current == addrs[i] by {
            if i > 0 {
                assert(rest[i - 1] == addrs[i]);
            }
        }
    }
}

/// A list stays well linked, and keeps its addresses, when the image changes only in blocks
/// that the list does not go through.
pub proof fn lemma_linked_elsewhere(
    blocks: Seq<Seq<u8>>,
    changed: Seq<Seq<u8>>,
    head: IndexNodeView,
    addrs: Seq<int>,
)
    requires
        well_linked(blocks, head, addrs),
        changed.len() == blocks.len(),
        forall|i: int| 0 <= i < addrs.len() ==> changed[#[trigger] addrs[i]] == blocks[addrs[i]],
    ensures
        well_linked(changed, head, addrs),
        linked_pointers(changed, head, addrs) == linked_pointers(blocks, head, addrs),
        last_node(changed, head, addrs) == last_node(blocks, head, addrs),
    decreases addrs.len(),
{
    if addrs.len() > 0 {
        let rest = addrs.drop_first();
        assert(changed[addrs[0]] == blocks[addrs[0]]);
        assert forall|i: int| 0 <= i < rest.len() implies changed[#[trigger] rest[i]] == blocks[rest[i]] by {
            assert(rest[i] == addrs[i + 1]);
        }
        lemma_linked_elsewhere(blocks, changed, node_at(blocks, addrs[0]), rest);
        lemma_links_distinct(blocks, head, addrs);
        assert(changed[addrs.last()] == blocks[addrs.last()]);
    }
}

/// `changed` holds what `blocks` holds in every block but those of `addrs` and the block
/// `extra`.
#[verifier::opaque]
pub open spec fn untouched(blocks: Seq<Seq<u8>>, changed: Seq<Seq<u8>>, addrs: Seq<int>, extra: int) -> bool {
    forall|b: int|
        #![trigger changed[b]]
        0 <= b < blocks.len() && !addrs.contains(b) && b != extra ==> changed[b] == blocks[b]
}

/// What adding an address to a well-linked list comes to: it is added unless the last node
/// is full and the drive has no free region; the list is well linked afterwards, through the
/// same blocks, or through one more when a node had to be placed; and its addresses are those
/// it held, followed by the new one. Blocks that the list does not go through are untouched,
/// but for the block of a node that was placed.
pub open spec fn appended_well(
    blocks: Seq<Seq<u8>>,
    head: IndexNodeView,
    addrs: Seq<int>,
    fuel: nat,
    pointer: BlockIndex,
    after: Seq<int>,
) -> bool {
    let out = append_at(blocks, head, fuel, pointer);
    let room = last_node(blocks, head, addrs).next_entry < 32;
    let start = region_from(blocks, 1);
    &&& out.result is Ok <==> room || start < blocks.len()
    &&& out.result is Err ==> out.result == Err::<(), FsError>(FsError::DiskFull)
    &&& out.blocks.len() == blocks.len()
    &&& out.node.current == head.current
    &&& out.result is Ok ==> {
        &&& after == if room {
            addrs
        } else {
            addrs.push(start)
        }
        &&& well_linked(out.blocks, out.node, after)
        &&& out.node.next_entry >= 1
        &&& linked_pointers(out.blocks, out.node, after) == linked_pointers(blocks, head, addrs).push(pointer)
        &&& untouched(blocks, out.blocks, addrs, start)
        &&& !room ==> region_free(blocks, start) && !addrs.contains(start)
    }
}

/// Adding an address to a well-linked list comes to what `appended_well` says. Returns the
/// blocks the list goes through afterwards.
pub proof fn lemma_append_linked(
    blocks: Seq<Seq<u8>>,
    head: IndexNodeView,
    addrs: Seq<int>,
    fuel: nat,
    pointer: BlockIndex,
) -> (after: Seq<int>)
    requires
        well_linked(blocks, head, addrs),
        fuel >= addrs.len(),
        blocks.len() <= u32::MAX,
        pointer != 0,
    ensures
        appended_well(blocks, head, addrs, fuel, pointer, after),
    decreases addrs.len(),
{
    if addrs.len() == 0 {
        assert(addrs =~= Seq::<int>::empty());
        lemma_append_last(blocks, head, fuel, pointer)
    } else {
        let rest = addrs.drop_first();
        let next = node_at(blocks, addrs[0]);
        let sub_after = lemma_append_linked(blocks, next, rest, (fuel - 1) as nat, pointer);
        lemma_append_step(blocks, head, addrs, fuel, pointer, sub_after)
    }
}

proof fn lemma_append_last(blocks: Seq<Seq<u8>>, head: IndexNodeView, fuel: nat, pointer: BlockIndex) -> (after:
    Seq<int>)
    requires
        well_linked(blocks, head, Seq::empty()),
        blocks.len() <= u32::MAX,
        pointer != 0,
    ensures
        appended_well(blocks, head, Seq::empty(), fuel, pointer, after),
{
    let addrs = Seq::<int>::empty();
    let out = append_at(blocks, head, fuel, pointer);
    let start = region_from(blocks, 1);
    lemma_region_from(blocks, 1);
    reveal(untouched);
    if head.next_entry < 32 {
        assert(pointers_of(pushed(head, pointer)) =~= pointers_of(head).push(pointer));
        addrs
    } else if start < blocks.len() {
        let node = pushed(fresh_node(start as u32), pointer);
        lemma_node_round_trip(node);
        let after = addrs.push(start);
        assert(after.drop_first() =~= Seq::<int>::empty());
        assert(node_at(out.blocks, start) == node);
        assert(pointers_of(node) =~= seq![pointer]);
        assert(pointers_of(out.node) == pointers_of(head));
        assert(well_linked(out.blocks, node, Seq::empty()));
        assert(linked_pointers(out.blocks, node, Seq::empty()) == pointers_of(node));
        assert(linked_pointers(out.blocks, out.node, after) =~= pointers_of(head).push(pointer));
        after
    } else {
        addrs
    }
}

proof fn lemma_append_step(
    blocks: Seq<Seq<u8>>,
    head: IndexNodeView,
    addrs: Seq<int>,
    fuel: nat,
    pointer: BlockIndex,
    sub_after: Seq<int>,
) -> (after: Seq<int>)
    requires
        addrs.len() > 0,
        well_linked(blocks, head, addrs),
        fuel >= addrs.len(),
        blocks.len() <= u32::MAX,
        pointer != 0,
        appended_well(
            blocks,
            node_at(blocks, addrs[0]),
            addrs.drop_first(),
            (fuel - 1) as nat,
            pointer,
            sub_after,
        ),
    ensures
        appended_well(blocks, head, addrs, fuel, pointer, after),
{
    let out = append_at(blocks, head, fuel, pointer);
    let start = region_from(blocks, 1);
    let a = addrs[0];
    let rest = addrs.drop_first();
    let next = node_at(blocks, a);
    let sub = append_at(blocks, next, (fuel - 1) as nat, pointer);
    let room = last_node(blocks, head, addrs).next_entry < 32;
    assert(last_node(blocks, next, rest) == last_node(blocks, head, addrs)) by {
        if rest.len() > 0 {
            assert(rest.last() == addrs.last());
        }
    }
    if sub.result is Ok {
        let after = seq![a] + sub_after;
        assert(after.drop_first() =~= sub_after);
        assert(addrs =~= seq![a] + rest);
        assert(addrs.push(start) =~= seq![a] + rest.push(start));
        lemma_fresh_block(blocks, a, start, rest);
        lemma_not_among(rest, sub_after, a, start);
        lemma_linked_shape(sub.blocks, sub.node, sub_after);
        lemma_stored_node(sub.blocks, a, sub.node);
        lemma_linked_after_put(sub.blocks, a, node_bytes(sub.node), sub.node, sub_after);
        lemma_untouched_put(blocks, sub.blocks, rest, start, a, node_bytes(sub.node));
        after
    } else {
        addrs
    }
}

/// The block found for a new node is not a block that holds a node, and not one of `rest` if
/// the search started from a list through `rest` that found it fresh.
proof fn lemma_fresh_block(blocks: Seq<Seq<u8>>, a: int, start: int, rest: Seq<int>)
    requires
        node_at(blocks, a).current == a,
        1 <= a,
    ensures
        region_free(blocks, start) ==> start != a,
        region_free(blocks, start) && !rest.contains(start) ==> !(seq![a] + rest).contains(start),
{
    if region_free(blocks, start) {
        lemma_zero_node();
        assert(block_of(blocks, start) == zero_block());
        let all = seq![a] + rest;
        if all.contains(start) {
            let i = choose|i: int| 0 <= i < all.len() && all[i] == start;
            if i > 0 {
                assert(rest[i - 1] == start);
                assert(rest.contains(start));
            }
        }
    }
}

/// A block that is neither among `rest` nor `extra` is not among `rest` with or without
/// `extra` at its end.
proof fn lemma_not_among(rest: Seq<int>, after: Seq<int>, a: int, extra: int)
    requires
        !rest.contains(a),
        after == rest || (after == rest.push(extra) && extra != a),
    ensures
        !after.contains(a),
{
    if after.contains(a) {
        let i = choose|i: int| 0 <= i < after.len() && after[i] == a;
        if i < rest.len() {
            assert(rest[i] == a);
            assert(rest.contains(a));
        }
    }
}

/// A node that is stored in a block of the drive is read back from that block.
proof fn lemma_stored_node(blocks: Seq<Seq<u8>>, a: int, node: IndexNodeView)
    requires
        0 <= a < blocks.len(),
        node.data_blocks.len() == 32,
    ensures
        node_at(put(blocks, a, node_bytes(node)), a) == node,
        put(blocks, a, node_bytes(node)).len() == blocks.len(),
{
    lemma_node_round_trip(node);
}

/// A list stays well linked, and keeps its addresses, when a block that it does not go
/// through is overwritten.
proof fn lemma_linked_after_put(
    blocks: Seq<Seq<u8>>,
    a: int,
    data: Seq<u8>,
    head: IndexNodeView,
    addrs: Seq<int>,
)
    requires
        well_linked(blocks, head, addrs),
        !addrs.contains(a),
    ensures
        well_linked(put(blocks, a, data), head, addrs),
        linked_pointers(put(blocks, a, data), head, addrs) == linked_pointers(blocks, head, addrs),
        last_node(put(blocks, a, data), head, addrs) == last_node(blocks, head, addrs),
{
    let changed = put(blocks, a, data);
    lemma_links_distinct(blocks, head, addrs);
    assert forall|i: int| 0 <= i < addrs.len() implies changed[#[trigger] addrs[i]] == blocks[addrs[i]] by {
        assert(addrs.contains(addrs[i]));
    }
    lemma_linked_elsewhere(blocks, changed, head, addrs);
}

/// What was untouched outside a list stays untouched outside the list with one more block in
/// front, when that block is overwritten.
proof fn lemma_untouched_put(
    blocks: Seq<Seq<u8>>,
    changed: Seq<Seq<u8>>,
    rest: Seq<int>,
    extra: int,
    a: int,
    data: Seq<u8>,
)
    requires
        changed.len() == blocks.len(),
        untouched(blocks, changed, rest, extra),
    ensures
        untouched(blocks, put(changed, a, data), seq![a] + rest, extra),
{
    reveal(untouched);
    let all = seq![a] + rest;
    assert forall|b: int| 0 <= b < blocks.len() && !all.contains(b) && b != extra implies #[trigger] put(
        changed,
        a,
        data,
    )[b] == blocks[b] by {
        assert(all[0] == a);
        if rest.contains(b) {
            let i = choose|i: int| 0 <= i < rest.len() && rest[i] == b;
            assert(all[i + 1] == b);
        }
    }
}

/// Every node of a well-linked list has 32 slots.
proof fn lemma_linked_shape(blocks: Seq<Seq<u8>>, head: IndexNodeView, addrs: Seq<int>)
    requires
        well_linked(blocks, head, addrs),
    ensures
        head.data_blocks.len() == 32,
{
}

/// Every node of a walk has its 32 slots, when the first has.
pub proof fn lemma_chain_slots(blocks: Seq<Seq<u8>>, head: IndexNodeView, fuel: nat)
    requires
        head.data_blocks.len() == 32,
    ensures
        forall|i: int| 0 <= i < chain(blocks, head, fuel).len() ==> (#[trigger] chain(blocks, head, fuel)[i]).data_blocks.len() == 32,
    decreases fuel,
{
    let nodes = chain(blocks, head, fuel);
    if head.next != 0 && fuel > 0 {
        let next = node_at(blocks, head.next as int);
        let tail = chain(blocks, next, (fuel - 1) as nat);
        lemma_chain_slots(blocks, next, (fuel - 1) as nat);
        assert(nodes == seq![head] + tail);
        assert forall|i: int| 0 <= i < nodes.len() implies (#[trigger] nodes[i]).data_blocks.len() == 32 by {
            if i > 0 {
                assert(nodes[i] == tail[i - 1]);
            }
        }
    } else {
        assert(nodes =~= seq![head]);
    }
}

/// The data sectors of a run of nodes are the blocks that its addresses name, in order.
pub proof fn lemma_sectors_follow(blocks: Seq<Seq<u8>>, nodes: Seq<IndexNodeView>)
    requires
        forall|i: int| 0 <= i < nodes.len() ==> (#[trigger] nodes[i]).data_blocks.len() == 32,
    ensures
        chain_sectors(blocks, nodes).len() == chain_pointers(nodes).len(),
        forall|i: int|
            0 <= i < chain_pointers(nodes).len() ==> (#[trigger] chain_sectors(blocks, nodes)[i]).1 == (SectorView {
                index: chain_pointers(nodes)[i],
                data: block_of(blocks, chain_pointers(nodes)[i] as int),
            }),
    decreases nodes.len(),
{
    if nodes.len() > 0 {
        let rest = nodes.drop_last();
        assert forall|i: int| 0 <= i < rest.len() implies (#[trigger] rest[i]).data_blocks.len() == 32 by {
            assert(rest[i] == nodes[i]);
        }
        lemma_sectors_follow(blocks, rest);
        let front = chain_sectors(blocks, rest);
        let last = crate::file::node_sectors(blocks, nodes.last());
        let held = pointers_of(nodes.last());
        assert(nodes.last().data_blocks.len() == 32);
        assert(last.len() == held.len());
        assert(chain_sectors(blocks, nodes) == front + last);
        assert(chain_pointers(nodes) == chain_pointers(rest) + held);
        assert forall|i: int| 0 <= i < chain_pointers(nodes).len() implies (#[trigger] chain_sectors(
            blocks,
            nodes,
        )[i]).1 == (SectorView {
            index: chain_pointers(nodes)[i],
            data: block_of(blocks, chain_pointers(nodes)[i] as int),
        }) by {
            if i >= front.len() {
                assert(chain_sectors(blocks, nodes)[i] == last[i - front.len()]);
                assert(chain_pointers(nodes)[i] == held[i - front.len()]);
            } else {
                assert(chain_sectors(blocks, nodes)[i] == front[i]);
                assert(chain_pointers(nodes)[i] == chain_pointers(rest)[i]);
            }
        }
    }
}

/// The blocks through which a list of `extra + 1` nodes goes that is laid out from `start`
/// on, from node number `from` on.
pub open spec fn laid_links(start: int, extra: int, from: int) -> Seq<int> {
    Seq::new((extra - from) as nat, |i: int| start + from + i)
}

/// The addresses that a list of `n` addresses holds from node number `from` on when it is
/// laid out from `start` on.
pub open spec fn laid_pointers(start: int, n: int, from: int) -> Seq<BlockIndex> {
    Seq::new((n - 32 * from) as nat, |i: int| (start + extra_nodes(n) + 32 * from + i) as u32)
}

/// A list that is laid out afresh is well linked from each of its nodes on, and holds the
/// addresses of its sectors in order.
proof fn lemma_laid_linked(image: Seq<Seq<u8>>, lead: int, start: int, n: int, j: int)
    requires
        0 <= n,
        0 <= j <= extra_nodes(n),
        image.len() <= u32::MAX,
        extra_nodes(n) > 0 ==> 1 <= start && start + extra_nodes(n) <= image.len(),
        0 <= lead <= u32::MAX,
        0 <= start,
        start + extra_nodes(n) + n <= 0x1_0000_0000,
        forall|m: int| 1 <= m <= extra_nodes(n) ==> node_at(image, start + m - 1) == #[trigger] laid_node(lead, start, n, m),
    ensures
        well_linked(image, laid_node(lead, start, n, j), laid_links(start, extra_nodes(n), j)),
        linked_pointers(image, laid_node(lead, start, n, j), laid_links(start, extra_nodes(n), j)) == laid_pointers(
            start,
            n,
            j,
        ),
    decreases extra_nodes(n) - j,
{
    let extra = extra_nodes(n);
    let node = laid_node(lead, start, n, j);
    let links = laid_links(start, extra, j);
    if j == extra {
        assert(pointers_of(node) =~= laid_pointers(start, n, j));
    } else {
        lemma_laid_linked(image, lead, start, n, j + 1);
        let next = laid_node(lead, start, n, j + 1);
        assert(node_at(image, start + (j + 1) - 1) == next);
        assert(links[0] == start + j);
        assert(links.drop_first() =~= laid_links(start, extra, j + 1));
        assert(!links.drop_first().contains(start + j));
        assert(pointers_of(node) =~= Seq::new(32, |i: int| (start + extra + 32 * j + i) as u32));
        assert(pointers_of(node) + laid_pointers(start, n, j + 1) =~= laid_pointers(start, n, j));
    }
}

/// A file that was laid out is read back: the block of its first node holds that node, a
/// walk from it goes through one node more than the file has further nodes and ends at a
/// node that names no other, the addresses it collects are those of the file's sectors, one
/// for each and in order, and the bytes behind them are the file's contents.
pub proof fn lemma_laid_out(blocks: Seq<Seq<u8>>, lead: int, start: int, contents: Seq<Seq<u8>>)
    requires
        blocks.len() <= u32::MAX,
        1 <= lead < blocks.len(),
        contents.len() > 0 ==> {
            &&& 1 <= start
            &&& start + extra_nodes(contents.len() as int) + contents.len() <= blocks.len()
            &&& !(start <= lead < start + extra_nodes(contents.len() as int) + contents.len())
        },
    ensures
        ({
            let image = laid_out(blocks, lead, start, contents);
            let n = contents.len() as int;
            let nodes = chain(image, node_at(image, lead), blocks.len());
            &&& image.len() == blocks.len()
            &&& node_at(image, lead) == laid_node(lead, start, n, 0)
            &&& nodes.len() == extra_nodes(n) + 1
            &&& nodes.last().next == 0
            &&& chain_pointers(nodes) == laid_pointers(start, n, 0)
            &&& flat(chain_sectors(image, nodes)) == Seq::new(
                (n * 512) as nat,
                |i: int| contents[i / 512][i % 512],
            )
        }),
{
    let image = laid_out(blocks, lead, start, contents);
    let n = contents.len() as int;
    let extra = extra_nodes(n);
    let head = laid_node(lead, start, n, 0);
    let spot = if n == 0 {
        0
    } else {
        start
    };
    assert(node_at(image, lead) == head) by {
        lemma_node_round_trip(head);
        assert(image[lead] == node_bytes(head));
    }
    assert forall|m: int| 1 <= m <= extra implies node_at(image, spot + m - 1) == #[trigger] laid_node(
        lead,
        spot,
        n,
        m,
    ) by {
        lemma_node_round_trip(laid_node(lead, start, n, m));
        assert(image[start + m - 1] == node_bytes(laid_node(lead, start, n, m)));
    }
    assert(laid_node(lead, spot, n, 0) == head) by {
        assert(laid_node(lead, spot, n, 0).data_blocks =~= head.data_blocks);
    }
    lemma_laid_linked(image, lead, spot, n, 0);
    let links = laid_links(spot, extra, 0);
    lemma_chain_linked(image, head, links, blocks.len());
    let nodes = chain(image, head, blocks.len());
    assert(laid_pointers(spot, n, 0) =~= laid_pointers(start, n, 0));
    lemma_chain_slots(image, head, blocks.len());
    lemma_sectors_follow(image, nodes);
    let sectors = chain_sectors(image, nodes);
    let bytes = Seq::new((n * 512) as nat, |i: int| contents[i / 512][i % 512]);
    assert(flat(sectors).len() == bytes.len());
    assert forall|i: int| 0 <= i < bytes.len() implies flat(sectors)[i] == bytes[i] by {
        let k = i / 512;
        assert(chain_pointers(nodes)[k] == (start + extra + k) as u32);
        assert(sectors[k].1.data == block_of(image, start + extra + k));
        assert(image[start + extra + k] == contents[k]);
    }
    assert(flat(sectors) =~= bytes);
}

/// A well-linked list has exactly as many nodes as its addresses need: 32 addresses to each
/// node but the last, and at least one to the last unless the list holds none at all.
pub proof fn lemma_node_count(blocks: Seq<Seq<u8>>, head: IndexNodeView, addrs: Seq<int>)
    requires
        well_linked(blocks, head, addrs),
    ensures
        linked_pointers(blocks, head, addrs).len() == 32 * addrs.len() + used(last_node(blocks, head, addrs)),
        addrs.len() > 0 ==> 1 <= used(last_node(blocks, head, addrs)),
        linked_pointers(blocks, head, addrs).len() >= 1 ==> addrs.len() + 1 == (linked_pointers(
            blocks,
            head,
            addrs,
        ).len() + 31) / 32,
    decreases addrs.len(),
{
    if addrs.len() > 0 {
        let rest = addrs.drop_first();
        lemma_node_count(blocks, node_at(blocks, addrs[0]), rest);
        if rest.len() > 0 {
            assert(rest.last() == addrs.last());
        }
    }
}

/// A node that was just created is a well-linked list of one node that holds no address.
pub proof fn lemma_fresh_linked(blocks: Seq<Seq<u8>>, index: BlockIndex)
    ensures
        well_linked(blocks, fresh_node(index), Seq::empty()),
        linked_pointers(blocks, fresh_node(index), Seq::empty()) == Seq::<BlockIndex>::empty(),
{
    assert(pointers_of(fresh_node(index)) =~= Seq::<BlockIndex>::empty());
}

/// Every block that is in use and that the list did not go through at first holds afterwards
/// what it held, and the list does not go through it afterwards either.
#[verifier::opaque]
pub open spec fn kept_apart(blocks: Seq<Seq<u8>>, changed: Seq<Seq<u8>>, addrs: Seq<int>, after: Seq<int>) -> bool {
    forall|b: int|
        #![trigger changed[b]]
        0 <= b < blocks.len() && blocks[b] != zero_block() && !addrs.contains(b) ==> changed[b] == blocks[b]
            && !after.contains(b)
}

/// What was kept apart while addresses were added stays apart when one more is added.
proof fn lemma_kept_apart_step(
    blocks: Seq<Seq<u8>>,
    before: Seq<Seq<u8>>,
    changed: Seq<Seq<u8>>,
    addrs: Seq<int>,
    mid: Seq<int>,
    after: Seq<int>,
)
    requires
        before.len() == blocks.len(),
        changed.len() == blocks.len(),
        kept_apart(blocks, before, addrs, mid),
        untouched(before, changed, mid, region_from(before, 1)),
        after == mid || after == mid.push(region_from(before, 1)),
    ensures
        kept_apart(blocks, changed, addrs, after),
{
    reveal(kept_apart);
    reveal(untouched);
    let start = region_from(before, 1);
    lemma_region_from(before, 1);
    assert forall|b: int|
        #![trigger changed[b]]
        0 <= b < blocks.len() && blocks[b] != zero_block() && !addrs.contains(b) implies changed[b] == blocks[b]
            && !after.contains(b) by {
        assert(kept_apart(blocks, before, addrs, mid));
        assert(before[b] == blocks[b]);
        assert(!mid.contains(b));
        if start < before.len() {
            assert(block_of(before, start) == zero_block());
        }
        assert(b != start);
        if after.contains(b) {
            let i = choose|i: int| 0 <= i < after.len() && after[i] == b;
            if i < mid.len() {
                assert(mid[i] == b);
                assert(mid.contains(b));
            }
        }
    }
}

/// A well-linked list whose first node is stored in a block that the list does not go
/// through is read back from that block: a walk from the stored node collects the addresses
/// of the list, over one node more than the list has links.
proof fn lemma_stored_list(blocks: Seq<Seq<u8>>, head: IndexNodeView, addrs: Seq<int>, lead: int)
    requires
        well_linked(blocks, head, addrs),
        0 <= lead < blocks.len(),
        !addrs.contains(lead),
    ensures
        ({
            let stored = put(blocks, lead, node_bytes(head));
            let nodes = chain(stored, node_at(stored, lead), blocks.len());
            &&& chain_pointers(nodes) == linked_pointers(blocks, head, addrs)
            &&& nodes.len() == addrs.len() + 1
            &&& nodes.last().next == 0
            &&& linked_pointers(blocks, head, addrs).len() >= 1 ==> nodes.len() == (linked_pointers(
                blocks,
                head,
                addrs,
            ).len() + 31) / 32
        }),
{
    let stored = put(blocks, lead, node_bytes(head));
    lemma_linked_shape(blocks, head, addrs);
    lemma_stored_node(blocks, lead, head);
    lemma_linked_after_put(blocks, lead, node_bytes(head), head, addrs);
    lemma_links_bounded(stored, head, addrs);
    lemma_chain_linked(stored, head, addrs, stored.len());
    lemma_node_count(stored, head, addrs);
}

/// Replacing the block list of a file whose first node stands alone: once the list has been
/// emptied, the addresses added and the first node stored again, a walk from the stored
/// first node collects exactly the addresses that were given, in their order, over
/// `(n + 31) / 32` nodes for `n` addresses, the last of which names no other.
pub proof fn lemma_replaced_list(blocks: Seq<Seq<u8>>, lead: BlockIndex, pointers: Seq<BlockIndex>)
    requires
        blocks.len() <= u32::MAX,
        1 <= lead < blocks.len(),
        node_at(blocks, lead as int).current == lead,
        node_at(blocks, lead as int).next == 0,
        forall|i: int| 0 <= i < pointers.len() ==> pointers[i] != 0,
    ensures
        ({
            let cleared = crate::file::clear_at(blocks, node_at(blocks, lead as int), blocks.len());
            let out = append_all(cleared.blocks, cleared.node, blocks.len(), pointers);
            let stored = put(out.blocks, lead as int, node_bytes(out.node));
            let nodes = chain(stored, node_at(stored, lead as int), blocks.len());
            out.result is Ok ==> {
                &&& chain_pointers(nodes) == pointers
                &&& nodes.last().next == 0
                &&& pointers.len() >= 1 ==> nodes.len() == (pointers.len() + 31) / 32
            }
        }),
{
    let fuel = blocks.len();
    let head = node_at(blocks, lead as int);
    let empty = crate::file::emptied(head);
    let none = Seq::<int>::empty();
    assert(crate::file::clear_at(blocks, head, fuel).node == empty);
    assert(crate::file::clear_at(blocks, head, fuel).blocks == blocks);
    assert(well_linked(blocks, empty, none));
    let out = append_all(blocks, empty, fuel, pointers);
    let after = lemma_append_all_linked(blocks, empty, none, pointers);
    if out.result is Ok {
        assert(!after.contains(lead as int)) by {
            reveal(kept_apart);
            lemma_zero_node();
            assert(blocks[lead as int] != zero_block());
            assert(!none.contains(lead as int));
            assert(out.blocks[lead as int] == blocks[lead as int]);
        }
        lemma_stored_list(out.blocks, out.node, after, lead as int);
        assert(linked_pointers(out.blocks, out.node, after) == pointers) by {
            lemma_links_bounded(out.blocks, out.node, after);
            lemma_chain_linked(out.blocks, out.node, after, fuel);
            lemma_chain_linked(blocks, empty, none, fuel);
            assert(pointers_of(empty) =~= Seq::<BlockIndex>::empty());
            assert(Seq::<BlockIndex>::empty() + pointers =~= pointers);
        }
    }
}

/// Adding addresses one after another to a well-linked list, as the drive has it: if all of
/// them could be added, the list is well linked afterwards, a walk along it with the fuel
/// that the drive's size gives visits `(n + 31) / 32` nodes for its `n` addresses, and the
/// addresses it collects are those the list held, followed by the new ones in the order in
/// which they were added. Returns the blocks the list goes through afterwards.
pub proof fn lemma_append_all_linked(
    blocks: Seq<Seq<u8>>,
    head: IndexNodeView,
    addrs: Seq<int>,
    pointers: Seq<BlockIndex>,
) -> (after: Seq<int>)
    requires
        well_linked(blocks, head, addrs),
        blocks.len() <= u32::MAX,
        forall|i: int| 0 <= i < pointers.len() ==> pointers[i] != 0,
    ensures
        ({
            let out = append_all(blocks, head, blocks.len(), pointers);
            &&& out.blocks.len() == blocks.len()
            &&& out.result is Ok ==> {
                &&& well_linked(out.blocks, out.node, after)
                &&& chain_pointers(chain(out.blocks, out.node, blocks.len())) == chain_pointers(
                    chain(blocks, head, blocks.len()),
                ) + pointers
                &&& chain(out.blocks, out.node, blocks.len()).last().next == 0
                &&& chain_pointers(chain(out.blocks, out.node, blocks.len())).len() >= 1 ==> chain(
                    out.blocks,
                    out.node,
                    blocks.len(),
                ).len() == (chain_pointers(chain(out.blocks, out.node, blocks.len())).len() + 31) / 32
                &&& kept_apart(blocks, out.blocks, addrs, after)
            }
        }),
    decreases pointers.len(),
{
    let fuel = blocks.len();
    let out = append_all(blocks, head, fuel, pointers);
    lemma_links_bounded(blocks, head, addrs);
    lemma_chain_linked(blocks, head, addrs, fuel);
    if pointers.len() == 0 {
        lemma_node_count(blocks, head, addrs);
        assert(chain_pointers(chain(blocks, head, fuel)) + pointers =~= chain_pointers(chain(blocks, head, fuel)));
        reveal(kept_apart);
        addrs
    } else {
        let before = append_all(blocks, head, fuel, pointers.drop_last());
        let mid = lemma_append_all_linked(blocks, head, addrs, pointers.drop_last());
        lemma_append_failed(before.blocks, before.node, fuel, pointers.last());
        if before.result is Ok && out.result is Ok {
            lemma_links_bounded(before.blocks, before.node, mid);
            lemma_chain_linked(before.blocks, before.node, mid, fuel);
            let after = lemma_append_linked(before.blocks, before.node, mid, fuel, pointers.last());
            lemma_links_bounded(out.blocks, out.node, after);
            lemma_chain_linked(out.blocks, out.node, after, fuel);
            lemma_node_count(out.blocks, out.node, after);
            assert(chain_pointers(chain(blocks, head, fuel)) + pointers.drop_last() + seq![pointers.last()]
                =~= chain_pointers(chain(blocks, head, fuel)) + pointers) by {
                assert(pointers.drop_last().push(pointers.last()) =~= pointers);
            }
            lemma_kept_apart_step(blocks, before.blocks, out.blocks, addrs, mid, after);
            after
        } else {
            addrs
        }
    }
}

} // verus!
