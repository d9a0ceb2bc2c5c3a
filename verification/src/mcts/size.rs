//! A rough count of the memory that a tree takes.

use crate::mcts::moves::Instruction;
use crate::mcts::node::Node;
use vstd::layout::size_of;
use vstd::prelude::*;

verus! {

/// Approximate cap on tree memory. The count leaves allocator overhead out,
/// so this keeps some headroom below physical memory.
pub const MCTS_MAX_TREE_BYTES: u64 = 25_769_803_776;

/// What a branch takes besides its nodes.
pub const MCTS_BRANCH_ENTRY_OVERHEAD: u64 = 64;

/// What a node takes besides itself: its options and allocator slack.
pub const MCTS_NODE_OVERHEAD: u64 = 256;

/// The number, or the largest that can be counted to.
pub open spec fn capped(n: int) -> int {
    if n > u64::MAX {
        u64::MAX as int
    } else {
        n
    }
}

/// `Vec::capacity` of std: how many items the list has room for, at least as
/// many as it holds. How many more is left to the allocator.
#[verifier::external_body]
pub(crate) fn room_for(list: &Vec<Instruction>) -> (r: usize)
    ensures
        r >= list@.len(),
{
    list.capacity()
}

/// The bytes of a branch of `count` nodes of `node_size` bytes each, with
/// room for `slots` instructions of `slot_size` bytes each.
pub open spec fn branch_bytes(count: int, node_size: int, slots: int, slot_size: int) -> int {
    MCTS_BRANCH_ENTRY_OVERHEAD + count * (node_size + MCTS_NODE_OVERHEAD) + slots * slot_size
}

pub fn count_branch_bytes(count: u64, node_size: u64, slots: u64, slot_size: u64) -> (r: u64)
    ensures
        r == capped(
            branch_bytes(count as int, node_size as int, slots as int, slot_size as int),
        ),
{
    let each: u128 = node_size as u128 + MCTS_NODE_OVERHEAD as u128;
    if count > 0 && each > u64::MAX as u128 {
        proof {
            assert(count * each >= each) by (nonlinear_arith)
                requires
                    count >= 1,
                    each >= 0,
            ;
            assert(slots * slot_size >= 0) by (nonlinear_arith)
                requires
                    slots >= 0,
                    slot_size >= 0,
            ;
        }
        return u64::MAX;
    }
    proof {
        assert(0 <= count * each <= 0xffff_ffff_ffff_ffff * 0xffff_ffff_ffff_ffff)
            by (nonlinear_arith)
            requires
                0 <= count <= 0xffff_ffff_ffff_ffff,
                0 <= each,
                count == 0 || each <= 0xffff_ffff_ffff_ffff,
        ;
        assert(0 <= slots * slot_size <= 0xffff_ffff_ffff_ffff * 0xffff_ffff_ffff_ffff)
            by (nonlinear_arith)
            requires
                0 <= slots <= 0xffff_ffff_ffff_ffff,
                0 <= slot_size <= 0xffff_ffff_ffff_ffff,
        ;
    }
    let nodes: u128 = count as u128 * each;
    let lists: u128 = slots as u128 * slot_size as u128;
    if nodes > u64::MAX as u128 || lists > u64::MAX as u128 {
        return u64::MAX;
    }
    let total: u128 = MCTS_BRANCH_ENTRY_OVERHEAD as u128 + nodes + lists;
    if total > u64::MAX as u128 {
        u64::MAX
    } else {
        total as u64
    }
}

/// How many instructions the first `n` nodes hold.
pub open spec fn instruction_count(nodes: Seq<Node>, n: int) -> int
    decreases n,
{
    if n <= 0 {
        0
    } else {
        instruction_count(nodes, n - 1) + nodes[n - 1].instructions.instruction_list@.len()
    }
}

/// The bytes of a branch of `count` nodes whose lists have room for `slots`
/// instructions, as far as they can be counted.
pub open spec fn branch_size(count: int, slots: int) -> int {
    capped(
        branch_bytes(
            count,
            size_of::<Node>() as int,
            slots,
            size_of::<Instruction>() as int,
        ),
    )
}

/// The bytes that a branch takes at least: those of the instructions that
/// it holds, whatever room its lists have beyond.
pub open spec fn least_branch_bytes(nodes: Seq<Node>) -> int {
    branch_size(
        nodes.len() as int,
        capped(instruction_count(nodes, nodes.len() as int)),
    )
}

/// Whether a branch can count for so many bytes: its lists have room for what
/// they hold, or for more.
pub open spec fn takes_bytes(nodes: Seq<Node>, bytes: int) -> bool {
    exists|slots: int|
        capped(instruction_count(nodes, nodes.len() as int)) <= slots && bytes
            == #[trigger] branch_size(nodes.len() as int, slots)
}

/// Whether a new branch can have brought a count of bytes from `before` to
/// `after`.
pub open spec fn adds_branch(before: u64, after: u64, nodes: Seq<Node>) -> bool {
    exists|bytes: int| #[trigger] takes_bytes(nodes, bytes) && after == capped(before + bytes)
}

/// A new branch adds at least the bytes of what it holds.
pub proof fn lemma_branch_adds_its_bytes(before: u64, after: u64, nodes: Seq<Node>)
    requires
        adds_branch(before, after, nodes),
    ensures
        after >= capped(before + least_branch_bytes(nodes)),
        after >= before,
{
    let bytes = choose|bytes: int| #[trigger]
        takes_bytes(nodes, bytes) && after == capped(before + bytes);
    let least = capped(instruction_count(nodes, nodes.len() as int));
    let slots = choose|slots: int|
        least <= slots && bytes == #[trigger] branch_size(nodes.len() as int, slots);
    let s = size_of::<Instruction>() as int;
    let n = nodes.len() as int;
    let each = size_of::<Node>() as int + MCTS_NODE_OVERHEAD;
    lemma_instruction_count(nodes, n);
    assert(0 <= least * s <= slots * s) by (nonlinear_arith)
        requires
            0 <= least <= slots,
            0 <= s,
    ;
    assert(0 <= n * each) by (nonlinear_arith)
        requires
            0 <= n,
            0 <= each,
    ;
}

proof fn lemma_instruction_count(nodes: Seq<Node>, n: int)
    ensures
        instruction_count(nodes, n) >= 0,
    decreases n,
{
    if n > 0 {
        lemma_instruction_count(nodes, n - 1);
    }
}

/// Branches with the same instructions count the same.
pub proof fn lemma_same_bytes(a: Seq<Node>, b: Seq<Node>, before: u64, after: u64)
    requires
        a.len() == b.len(),
        forall|j: int|
            0 <= j < a.len() ==> (#[trigger] a[j]).instructions == b[j].instructions,
        adds_branch(before, after, a),
    ensures
        adds_branch(before, after, b),
{
    lemma_same_instruction_count(a, b, a.len() as int);
    let bytes = choose|bytes: int| #[trigger]
        takes_bytes(a, bytes) && after == capped(before + bytes);
    assert(takes_bytes(b, bytes));
}

proof fn lemma_same_instruction_count(a: Seq<Node>, b: Seq<Node>, n: int)
    requires
        n <= a.len(),
        a.len() == b.len(),
        forall|j: int|
            0 <= j < a.len() ==> (#[trigger] a[j]).instructions == b[j].instructions,
    ensures
        instruction_count(a, n) == instruction_count(b, n),
    decreases n,
{
    if n > 0 {
        lemma_same_instruction_count(a, b, n - 1);
        assert(a[n - 1].instructions == b[n - 1].instructions);
    }
}

/// About how many bytes a branch takes. Lists count with the room that they
/// were given, so only what they hold is certain.
pub fn approx_branch_bytes(nodes: &Vec<Node>) -> (r: u64)
    ensures
        takes_bytes(nodes@, r as int),
        r >= least_branch_bytes(nodes@),
{
    let mut slots: u64 = 0;
    let mut i: usize = 0;
    while i < nodes.len()
        invariant
            i <= nodes.len(),
            slots >= capped(instruction_count(nodes@, i as int)),
        decreases nodes.len() - i,
    {
        slots = slots.saturating_add(room_for(&nodes[i].instructions.instruction_list) as u64);
        i = i + 1;
    }
    let node_size: usize = core::mem::size_of::<Node>();
    let slot_size: usize = core::mem::size_of::<Instruction>();
    let ghost least = capped(instruction_count(nodes@, nodes@.len() as int));
    proof {
        let s = slot_size as int;
        assert(least * s <= slots * s) by (nonlinear_arith)
            requires
                least <= slots,
                0 <= s,
        ;
    }
    assert(branch_size(nodes@.len() as int, slots as int) == capped(
        branch_bytes(
            nodes@.len() as int,
            node_size as int,
            slots as int,
            slot_size as int,
        ),
    ));
    count_branch_bytes(nodes.len() as u64, node_size as u64, slots, slot_size as u64)
}

} // verus!
