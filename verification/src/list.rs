//! Free lists as they lie in memory: chains of nodes, each of which holds
//! the address of the next and of the one before.

use crate::heap::disjoint;
use crate::memory::{lemma_word_kept, same_outside_two, WORD_SIZE};
use crate::node::{FreeNode, FREE_NODE_SIZE, NULL};
use vstd::prelude::*;

verus! {

/// The first node of `list`, or `NULL` for the empty list.
pub open spec fn first_link(list: Seq<usize>) -> usize {
    if list.len() > 0 {
        list[0]
    } else {
        NULL
    }
}

/// The memory holds the nodes of `list` linked one to the next: every node's
/// forward link is the node that follows it, and that node links back to it.
pub open spec fn chained(mem: Seq<u8>, list: Seq<usize>) -> bool {
    forall|i: int, j: int|
        0 <= i && j == i + 1 && j < list.len() ==> {
            &&& FreeNode::at(mem, #[trigger] list[i] as int).next == #[trigger] list[j]
            &&& FreeNode::at(mem, list[j] as int).prev == list[i]
        }
}

/// The memory holds `list` as a chain whose last node links forward to
/// `tail`. The backward link of the first node is not constrained.
pub open spec fn linked_to(mem: Seq<u8>, list: Seq<usize>, tail: usize) -> bool {
    &&& chained(mem, list)
    &&& list.len() > 0 ==> FreeNode::at(mem, list.last() as int).next == tail
}

/// The memory holds `list` as a chain that ends after its last node.
pub open spec fn linked(mem: Seq<u8>, list: Seq<usize>) -> bool {
    linked_to(mem, list, NULL)
}

/// A chain stays a chain where the links of its nodes are left alone.
pub proof fn lemma_linked_kept(
    pre: Seq<u8>,
    post: Seq<u8>,
    list: Seq<usize>,
    tail: usize,
    lo1: int,
    hi1: int,
    lo2: int,
    hi2: int,
)
    requires
        linked_to(pre, list, tail),
        same_outside_two(pre, post, lo1, hi1, lo2, hi2),
        forall|j: int|
            0 <= j < list.len() ==> {
                &&& (#[trigger] list[j]) + FREE_NODE_SIZE <= pre.len()
                &&& disjoint(list[j] as int, FREE_NODE_SIZE as int, lo1, hi1 - lo1)
                &&& disjoint(list[j] as int, FREE_NODE_SIZE as int, lo2, hi2 - lo2)
            },
    ensures
        linked_to(post, list, tail),
{
    assert forall|j: int| 0 <= j < list.len() implies FreeNode::at(post, #[trigger] list[j] as int)
        == FreeNode::at(pre, list[j] as int) by {
        let a = list[j] as int;
        lemma_word_kept(pre, post, lo1, hi1, lo2, hi2, a);
        lemma_word_kept(pre, post, lo1, hi1, lo2, hi2, a + WORD_SIZE);
    }
    assert forall|i: int, j: int| 0 <= i && j == i + 1 && j < list.len() implies {
        &&& FreeNode::at(post, #[trigger] list[i] as int).next == #[trigger] list[j]
        &&& FreeNode::at(post, list[j] as int).prev == list[i]
    } by {
        assert(FreeNode::at(pre, list[i] as int).next == list[j]);
    }
}

/// Two chains, the first of which ends where the second begins, make one
/// chain where the second's first node links back to the first's last.
pub proof fn lemma_linked_joined(mem: Seq<u8>, front: Seq<usize>, back: Seq<usize>)
    requires
        linked_to(mem, front, first_link(back)),
        linked(mem, back),
        front.len() > 0 && back.len() > 0 ==> FreeNode::at(mem, back[0] as int).prev
            == front.last(),
    ensures
        linked(mem, front + back),
{
    let all = front + back;
    let n = front.len() as int;
    assert forall|i: int, j: int| 0 <= i && j == i + 1 && j < all.len() implies {
        &&& FreeNode::at(mem, #[trigger] all[i] as int).next == #[trigger] all[j]
        &&& FreeNode::at(mem, all[j] as int).prev == all[i]
    } by {
        if j < n {
            assert(all[i] == front[i] && all[j] == front[j]);
        } else if i < n {
            assert(all[i] == front.last() && all[j] == back[0]);
        } else {
            assert(all[i] == back[i - n] && all[j] == back[j - n]);
        }
    }
    if back.len() > 0 {
        assert(all.last() == back.last());
    } else if n > 0 {
        assert(all.last() == front.last());
    }
}

/// Nodes linked one to the next stay so where the words that hold those
/// links are left alone.
pub proof fn lemma_chained_kept(
    pre: Seq<u8>,
    post: Seq<u8>,
    list: Seq<usize>,
    lo1: int,
    hi1: int,
    lo2: int,
    hi2: int,
)
    requires
        chained(pre, list),
        same_outside_two(pre, post, lo1, hi1, lo2, hi2),
        forall|j: int|
            0 <= j < list.len() ==> (#[trigger] list[j]) + FREE_NODE_SIZE <= pre.len(),
        forall|j: int|
            0 <= j < list.len() - 1 ==> {
                &&& disjoint(#[trigger] list[j] as int, WORD_SIZE as int, lo1, hi1 - lo1)
                &&& disjoint(list[j] as int, WORD_SIZE as int, lo2, hi2 - lo2)
            },
        forall|j: int|
            1 <= j < list.len() ==> {
                &&& disjoint((#[trigger] list[j]) + WORD_SIZE, WORD_SIZE as int, lo1, hi1 - lo1)
                &&& disjoint(list[j] + WORD_SIZE, WORD_SIZE as int, lo2, hi2 - lo2)
            },
    ensures
        chained(post, list),
{
    assert forall|i: int, j: int| 0 <= i && j == i + 1 && j < list.len() implies {
        &&& FreeNode::at(post, #[trigger] list[i] as int).next == #[trigger] list[j]
        &&& FreeNode::at(post, list[j] as int).prev == list[i]
    } by {
        assert(FreeNode::at(pre, list[i] as int).next == list[j]);
        lemma_word_kept(pre, post, lo1, hi1, lo2, hi2, list[i] as int);
        lemma_word_kept(pre, post, lo1, hi1, lo2, hi2, list[j] + WORD_SIZE);
    }
}

} // verus!
