//! The two records that can stand at the start of an object.
//!
//! While an object is idle its first two words are the links of a free list.
//! While it is allocated its first word names the cache it came from, and the
//! caller's data follows that word.

use crate::class::HEADER_SIZE;
use crate::memory::{
    lemma_word_same, lemma_word_stored, same_outside, with_word, word_at, Memory, WORD_SIZE,
};
use vstd::prelude::*;

verus! {

/// The link that refers to no node. No object can start at this address.
pub const NULL: usize = usize::MAX;

/// Bytes that the links of a free-list node take.
pub const FREE_NODE_SIZE: usize = 16;

/// The structure of a free object (list node).
#[derive(Clone, Copy, Debug, PartialEq, Eq, Structural)]
pub struct FreeNode {
    /// Address of the node that follows, or `NULL`.
    pub next: usize,
    /// Address of the node before, or `NULL`.
    pub prev: usize,
}

/// The structure of a used object (allocation header).
#[derive(Clone, Copy, Debug, PartialEq, Eq, Structural)]
pub struct UsedNode {
    /// The size class of the cache that the object belongs to.
    pub cache: usize,
}

impl FreeNode {
    /// The links held by the object that starts at `node`.
    pub open spec fn at(mem: Seq<u8>, node: int) -> FreeNode {
        FreeNode { next: word_at(mem, node), prev: word_at(mem, node + WORD_SIZE) }
    }

    /// Reads the links of the object that starts at `node`.
    pub fn load(mem: &Memory, node: usize) -> (links: FreeNode)
        requires
            node + FREE_NODE_SIZE <= mem@.len(),
        ensures
            links == FreeNode::at(mem@, node as int),
    {
        proof {
            mem.lemma_len_bounded();
        }
        FreeNode { next: mem.load(node), prev: mem.load(node + WORD_SIZE) }
    }

    /// Sets the forward link of the object that starts at `node`.
    pub fn set_next(mem: &mut Memory, node: usize, next: usize)
        requires
            node + FREE_NODE_SIZE <= old(mem)@.len(),
        ensures
            final(mem)@ == with_word(old(mem)@, node as int, next),
            FreeNode::at(final(mem)@, node as int) == (FreeNode {
                next,
                prev: FreeNode::at(old(mem)@, node as int).prev,
            }),
            same_outside(old(mem)@, final(mem)@, node as int, node + WORD_SIZE),
    {
        mem.store(node, next);
        proof {
            lemma_word_stored(old(mem)@, node as int, next);
            lemma_word_same(old(mem)@, mem@, node + WORD_SIZE);
        }
    }

    /// Sets the backward link of the object that starts at `node`.
    pub fn set_prev(mem: &mut Memory, node: usize, prev: usize)
        requires
            node + FREE_NODE_SIZE <= old(mem)@.len(),
        ensures
            final(mem)@ == with_word(old(mem)@, node + WORD_SIZE, prev),
            FreeNode::at(final(mem)@, node as int) == (FreeNode {
                next: FreeNode::at(old(mem)@, node as int).next,
                prev,
            }),
            same_outside(old(mem)@, final(mem)@, node + WORD_SIZE, node + FREE_NODE_SIZE),
    {
        proof {
            mem.lemma_len_bounded();
        }
        mem.store(node + WORD_SIZE, prev);
        proof {
            lemma_word_stored(old(mem)@, node + WORD_SIZE, prev);
            lemma_word_same(old(mem)@, mem@, node as int);
        }
    }
}

impl UsedNode {
    /// The header held by the object that starts at `node`.
    pub open spec fn at(mem: Seq<u8>, node: int) -> UsedNode {
        UsedNode { cache: word_at(mem, node) }
    }

    /// The address of the header that stands before the data at `data`.
    pub fn from_data(data: usize) -> (node: usize)
        requires
            data >= HEADER_SIZE,
        ensures
            node == data - HEADER_SIZE,
    {
        data - HEADER_SIZE
    }

    /// The address of the data that follows the header at `node`.
    pub fn get_data(node: usize) -> (data: usize)
        requires
            node + HEADER_SIZE <= usize::MAX,
        ensures
            data == node + HEADER_SIZE,
    {
        node + HEADER_SIZE
    }

    /// Reads the header of the object that starts at `node`.
    pub fn load(mem: &Memory, node: usize) -> (header: UsedNode)
        requires
            node + HEADER_SIZE <= mem@.len(),
        ensures
            header == UsedNode::at(mem@, node as int),
    {
        UsedNode { cache: mem.load(node) }
    }

    /// Writes `header` at the start of the object at `node`.
    pub fn store(mem: &mut Memory, node: usize, header: UsedNode)
        requires
            node + HEADER_SIZE <= old(mem)@.len(),
        ensures
            final(mem)@ == with_word(old(mem)@, node as int, header.cache),
            UsedNode::at(final(mem)@, node as int) == header,
            same_outside(old(mem)@, final(mem)@, node as int, node + HEADER_SIZE),
    {
        mem.store(node, header.cache);
        proof {
            lemma_word_stored(old(mem)@, node as int, header.cache);
        }
    }
}

} // verus!
