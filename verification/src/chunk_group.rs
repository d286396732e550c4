//! Chunk groups: ordered lists of chunks that load together, and the child
//! groups that load after them.
use crate::sequences::{
    lemma_index_of_unique, lemma_insert_no_duplicates, lemma_push_no_duplicates, position,
};
use vstd::prelude::*;

verus! {

/// What a chunk group holds.
pub struct GroupData {
    /// The chunks of the group, in load order.
    pub chunks: Seq<usize>,
    /// The groups that are loaded from this one.
    pub children: Seq<usize>,
}

/// A group after chunk `target` has been split off chunk `source`: where the
/// group holds `source` and not yet `target`, `target` stands directly before
/// `source`; any other group is unchanged.
pub open spec fn split_group(g: GroupData, source: usize, target: usize) -> GroupData {
    if g.chunks.contains(source) && !g.chunks.contains(target) {
        GroupData {
            chunks: g.chunks.insert(g.chunks.index_of(source), target),
            children: g.children,
        }
    } else {
        g
    }
}

/// Every group after chunk `target` has been split off chunk `source`.
pub open spec fn split_groups(groups: Seq<GroupData>, source: usize, target: usize) -> Seq<
    GroupData,
> {
    Seq::new(groups.len(), |g: int| split_group(groups[g], source, target))
}

/// A group names each chunk once, and only chunks and groups that exist.
pub open spec fn group_wf(g: GroupData, chunk_count: nat, group_count: nat) -> bool {
    &&& g.chunks.no_duplicates()
    &&& forall|i: int| 0 <= i < g.chunks.len() ==> #[trigger] g.chunks[i] < chunk_count
    &&& forall|i: int| 0 <= i < g.children.len() ==> #[trigger] g.children[i] < group_count
}

/// A chunk group.
pub struct ChunkGroup {
    chunks: Vec<usize>,
    children: Vec<usize>,
}

impl View for ChunkGroup {
    type V = GroupData;

    closed spec fn view(&self) -> GroupData {
        GroupData { chunks: self.chunks@, children: self.children@ }
    }
}

impl ChunkGroup {
    /// A group without chunks or children.
    pub fn new() -> (g: ChunkGroup)
        ensures
            g@.chunks == Seq::<usize>::empty(),
            g@.children == Seq::<usize>::empty(),
    {
        ChunkGroup { chunks: Vec::new(), children: Vec::new() }
    }

    /// The chunks of the group, in load order.
    pub fn chunks(&self) -> (v: &Vec<usize>)
        ensures
            v@ == self@.chunks,
    {
        &self.chunks
    }

    /// The child groups.
    pub fn children(&self) -> (v: &Vec<usize>)
        ensures
            v@ == self@.children,
    {
        &self.children
    }

    /// Whether the group holds chunk `c`.
    pub fn contains_chunk(&self, c: usize) -> (b: bool)
        ensures
            b == self@.chunks.contains(c),
    {
        position(&self.chunks, c).is_some()
    }

    /// Puts chunk `c` at the end of the group, unless the group holds it.
    pub fn push_chunk(&mut self, c: usize)
        requires
            old(self)@.chunks.no_duplicates(),
        ensures
            final(self)@.chunks.no_duplicates(),
            final(self)@.children == old(self)@.children,
            final(self)@.chunks == if old(self)@.chunks.contains(c) {
                old(self)@.chunks
            } else {
                old(self)@.chunks.push(c)
            },
    {
        if position(&self.chunks, c).is_none() {
            proof {
                lemma_push_no_duplicates(self@.chunks, c);
            }
            self.chunks.push(c);
        }
    }

    /// Adds `g` to the child groups.
    pub fn push_child(&mut self, g: usize)
        ensures
            final(self)@.chunks == old(self)@.chunks,
            final(self)@.children == old(self)@.children.push(g),
    {
        self.children.push(g);
    }

    /// Splits `target` off `source` within this group.
    pub fn split_chunk(&mut self, source: usize, target: usize)
        requires
            old(self)@.chunks.no_duplicates(),
        ensures
            final(self)@ == split_group(old(self)@, source, target),
            final(self)@.chunks.no_duplicates(),
    {
        match position(&self.chunks, source) {
            Some(at) => {
                if position(&self.chunks, target).is_none() {
                    proof {
                        lemma_index_of_unique(self@.chunks, at as int);
                        lemma_insert_no_duplicates(self@.chunks, at as int, target);
                    }
                    self.chunks.insert(at, target);
                }
            },
            None => {},
        }
    }
}

} // verus!
