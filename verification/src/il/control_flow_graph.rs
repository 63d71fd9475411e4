//! Control-flow graphs: blocks linked by edges.

use vstd::prelude::*;
use vstd::string::StringExecFns;
use crate::error::Error;
use crate::il::block::{Block, BlockView, instructions_scalars};
use crate::il::edge::{Edge, edge_views, EdgeView, guards};
use crate::il::expression::{Expression, targets};
use crate::il::scalar::{Scalar, widths_agree};
use crate::il::serial::{
    encodes, fits, items_bytes, lemma_encodes_split, lemma_encodes_whole, lemma_item_stands,
    lemma_items_bytes_len, lemma_items_bytes_push, lemma_same_items_agree, lemma_sequence_is_unique,
    number_bytes, optional_number_bytes, put_number, put_optional_number, reads_uniquely,
    sequence_bytes, take_number, take_optional_number,
};

verus! {

/// What a `ControlFlowGraph` is: its blocks by ascending index, its edges by
/// ascending head and tail, and the indices of its entry and exit blocks,
/// where they are set.
pub struct GraphView {
    pub blocks: Seq<Block>,
    pub edges: Seq<EdgeView>,
    pub entry: Option<u64>,
    pub exit: Option<u64>,
}

/// Whether a block of `blocks` has the index `index`.
pub open spec fn holds_block(blocks: Seq<Block>, index: u64) -> bool {
    exists|i: int| 0 <= i < blocks.len() && (#[trigger] blocks[i])@.index == index
}

/// Whether the indices of `blocks` grow from each block to the next.
pub open spec fn ascending_blocks(blocks: Seq<Block>) -> bool {
    forall|i: int, j: int|
        0 <= i < j < blocks.len() ==> (#[trigger] blocks[i])@.index < (#[trigger] blocks[j])@.index
}

/// Whether each edge of `edges` comes no later than those behind it.
pub open spec fn ordered_edges(edges: Seq<EdgeView>) -> bool {
    forall|i: int, j: int|
        0 <= i < j < edges.len() ==> (#[trigger] edges[i]).precedes(#[trigger] edges[j])
}

/// The position in `blocks` of the first block with the index `index`.
#[verifier::opaque]
pub open spec fn first_position(blocks: Seq<Block>, index: u64) -> int {
    choose|i: int|
        0 <= i < blocks.len() && (#[trigger] blocks[i])@.index == index && forall|k: int|
            0 <= k < i ==> (#[trigger] blocks[k])@.index != index
}

/// The position in `blocks` of the block with the index `index`.
pub open spec fn position_of(blocks: Seq<Block>, index: u64) -> int {
    choose|i: int| 0 <= i < blocks.len() && (#[trigger] blocks[i])@.index == index
}

/// Whether `after` is `before` with `added` put in its place: behind the
/// edges that come no later than it, before the others.
pub open spec fn inserted_edge(before: Seq<EdgeView>, after: Seq<EdgeView>, added: EdgeView) -> bool {
    exists|p: int|
        {
            &&& 0 <= p <= before.len()
            &&& #[trigger] before.insert(p, added) == after
            &&& forall|k: int| 0 <= k < p ==> (#[trigger] before[k]).precedes(added)
            &&& forall|k: int| p <= k < before.len() ==> !(#[trigger] before[k]).precedes(added)
        }
}

/// Whether `after` is `before` with one more block at its end, which is
/// empty and has the index `index`.
pub open spec fn extended_blocks(before: Seq<Block>, after: Seq<Block>, index: u64) -> bool {
    &&& after.len() == before.len() + 1
    &&& after.drop_last() == before
    &&& after.last()@ == (BlockView { index: index, instructions: seq![] })
    &&& after.last().fresh_index() == 0
}

/// The index that the block of `other` with the index `index` has after a
/// graph absorbed `other`, where `base` was the fresh index of that graph:
/// the blocks of `other` get the indices from `base` on, in their order.
pub open spec fn image(other: Seq<Block>, base: int, index: u64) -> u64 {
    (base + position_of(other, index)) as u64
}

/// The image of an optional index.
pub open spec fn image_of(other: Seq<Block>, base: int, index: Option<u64>) -> Option<u64> {
    match index {
        Some(index) => Some(image(other, base, index)),
        None => None,
    }
}

/// An edge of `other` after a graph absorbed `other`: it joins the images
/// of its blocks, under its condition.
pub open spec fn rewritten(other: Seq<Block>, base: int, edge: EdgeView) -> EdgeView {
    EdgeView {
        head: image(other, base, edge.head),
        tail: image(other, base, edge.tail),
        condition: edge.condition,
    }
}

/// The edges of `other` after a graph absorbed `other`, in their order.
pub open spec fn rewritten_edges(other: GraphView, base: int) -> Seq<EdgeView> {
    other.edges.map_values(|edge: EdgeView| rewritten(other.blocks, base, edge))
}

/// Whether `after` is `before` followed by the blocks of `other`, each under
/// its new index: the indices from `base` on.
pub open spec fn absorbed_blocks(
    before: Seq<Block>,
    other: Seq<Block>,
    after: Seq<Block>,
    base: int,
) -> bool {
    &&& after.len() == before.len() + other.len()
    &&& after.take(before.len() as int) == before
    &&& forall|i: int|
        0 <= i < other.len() ==> (#[trigger] after[before.len() + i])@ == (BlockView {
            index: (base + i) as u64,
            ..other[i]@
        }) && after[before.len() + i].fresh_index() == other[i].fresh_index()
}

/// Whether `after` is `before` with `added` put in its place: before the
/// first block with a greater index.
pub open spec fn inserted_block(before: Seq<Block>, after: Seq<Block>, added: Block) -> bool {
    exists|p: int|
        {
            &&& 0 <= p <= before.len()
            &&& #[trigger] before.insert(p, added) == after
            &&& forall|k: int| 0 <= k < p ==> (#[trigger] before[k])@.index < added@.index
            &&& forall|k: int| p <= k < before.len() ==> (#[trigger] before[k])@.index > added@.index
        }
}

/// A directed graph of blocks and edges, with an optional entry and an
/// optional exit.
///
/// The graph gives each block that it makes an index of its own, greater
/// than any that it has held. Edges name their blocks by index.
#[derive(Debug, PartialEq, Eq, Hash, PartialOrd, Ord)]
pub struct ControlFlowGraph {
    blocks: Vec<Block>,
    edges: Vec<Edge>,
    /// The greatest index that a block of this graph has had.
    greatest: Option<u64>,
    entry: Option<u64>,
    exit: Option<u64>,
}

impl View for ControlFlowGraph {
    type V = GraphView;

    closed spec fn view(&self) -> GraphView {
        GraphView {
            blocks: self.blocks@,
            edges: edge_views(self.edges@),
            entry: self.entry,
            exit: self.exit,
        }
    }
}

impl ControlFlowGraph {
    /// The index that the next block made by this graph gets. It is greater
    /// than the index of every block that the graph has held.
    pub closed spec fn fresh_index(&self) -> int {
        match self.greatest {
            Some(greatest) => greatest + 1,
            None => 0,
        }
    }

    /// A graph is well formed when its blocks are well formed and stand by
    /// ascending index, every index is below `fresh_index()`, its edges are
    /// well formed, stand in their order and join blocks of the graph, and
    /// its entry and exit, where set, are blocks of the graph.
    pub open spec fn well_formed(&self) -> bool {
        &&& ascending_blocks(self@.blocks)
        &&& forall|i: int|
            0 <= i < self@.blocks.len() ==> (#[trigger] self@.blocks[i]).well_formed()
                && self@.blocks[i]@.index < self.fresh_index()
        &&& 0 <= self.fresh_index() <= u64::MAX + 1
        &&& ordered_edges(self@.edges)
        &&& forall|i: int|
            0 <= i < self@.edges.len() ==> (#[trigger] self@.edges[i]).well_formed() && holds_block(
                self@.blocks,
                self@.edges[i].head,
            ) && holds_block(self@.blocks, self@.edges[i].tail)
        &&& self@.entry matches Some(entry) ==> holds_block(self@.blocks, entry)
        &&& self@.exit matches Some(exit) ==> holds_block(self@.blocks, exit)
    }

    /// Create a graph without blocks.
    pub fn new() -> (graph: ControlFlowGraph)
        ensures
            graph@ == (GraphView { blocks: seq![], edges: seq![], entry: None, exit: None }),
            graph.fresh_index() == 0,
            graph.well_formed(),
    {
        let graph = ControlFlowGraph {
            blocks: Vec::new(),
            edges: Vec::new(),
            greatest: None,
            entry: None,
            exit: None,
        };
        assert(graph@.edges =~= Seq::<EdgeView>::empty());
        graph
    }

    /// The blocks of this graph, by ascending index.
    pub fn blocks(&self) -> (blocks: &Vec<Block>)
        ensures
            blocks@ == self@.blocks,
    {
        &self.blocks
    }

    /// The edges of this graph, by ascending head and tail.
    pub fn edges(&self) -> (edges: &Vec<Edge>)
        ensures
            edge_views(edges@) == self@.edges,
    {
        &self.edges
    }

    /// The index of the entry block, if one is set.
    pub fn entry(&self) -> (entry: Option<u64>)
        ensures
            entry == self@.entry,
    {
        self.entry
    }

    /// The index of the exit block, if one is set.
    pub fn exit(&self) -> (exit: Option<u64>)
        ensures
            exit == self@.exit,
    {
        self.exit
    }

    /// The position of the first block with the given index.
    fn position(&self, index: u64) -> (position: Option<usize>)
        ensures
            match position {
                Some(position) => {
                    &&& holds_block(self@.blocks, index)
                    &&& position == first_position(self@.blocks, index)
                    &&& position < self@.blocks.len()
                    &&& self@.blocks[position as int]@.index == index
                },
                None => !holds_block(self@.blocks, index),
            },
    {
        let mut i: usize = 0;
        while i < self.blocks.len()
            invariant
                i <= self.blocks.len(),
                forall|k: int| 0 <= k < i ==> (#[trigger] self.blocks@[k])@.index != index,
            decreases self.blocks.len() - i,
        {
            if self.blocks[i].index() == index {
                proof {
                    reveal(first_position);
                    let first = first_position(self@.blocks, index);
                    assert(self@.blocks[i as int]@.index == index);
                    if first < i {
                        assert(self@.blocks[first]@.index != index);
                    }
                    if i < first {
                        assert(self@.blocks[i as int]@.index != index);
                    }
                }
                return Some(i);
            }
            i += 1;
        }
        None
    }

    /// Whether this graph holds a block with the given index.
    pub fn has_block(&self, index: u64) -> (held: bool)
        ensures
            held == holds_block(self@.blocks, index),
    {
        self.position(index).is_some()
    }

    /// The block with the given index, if the graph holds one.
    pub fn block(&self, index: u64) -> (block: Option<&Block>)
        ensures
            match block {
                Some(block) => holds_block(self@.blocks, index) && *block
                    == self@.blocks[first_position(self@.blocks, index)],
                None => !holds_block(self@.blocks, index),
            },
    {
        match self.position(index) {
            Some(position) => Some(&self.blocks[position]),
            None => None,
        }
    }

    /// The block with the given index, in its place, if the graph holds one.
    ///
    /// What the caller writes through the place is written into the graph,
    /// and nothing else of it changes. The graph stays well formed where the
    /// block keeps its index and stays well formed.
    pub fn block_mut(&mut self, index: u64) -> (block: Option<&mut Block>)
        ensures
            holds_block(old(self)@.blocks, index) ==> ({
                &&& block matches Some(place)
                &&& *place == old(self)@.blocks[first_position(old(self)@.blocks, index)]
                &&& final(self)@ == (GraphView {
                    blocks: old(self)@.blocks.update(
                        first_position(old(self)@.blocks, index),
                        *final(place),
                    ),
                    ..old(self)@
                })
                &&& final(self).fresh_index() == old(self).fresh_index()
            }),
            !holds_block(old(self)@.blocks, index) ==> block is None && *final(self) == *old(self),
    {
        match self.position(index) {
            Some(position) => Some(&mut self.blocks[position]),
            None => None,
        }
    }

    /// Make an empty block under the fresh index, and return that index.
    pub fn new_block(&mut self) -> (index: u64)
        requires
            old(self).fresh_index() <= u64::MAX,
        ensures
            index == old(self).fresh_index(),
            extended_blocks(old(self)@.blocks, final(self)@.blocks, index),
            final(self)@.edges == old(self)@.edges,
            final(self)@.entry == old(self)@.entry,
            final(self)@.exit == old(self)@.exit,
            final(self).fresh_index() == old(self).fresh_index() + 1,
            old(self).well_formed() ==> final(self).well_formed(),
    {
        let index: u64 = match self.greatest {
            Some(greatest) => greatest + 1,
            None => 0,
        };
        self.blocks.push(Block::new(index));
        self.greatest = Some(index);
        proof {
            assert(self@.blocks.drop_last() =~= old(self)@.blocks);
            if old(self).well_formed() {
                lemma_blocks_stay_held(old(self)@.blocks, self@.blocks);
                assert forall|i: int| 0 <= i < self@.blocks.len() implies (
                #[trigger] self@.blocks[i]).well_formed() && self@.blocks[i]@.index
                    < self.fresh_index() by {
                    if i < old(self)@.blocks.len() {
                        assert(self@.blocks[i] == old(self)@.blocks[i]);
                    }
                }
                assert forall|i: int, j: int| 0 <= i < j < self@.blocks.len() implies (
                #[trigger] self@.blocks[i])@.index < (#[trigger] self@.blocks[j])@.index by {
                    assert(self@.blocks[i] == old(self)@.blocks[i]);
                    if j < old(self)@.blocks.len() {
                        assert(self@.blocks[j] == old(self)@.blocks[j]);
                    }
                }
            }
        }
        index
    }

    /// Make the block with the given index the entry. An error, and no
    /// change, where the graph holds no such block.
    pub fn set_entry(&mut self, index: u64) -> (r: Result<(), Error>)
        ensures
            holds_block(old(self)@.blocks, index) ==> r is Ok && final(self)@ == (GraphView {
                entry: Some(index),
                ..old(self)@
            }),
            !holds_block(old(self)@.blocks, index) ==> r == Err::<(), Error>(
                Error::GraphMissingTerminal,
            ) && final(self)@ == old(self)@,
            final(self).fresh_index() == old(self).fresh_index(),
            old(self).well_formed() ==> final(self).well_formed(),
    {
        if self.position(index).is_some() {
            self.entry = Some(index);
            Ok(())
        } else {
            Err(Error::GraphMissingTerminal)
        }
    }

    /// Make the block with the given index the exit. An error, and no
    /// change, where the graph holds no such block.
    pub fn set_exit(&mut self, index: u64) -> (r: Result<(), Error>)
        ensures
            holds_block(old(self)@.blocks, index) ==> r is Ok && final(self)@ == (GraphView {
                exit: Some(index),
                ..old(self)@
            }),
            !holds_block(old(self)@.blocks, index) ==> r == Err::<(), Error>(
                Error::GraphMissingTerminal,
            ) && final(self)@ == old(self)@,
            final(self).fresh_index() == old(self).fresh_index(),
            old(self).well_formed() ==> final(self).well_formed(),
    {
        if self.position(index).is_some() {
            self.exit = Some(index);
            Ok(())
        } else {
            Err(Error::GraphMissingTerminal)
        }
    }
}

impl ControlFlowGraph {
    /// What adding an edge from `head` to `tail` under `condition` leaves.
    /// Where the graph lacks one of the two blocks: an error that says so,
    /// and no change. Else, where the condition is not one bit wide: a sort
    /// error, and no change. Else the edge stands in its place among the
    /// edges, and nothing else has changed.
    pub open spec fn linked(
        before: ControlFlowGraph,
        after: ControlFlowGraph,
        r: Result<(), Error>,
        head: u64,
        tail: u64,
        condition: Option<Expression>,
    ) -> bool {
        if !holds_block(before@.blocks, head) || !holds_block(before@.blocks, tail) {
            r == Err::<(), Error>(Error::EdgeTargetMissing) && after == before
        } else if !guards(condition) {
            r == Err::<(), Error>(Error::Sort) && after == before
        } else {
            &&& r is Ok
            &&& inserted_edge(before@.edges, after@.edges, EdgeView { head, tail, condition })
            &&& after@.blocks == before@.blocks
            &&& after@.entry == before@.entry
            &&& after@.exit == before@.exit
            &&& after.fresh_index() == before.fresh_index()
        }
    }

    /// Put `edge` in its place among the edges.
    fn insert_edge(&mut self, edge: Edge)
        requires
            ordered_edges(old(self)@.edges),
        ensures
            inserted_edge(old(self)@.edges, final(self)@.edges, edge@),
            ordered_edges(final(self)@.edges),
            final(self)@.blocks == old(self)@.blocks,
            final(self)@.entry == old(self)@.entry,
            final(self)@.exit == old(self)@.exit,
            final(self).fresh_index() == old(self).fresh_index(),
    {
        let head = edge.head();
        let tail = edge.tail();
        let ghost added = edge@;
        let ghost before = self@.edges;
        let mut p: usize = 0;
        while p < self.edges.len() && self.edges[p].precedes(head, tail)
            invariant
                p <= self.edges.len(),
                self@.edges == before,
                added.head == head,
                added.tail == tail,
                forall|k: int| 0 <= k < p ==> (#[trigger] before[k]).precedes(added),
            decreases self.edges.len() - p,
        {
            p += 1;
        }
        self.edges.insert(p, edge);
        proof {
            assert(self@.edges =~= before.insert(p as int, added));
            assert forall|k: int| p <= k < before.len() implies !(#[trigger] before[k]).precedes(
                added,
            ) by {
                assert(!before[p as int].precedes(added));
                if p < k {
                    assert(before[p as int].precedes(before[k]));
                }
            }
            assert forall|i: int, j: int| 0 <= i < j < self@.edges.len() implies (
            #[trigger] self@.edges[i]).precedes(#[trigger] self@.edges[j]) by {
                if j < p {
                    assert(before[i].precedes(before[j]));
                } else if j == p {
                    assert(before[i].precedes(added));
                } else if i < p {
                    assert(before[i].precedes(before[j - 1]));
                } else if i == p {
                    assert(!before[j - 1].precedes(added));
                } else {
                    assert(before[i - 1].precedes(before[j - 1]));
                }
            }
        }
    }

    /// Add an edge from `head` to `tail` that is taken always.
    pub fn unconditional_edge(&mut self, head: u64, tail: u64) -> (r: Result<(), Error>)
        requires
            old(self).well_formed(),
        ensures
            ControlFlowGraph::linked(*old(self), *final(self), r, head, tail, None),
            final(self).well_formed(),
    {
        self.conditional_edge_option(head, tail, None)
    }

    /// Add an edge from `head` to `tail` that is taken where `condition`
    /// is 1.
    pub fn conditional_edge(&mut self, head: u64, tail: u64, condition: Expression) -> (r: Result<
        (),
        Error,
    >)
        requires
            old(self).well_formed(),
            condition.well_formed(),
        ensures
            ControlFlowGraph::linked(*old(self), *final(self), r, head, tail, Some(condition)),
            final(self).well_formed(),
    {
        self.conditional_edge_option(head, tail, Some(condition))
    }

    /// Add an edge from `head` to `tail` under an optional condition.
    fn conditional_edge_option(&mut self, head: u64, tail: u64, condition: Option<Expression>) -> (r:
        Result<(), Error>)
        requires
            old(self).well_formed(),
            condition matches Some(condition) ==> condition.well_formed(),
        ensures
            ControlFlowGraph::linked(*old(self), *final(self), r, head, tail, condition),
            final(self).well_formed(),
    {
        if self.position(head).is_none() || self.position(tail).is_none() {
            return Err(Error::EdgeTargetMissing);
        }
        match Edge::new(head, tail, condition) {
            Ok(edge) => {
                self.insert_edge(edge);
                proof {
                    lemma_inserted_edge_joins(
                        old(self)@.edges,
                        self@.edges,
                        edge@,
                        self@.blocks,
                    );
                }
                Ok(())
            },
            Err(error) => Err(error),
        }
    }

    /// The edges that leave the block with the given index, in their order.
    pub fn edges_out(&self, index: u64) -> (edges: Vec<&Edge>)
        ensures
            edge_views(targets(edges@)) == self@.edges.filter(|edge: EdgeView| edge.head == index),
    {
        let ghost leaves = |edge: EdgeView| edge.head == index;
        let mut edges: Vec<&Edge> = Vec::new();
        let mut i: usize = 0;
        proof {
            reveal(Seq::filter);
            assert(edge_views(targets(edges@)) =~= self@.edges.take(0).filter(leaves));
        }
        while i < self.edges.len()
            invariant
                i <= self.edges.len(),
                leaves == |edge: EdgeView| edge.head == index,
                edge_views(targets(edges@)) == self@.edges.take(i as int).filter(leaves),
            decreases self.edges.len() - i,
        {
            proof {
                reveal(Seq::filter);
                assert(self@.edges.take(i + 1).drop_last() =~= self@.edges.take(i as int));
            }
            if self.edges[i].head() == index {
                edges.push(&self.edges[i]);
                assert(edge_views(targets(edges@)) =~= self@.edges.take(i as int).filter(
                    leaves,
                ).push(self@.edges[i as int]));
            }
            i += 1;
        }
        assert(self@.edges.take(i as int) =~= self@.edges);
        edges
    }

    /// The edges that enter the block with the given index, in their order.
    pub fn edges_in(&self, index: u64) -> (edges: Vec<&Edge>)
        ensures
            edge_views(targets(edges@)) == self@.edges.filter(|edge: EdgeView| edge.tail == index),
    {
        let ghost enters = |edge: EdgeView| edge.tail == index;
        let mut edges: Vec<&Edge> = Vec::new();
        let mut i: usize = 0;
        proof {
            reveal(Seq::filter);
            assert(edge_views(targets(edges@)) =~= self@.edges.take(0).filter(enters));
        }
        while i < self.edges.len()
            invariant
                i <= self.edges.len(),
                enters == |edge: EdgeView| edge.tail == index,
                edge_views(targets(edges@)) == self@.edges.take(i as int).filter(enters),
            decreases self.edges.len() - i,
        {
            proof {
                reveal(Seq::filter);
                assert(self@.edges.take(i + 1).drop_last() =~= self@.edges.take(i as int));
            }
            if self.edges[i].tail() == index {
                edges.push(&self.edges[i]);
                assert(edge_views(targets(edges@)) =~= self@.edges.take(i as int).filter(
                    enters,
                ).push(self@.edges[i as int]));
            }
            i += 1;
        }
        assert(self@.edges.take(i as int) =~= self@.edges);
        edges
    }
}

impl ControlFlowGraph {
    /// Whether `after` is `before` after it absorbed `other`: it holds its
    /// own blocks and edges, the blocks of `other` under the indices from
    /// its fresh index on, and the edges of `other` between the images of
    /// their blocks.
    pub open spec fn absorbed(
        before: ControlFlowGraph,
        other: ControlFlowGraph,
        after: ControlFlowGraph,
    ) -> bool {
        &&& absorbed_blocks(before@.blocks, other@.blocks, after@.blocks, before.fresh_index())
        &&& after@.edges == before@.edges + rewritten_edges(other@, before.fresh_index())
        &&& after.fresh_index() == before.fresh_index() + other@.blocks.len()
    }

    /// What `append_with_edge` leaves.
    ///
    /// A graph without blocks absorbs `other` and takes over its entry and
    /// its exit; there is nothing to link, and the condition is dropped.
    ///
    /// Any other graph needs an exit, and `other` an entry: else the error
    /// says that a terminal is missing. A condition that is not one bit
    /// wide is a sort error. After an error nothing has changed. Else the
    /// graph has absorbed `other`, holds one more edge, from its former exit
    /// to the image of the entry of `other`, and has the image of the exit
    /// of `other` as its exit.
    pub open spec fn chained(
        before: ControlFlowGraph,
        other: ControlFlowGraph,
        after: ControlFlowGraph,
        r: Result<(), Error>,
        condition: Option<Expression>,
    ) -> bool {
        let base = before.fresh_index();
        if before@.blocks.len() == 0 {
            &&& r is Ok
            &&& ControlFlowGraph::absorbed(before, other, after)
            &&& after@.entry == image_of(other@.blocks, base, other@.entry)
            &&& after@.exit == image_of(other@.blocks, base, other@.exit)
        } else if before@.exit is None || other@.entry is None {
            r == Err::<(), Error>(Error::GraphMissingTerminal) && after == before
        } else if !guards(condition) {
            r == Err::<(), Error>(Error::Sort) && after == before
        } else {
            &&& r is Ok
            &&& absorbed_blocks(before@.blocks, other@.blocks, after@.blocks, base)
            &&& inserted_edge(
                before@.edges + rewritten_edges(other@, base),
                after@.edges,
                EdgeView {
                    head: before@.exit->0,
                    tail: image(other@.blocks, base, other@.entry->0),
                    condition: condition,
                },
            )
            &&& after.fresh_index() == base + other@.blocks.len()
            &&& after@.entry == before@.entry
            &&& after@.exit == image_of(other@.blocks, base, other@.exit)
        }
    }

    /// Add a block that was made elsewhere, under the index that it has. An
    /// error, and no change, where the graph already holds a block with
    /// that index.
    pub fn insert_block(&mut self, block: Block) -> (r: Result<(), Error>)
        requires
            old(self).well_formed(),
            block.well_formed(),
        ensures
            holds_block(old(self)@.blocks, block@.index) ==> r == Err::<(), Error>(
                Error::BlockIndexCollision,
            ) && *final(self) == *old(self),
            !holds_block(old(self)@.blocks, block@.index) ==> ({
                &&& r is Ok
                &&& inserted_block(old(self)@.blocks, final(self)@.blocks, block)
                &&& final(self)@.edges == old(self)@.edges
                &&& final(self)@.entry == old(self)@.entry
                &&& final(self)@.exit == old(self)@.exit
                &&& final(self).fresh_index() == if block@.index < old(self).fresh_index() {
                    old(self).fresh_index()
                } else {
                    block@.index + 1
                }
            }),
            final(self).well_formed(),
    {
        let index = block.index();
        if self.position(index).is_some() {
            return Err(Error::BlockIndexCollision);
        }
        let ghost before = self@.blocks;
        let mut p: usize = 0;
        while p < self.blocks.len() && self.blocks[p].index() < index
            invariant
                p <= self.blocks.len(),
                self@.blocks == before,
                forall|k: int| 0 <= k < p ==> (#[trigger] before[k])@.index < index,
            decreases self.blocks.len() - p,
        {
            p += 1;
        }
        let greater = match self.greatest {
            Some(greatest) => index > greatest,
            None => true,
        };
        if greater {
            self.greatest = Some(index);
        }
        self.blocks.insert(p, block);
        proof {
            assert(self@.blocks =~= before.insert(p as int, block));
            assert forall|k: int| p <= k < before.len() implies (#[trigger] before[k])@.index
                > index by {
                assert(before[p as int]@.index >= index);
                if p < k {
                    assert(before[p as int]@.index < before[k]@.index);
                }
            }
            assert forall|i: int, j: int| 0 <= i < j < self@.blocks.len() implies (
            #[trigger] self@.blocks[i])@.index < (#[trigger] self@.blocks[j])@.index by {
                if j < p {
                    assert(before[i]@.index < before[j]@.index);
                } else if j == p {
                    assert(before[i]@.index < index);
                } else if i < p {
                    assert(before[i]@.index < before[j - 1]@.index);
                } else if i == p {
                    assert(before[j - 1]@.index > index);
                } else {
                    assert(before[i - 1]@.index < before[j - 1]@.index);
                }
            }
            assert forall|i: int| 0 <= i < self@.blocks.len() implies (
            #[trigger] self@.blocks[i]).well_formed() && self@.blocks[i]@.index
                < self.fresh_index() by {
                if i < p {
                    assert(self@.blocks[i] == before[i]);
                } else if i > p {
                    assert(self@.blocks[i] == before[i - 1]);
                }
            }
            assert forall|held: u64| holds_block(before, held) implies holds_block(
                self@.blocks,
                held,
            ) by {
                let i = choose|i: int| 0 <= i < before.len() && (#[trigger] before[i])@.index == held;
                if i < p {
                    assert(self@.blocks[i] == before[i]);
                } else {
                    assert(self@.blocks[i + 1] == before[i]);
                }
            }
        }
        Ok(())
    }

    /// Absorb the blocks and the edges of `other`. Each block of `other`
    /// gets a fresh index, in the order of the blocks, and keeps its
    /// instructions with their indices; each edge of `other` joins the new
    /// indices of its blocks. Entry and exit stay; those of `other` are
    /// left out.
    ///
    /// The fresh indices have to fit.
    pub fn append(&mut self, other: &ControlFlowGraph)
        requires
            old(self).well_formed(),
            other.well_formed(),
            old(self).fresh_index() + other@.blocks.len() <= u64::MAX + 1,
        ensures
            ControlFlowGraph::absorbed(*old(self), *other, *final(self)),
            final(self)@.entry == old(self)@.entry,
            final(self)@.exit == old(self)@.exit,
            final(self).well_formed(),
    {
        let ghost base = self.fresh_index();
        let ghost own = self@.blocks;
        let ghost own_edges = self@.edges;
        let own_blocks = self.blocks.len();
        let mut i: usize = 0;
        assert(self@.blocks.take(own.len() as int) =~= own);
        while i < other.blocks.len()
            invariant
                i <= other.blocks.len(),
                0 <= base,
                base + other@.blocks.len() <= u64::MAX + 1,
                own_blocks == own.len(),
                absorbed_blocks(own, other@.blocks.take(i as int), self@.blocks, base),
                self.fresh_index() == base + i,
                self@.edges == own_edges,
                self@.entry == old(self)@.entry,
                self@.exit == old(self)@.exit,
            decreases other.blocks.len() - i,
        {
            let index: u64 = match self.greatest {
                Some(greatest) => greatest + 1,
                None => 0,
            };
            let ghost held = self@.blocks;
            self.blocks.push(other.blocks[i].clone_new_index(index));
            self.greatest = Some(index);
            proof {
                assert(self@.blocks.take(own.len() as int) =~= held.take(own.len() as int));
                assert forall|k: int| 0 <= k < i + 1 implies (#[trigger] self@.blocks[own.len()
                    + k])@ == (BlockView {
                    index: (base + k) as u64,
                    ..other@.blocks.take(i + 1)[k]@
                }) && self@.blocks[own.len() + k].fresh_index() == other@.blocks.take(
                    i + 1,
                )[k].fresh_index() by {
                    if k < i {
                        assert(self@.blocks[own.len() + k] == held[own.len() + k]);
                        assert(other@.blocks.take(i as int)[k] == other@.blocks.take(i + 1)[k]);
                    }
                }
            }
            i += 1;
        }
        assert(other@.blocks.take(i as int) =~= other@.blocks);
        let mut k: usize = 0;
        assert(self@.edges =~= own_edges + rewritten_edges(other@, base).take(0));
        while k < other.edges.len()
            invariant
                k <= other.edges.len(),
                other.well_formed(),
                0 <= base,
                base + other@.blocks.len() <= u64::MAX + 1,
                own_blocks == own.len(),
                absorbed_blocks(own, other@.blocks, self@.blocks, base),
                self.fresh_index() == base + other@.blocks.len(),
                self@.edges == own_edges + rewritten_edges(other@, base).take(k as int),
                self@.entry == old(self)@.entry,
                self@.exit == old(self)@.exit,
            decreases other.edges.len() - k,
        {
            let edge = &other.edges[k];
            assert(edge@ == other@.edges[k as int]);
            let head = self.image_in(other, own_blocks, Ghost(base), edge.head());
            let tail = self.image_in(other, own_blocks, Ghost(base), edge.tail());
            let ghost edges = self@.edges;
            self.edges.push(edge.rewritten(head, tail));
            proof {
                let all = rewritten_edges(other@, base);
                assert(all.take(k + 1) =~= all.take(k as int).push(all[k as int]));
                assert(self@.edges =~= edges.push(all[k as int]));
            }
            k += 1;
        }
        proof {
            assert(rewritten_edges(other@, base).take(k as int) =~= rewritten_edges(other@, base));
            lemma_absorbing_keeps_well_formed(*old(self), *other, *self);
        }
    }

    /// The index under which this graph holds the block of `other` with the
    /// index `index`, after it absorbed the blocks of `other`.
    fn image_in(
        &self,
        other: &ControlFlowGraph,
        own_blocks: usize,
        Ghost(base): Ghost<int>,
        index: u64,
    ) -> (new: u64)
        requires
            other.well_formed(),
            holds_block(other@.blocks, index),
            own_blocks + other@.blocks.len() == self@.blocks.len(),
            base + other@.blocks.len() <= u64::MAX + 1,
            0 <= base,
            forall|i: int|
                0 <= i < other@.blocks.len() ==> (#[trigger] self@.blocks[own_blocks + i])@.index
                    == base + i,
        ensures
            new == image(other@.blocks, base, index),
    {
        match other.position(index) {
            Some(position) => {
                proof {
                    lemma_position_is_unique(other@.blocks, position as int);
                }
                let held = self.blocks.len();
                assert(own_blocks + position < held);
                self.blocks[own_blocks + position].index()
            },
            None => 0,
        }
    }

    /// Absorb `other` as `append` does, and link it: add an edge from the
    /// exit to what was the entry of `other`, under `condition`, and make
    /// what was the exit of `other` the exit.
    ///
    /// A graph without blocks absorbs `other` and takes over its entry and
    /// exit; nothing is linked. Any other graph needs an exit, and `other`
    /// an entry.
    pub fn append_with_edge(&mut self, other: &ControlFlowGraph, condition: Option<Expression>) -> (r:
        Result<(), Error>)
        requires
            old(self).well_formed(),
            other.well_formed(),
            old(self).fresh_index() + other@.blocks.len() <= u64::MAX + 1,
            condition matches Some(condition) ==> condition.well_formed(),
        ensures
            ControlFlowGraph::chained(*old(self), *other, *final(self), r, condition),
            final(self).well_formed(),
    {
        let ghost base = self.fresh_index();
        let own_blocks = self.blocks.len();
        if own_blocks == 0 {
            self.append(other);
            self.entry = match other.entry {
                Some(entry) => Some(self.image_in(other, own_blocks, Ghost(base), entry)),
                None => None,
            };
            self.exit = match other.exit {
                Some(exit) => Some(self.image_in(other, own_blocks, Ghost(base), exit)),
                None => None,
            };
            proof {
                lemma_images_are_held(*old(self), *other, *self);
            }
            return Ok(());
        }
        let exit = match self.exit {
            Some(exit) => exit,
            None => {
                return Err(Error::GraphMissingTerminal);
            },
        };
        let entry = match other.entry {
            Some(entry) => entry,
            None => {
                return Err(Error::GraphMissingTerminal);
            },
        };
        let guarded = match &condition {
            Some(condition) => condition.bits() == 1,
            None => true,
        };
        if !guarded {
            return Err(Error::Sort);
        }
        self.append(other);
        let tail = self.image_in(other, own_blocks, Ghost(base), entry);
        let ghost absorbed = *self;
        match Edge::new(exit, tail, condition) {
            Ok(edge) => {
                self.insert_edge(edge);
                self.exit = match other.exit {
                    Some(exit) => Some(self.image_in(other, own_blocks, Ghost(base), exit)),
                    None => None,
                };
                proof {
                    lemma_images_are_held(*old(self), *other, absorbed);
                    lemma_blocks_stay_held(old(self)@.blocks, self@.blocks);
                    lemma_inserted_edge_joins(absorbed@.edges, self@.edges, edge@, self@.blocks);
                }
                Ok(())
            },
            Err(error) => Err(error),
        }
    }
}

/// Among blocks of ascending index, the position of the block with a given
/// index is the one position at which a block has that index.
pub proof fn lemma_position_is_unique(blocks: Seq<Block>, position: int)
    requires
        ascending_blocks(blocks),
        0 <= position < blocks.len(),
    ensures
        position_of(blocks, blocks[position]@.index) == position,
{
    let found = position_of(blocks, blocks[position]@.index);
    assert(0 <= found < blocks.len() && blocks[found]@.index == blocks[position]@.index);
    if found < position {
        assert(blocks[found]@.index < blocks[position]@.index);
    } else if position < found {
        assert(blocks[position]@.index < blocks[found]@.index);
    }
}

/// After a graph absorbed another, it holds the image of every block of the
/// other.
proof fn lemma_images_are_held(
    before: ControlFlowGraph,
    other: ControlFlowGraph,
    after: ControlFlowGraph,
)
    requires
        other.well_formed(),
        0 <= before.fresh_index(),
        before.fresh_index() + other@.blocks.len() <= u64::MAX + 1,
        absorbed_blocks(before@.blocks, other@.blocks, after@.blocks, before.fresh_index()),
    ensures
        forall|index: u64|
            holds_block(other@.blocks, index) ==> holds_block(
                after@.blocks,
                #[trigger] image(other@.blocks, before.fresh_index(), index),
            ),
{
    let base = before.fresh_index();
    assert forall|index: u64| holds_block(other@.blocks, index) implies holds_block(
        after@.blocks,
        #[trigger] image(other@.blocks, base, index),
    ) by {
        let position = position_of(other@.blocks, index);
        assert(after@.blocks[before@.blocks.len() + position]@.index == base + position);
    }
}

/// A well-formed graph that absorbed a well-formed graph is well formed.
proof fn lemma_absorbing_keeps_well_formed(
    before: ControlFlowGraph,
    other: ControlFlowGraph,
    after: ControlFlowGraph,
)
    requires
        before.well_formed(),
        other.well_formed(),
        before.fresh_index() + other@.blocks.len() <= u64::MAX + 1,
        ControlFlowGraph::absorbed(before, other, after),
        after@.entry == before@.entry,
        after@.exit == before@.exit,
    ensures
        after.well_formed(),
{
    let base = before.fresh_index();
    let own = before@.blocks.len() as int;
    let theirs = other@.blocks;
    assert forall|i: int| 0 <= i < after@.blocks.len() implies (
    #[trigger] after@.blocks[i]).well_formed() && after@.blocks[i]@.index
        < after.fresh_index() by {
        if i < own {
            assert(after@.blocks.take(own)[i] == after@.blocks[i]);
            assert(before@.blocks[i].well_formed());
        } else {
            assert(after@.blocks[own + (i - own)]@.instructions == theirs[i - own]@.instructions);
            assert(theirs[i - own].well_formed());
        }
    }
    assert forall|i: int, j: int| 0 <= i < j < after@.blocks.len() implies (
    #[trigger] after@.blocks[i])@.index < (#[trigger] after@.blocks[j])@.index by {
        if j < own {
            assert(after@.blocks.take(own)[i] == after@.blocks[i]);
            assert(after@.blocks.take(own)[j] == after@.blocks[j]);
            assert(before@.blocks[i]@.index < before@.blocks[j]@.index);
        } else if i < own {
            assert(after@.blocks.take(own)[i] == after@.blocks[i]);
            assert(before@.blocks[i]@.index < base);
            assert(after@.blocks[own + (j - own)]@.index == base + (j - own));
        } else {
            assert(after@.blocks[own + (i - own)]@.index == base + (i - own));
            assert(after@.blocks[own + (j - own)]@.index == base + (j - own));
        }
    }
    lemma_blocks_stay_held(before@.blocks, after@.blocks);
    lemma_images_are_held(before, other, after);
    let new_edges = rewritten_edges(other@, base);
    assert forall|i: int| 0 <= i < after@.edges.len() implies (
    #[trigger] after@.edges[i]).well_formed() && holds_block(after@.blocks, after@.edges[i].head)
        && holds_block(after@.blocks, after@.edges[i].tail) by {
        if i < before@.edges.len() {
            assert(after@.edges[i] == before@.edges[i]);
        } else {
            let k = i - before@.edges.len();
            assert(after@.edges[i] == new_edges[k]);
            assert(other@.edges[k].well_formed());
        }
    }
    assert forall|i: int, j: int| 0 <= i < j < after@.edges.len() implies (
    #[trigger] after@.edges[i]).precedes(#[trigger] after@.edges[j]) by {
        let first = before@.edges.len() as int;
        if j < first {
            assert(before@.edges[i].precedes(before@.edges[j]));
        } else if i < first {
            let head = before@.edges[i].head;
            assert(holds_block(before@.blocks, head));
            let at = choose|at: int|
                0 <= at < before@.blocks.len() && (#[trigger] before@.blocks[at])@.index == head;
            assert(before@.blocks[at]@.index < base);
            assert(after@.edges[j] == new_edges[j - first]);
            assert(holds_block(theirs, other@.edges[j - first].head));
        } else {
            let a = other@.edges[i - first];
            let b = other@.edges[j - first];
            assert(after@.edges[i] == new_edges[i - first]);
            assert(after@.edges[j] == new_edges[j - first]);
            assert(a.precedes(b));
            lemma_positions_ascend(theirs, a.head, b.head);
            lemma_positions_ascend(theirs, b.head, a.head);
            lemma_positions_ascend(theirs, a.tail, b.tail);
        }
    }
}

/// Among blocks of ascending index, a block with a smaller index stands
/// before one with a greater index.
pub proof fn lemma_positions_ascend(blocks: Seq<Block>, low: u64, high: u64)
    requires
        ascending_blocks(blocks),
        holds_block(blocks, low),
        holds_block(blocks, high),
    ensures
        low < high ==> position_of(blocks, low) < position_of(blocks, high),
        low == high ==> position_of(blocks, low) == position_of(blocks, high),
{
    let a = position_of(blocks, low);
    let b = position_of(blocks, high);
    assert(0 <= a < blocks.len() && blocks[a]@.index == low);
    assert(0 <= b < blocks.len() && blocks[b]@.index == high);
    if low < high {
        if b < a {
            assert(blocks[b]@.index < blocks[a]@.index);
        }
    }
}

/// In a well-formed graph no two blocks share an index, and every edge
/// leaves a block of the graph and enters a block of the graph.
pub proof fn lemma_graph_is_consistent(graph: ControlFlowGraph)
    requires
        graph.well_formed(),
    ensures
        forall|i: int, j: int|
            0 <= i < graph@.blocks.len() && 0 <= j < graph@.blocks.len() && i != j ==> (
            #[trigger] graph@.blocks[i])@.index != (#[trigger] graph@.blocks[j])@.index,
        forall|i: int|
            0 <= i < graph@.edges.len() ==> holds_block(
                graph@.blocks,
                (#[trigger] graph@.edges[i]).head,
            ) && holds_block(graph@.blocks, graph@.edges[i].tail),
{
    assert forall|i: int, j: int|
        0 <= i < graph@.blocks.len() && 0 <= j < graph@.blocks.len() && i != j implies (
    #[trigger] graph@.blocks[i])@.index != (#[trigger] graph@.blocks[j])@.index by {
        if i < j {
            assert(graph@.blocks[i]@.index < graph@.blocks[j]@.index);
        } else {
            assert(graph@.blocks[j]@.index < graph@.blocks[i]@.index);
        }
    }
}

/// Chaining a graph to a graph without blocks, under no condition, puts the
/// whole of it there: the result holds the blocks of `other` and no others,
/// under the indices from the fresh index on, the edges of `other` and no
/// others, between the images of their blocks, and has the images of the
/// entry and the exit of `other` as its entry and exit.
pub proof fn lemma_chaining_to_nothing_absorbs(
    before: ControlFlowGraph,
    other: ControlFlowGraph,
    after: ControlFlowGraph,
    r: Result<(), Error>,
)
    requires
        before.well_formed(),
        before@.blocks.len() == 0,
        ControlFlowGraph::chained(before, other, after, r, None),
    ensures
        r is Ok,
        ControlFlowGraph::absorbed(before, other, after),
        after@.blocks.len() == other@.blocks.len(),
        forall|i: int|
            0 <= i < other@.blocks.len() ==> (#[trigger] after@.blocks[i])@ == (BlockView {
                index: (before.fresh_index() + i) as u64,
                ..other@.blocks[i]@
            }),
        after@.edges == rewritten_edges(other@, before.fresh_index()),
        after@.entry == image_of(other@.blocks, before.fresh_index(), other@.entry),
        after@.exit == image_of(other@.blocks, before.fresh_index(), other@.exit),
{
    assert forall|i: int| 0 <= i < other@.blocks.len() implies (#[trigger] after@.blocks[i])@ == (
    BlockView { index: (before.fresh_index() + i) as u64, ..other@.blocks[i]@ }) by {
        assert(after@.blocks[before@.blocks.len() + i] == after@.blocks[i]);
    }
    if before@.edges.len() > 0 {
        assert(holds_block(before@.blocks, before@.edges[0].head));
    }
    assert(after@.edges =~= rewritten_edges(other@, before.fresh_index()));
}

/// Edges that were well formed and joined blocks of `blocks` still do so
/// with one more edge among them that is well formed and joins blocks of
/// `blocks`.
proof fn lemma_inserted_edge_joins(
    before: Seq<EdgeView>,
    after: Seq<EdgeView>,
    added: EdgeView,
    blocks: Seq<Block>,
)
    requires
        inserted_edge(before, after, added),
        added.well_formed(),
        holds_block(blocks, added.head),
        holds_block(blocks, added.tail),
        forall|i: int|
            0 <= i < before.len() ==> (#[trigger] before[i]).well_formed() && holds_block(
                blocks,
                before[i].head,
            ) && holds_block(blocks, before[i].tail),
    ensures
        forall|i: int|
            0 <= i < after.len() ==> (#[trigger] after[i]).well_formed() && holds_block(
                blocks,
                after[i].head,
            ) && holds_block(blocks, after[i].tail),
{
    let p = choose|p: int|
        {
            &&& 0 <= p <= before.len()
            &&& #[trigger] before.insert(p, added) == after
            &&& forall|k: int| 0 <= k < p ==> (#[trigger] before[k]).precedes(added)
            &&& forall|k: int| p <= k < before.len() ==> !(#[trigger] before[k]).precedes(added)
        };
    assert forall|i: int| 0 <= i < after.len() implies (#[trigger] after[i]).well_formed()
        && holds_block(blocks, after[i].head) && holds_block(blocks, after[i].tail) by {
        if i < p {
            assert(after[i] == before[i]);
        } else if i > p {
            assert(after[i] == before[i - 1]);
        }
    }
}

/// A block that `before` holds is held by every sequence that begins with
/// `before`.
pub proof fn lemma_blocks_stay_held(before: Seq<Block>, after: Seq<Block>)
    requires
        before.len() <= after.len(),
        after.take(before.len() as int) == before,
    ensures
        forall|index: u64| holds_block(before, index) ==> holds_block(after, index),
{
    assert forall|index: u64| holds_block(before, index) implies holds_block(after, index) by {
        let i = choose|i: int| 0 <= i < before.len() && (#[trigger] before[i])@.index == index;
        assert(after.take(before.len() as int)[i] == after[i]);
        assert(after[i]@.index == index);
    }
}

/// The serialized form of a block, as a function.
pub open spec fn block_form() -> spec_fn(Block) -> Seq<u8> {
    |block: Block| block.serialized()
}

/// The serialized form of an edge, as a function.
pub open spec fn edge_form() -> spec_fn(Edge) -> Seq<u8> {
    |edge: Edge| edge@.serialized()
}

/// Whether two sequences of blocks are equally long and hold like blocks at
/// each position.
pub open spec fn alike_blocks(read: Seq<Block>, other: Seq<Block>) -> bool {
    &&& read.len() == other.len()
    &&& forall|k: int| 0 <= k < read.len() ==> (#[trigger] read[k]).alike(other[k])
}

/// Whether two sequences of edges are equally long and hold like edges at
/// each position.
pub open spec fn alike_edges(read: Seq<Edge>, other: Seq<Edge>) -> bool {
    &&& read.len() == other.len()
    &&& forall|k: int| 0 <= k < read.len() ==> (#[trigger] read[k])@.alike(other[k]@)
}

/// Whether two sequences of edges are equally long and hold like edges at
/// each position.
pub open spec fn alike_edge_views(read: Seq<EdgeView>, other: Seq<EdgeView>) -> bool {
    &&& read.len() == other.len()
    &&& forall|k: int| 0 <= k < read.len() ==> (#[trigger] read[k]).alike(other[k])
}

/// Read the blocks whose serialized form stands at `start`, and say
/// where it ends.
fn decode_blocks(bytes: &[u8], start: usize) -> (r: Option<(Vec<Block>, usize)>)
    ensures
        r matches Some((blocks, end)) ==> encodes(
            bytes@,
            start as int,
            sequence_bytes(blocks@, block_form()),
        ) && end == start + sequence_bytes(blocks@, block_form()).len(),
        forall|other: Seq<Block>|
            encodes(bytes@, start as int, #[trigger] sequence_bytes(other, block_form()))
                ==> ({
                &&& r matches Some((blocks, end))
                &&& alike_blocks(blocks@, other)
                &&& end == start + sequence_bytes(other, block_form()).len()
            }),
{
    let form = Ghost(block_form());
    let total = bytes.len();
    proof {
        assert forall|item: Block| (#[trigger] form@(item)).len() >= 1 by {
            Block::lemma_serialized_is_not_empty(item);
        }
        assert forall|other: Seq<Block>|
            encodes(bytes@, start as int, #[trigger] sequence_bytes(other, form@)) implies encodes(
            bytes@,
            start as int,
            number_bytes(other.len() as u64),
        ) && encodes(bytes@, start + 8, items_bytes(other, form@)) && other.len() <= total by {
            crate::il::serial::lemma_number(other.len() as u64);
            lemma_encodes_split(
                bytes@,
                start as int,
                number_bytes(other.len() as u64),
                items_bytes(other, form@),
            );
            lemma_items_bytes_len(other, form@);
        }
    }
    let (count, first) = match take_number(bytes, start) {
        Some(read) => read,
        None => {
            return None;
        },
    };
    if count > total as u64 {
        return None;
    }
    let mut blocks: Vec<Block> = Vec::new();
    let mut position = first;
    let mut i: u64 = 0;
    proof {
        crate::il::serial::lemma_number(count);
        assert(bytes@.subrange(first as int, first as int) =~= Seq::<u8>::empty());
        assert(blocks@.take(0) =~= blocks@);
    }
    while i < count
        invariant
            i <= count,
            count <= total,
            total == bytes@.len(),
            form@ == block_form(),
            first == start + 8,
            forall|other: Seq<Block>|
                encodes(bytes@, start as int, #[trigger] sequence_bytes(other, form@))
                    ==> other.len() == count && encodes(
                    bytes@,
                    first as int,
                    items_bytes(other, form@),
                ),
            blocks@.len() == i,
            encodes(bytes@, first as int, items_bytes(blocks@, form@)),
            position == first + items_bytes(blocks@, form@).len(),
            forall|other: Seq<Block>|
                other.len() == count && encodes(
                    bytes@,
                    first as int,
                    #[trigger] items_bytes(other, form@),
                ) ==> position == first + items_bytes(other.take(i as int), form@).len()
                    && forall|k: int|
                    0 <= k < i ==> (#[trigger] blocks@[k]).alike(other[k]),
        decreases count - i,
    {
        proof {
            assert forall|other: Seq<Block>|
                other.len() == count && encodes(
                    bytes@,
                    first as int,
                    #[trigger] items_bytes(other, form@),
                ) implies encodes(bytes@, position as int, other[i as int].serialized())
                && items_bytes(other.take(i + 1), form@) == items_bytes(
                other.take(i as int),
                form@,
            ) + other[i as int].serialized() by {
                lemma_item_stands(bytes@, first as int, other, form@, i as int);
            }
        }
        let (block, next) = match Block::decode_at(bytes, position) {
            Some(read) => read,
            None => {
                return None;
            },
        };
        proof {
            lemma_items_bytes_push(blocks@, block, form@);
            lemma_encodes_split(
                bytes@,
                first as int,
                items_bytes(blocks@, form@),
                block.serialized(),
            );
        }
        blocks.push(block);
        position = next;
        i += 1;
    }
    proof {
        crate::il::serial::lemma_number(count);
        lemma_encodes_split(
            bytes@,
            start as int,
            number_bytes(count),
            items_bytes(blocks@, form@),
        );
        assert forall|other: Seq<Block>|
            encodes(bytes@, start as int, #[trigger] sequence_bytes(other, form@)) implies other.len()
            == count && other.take(count as int) == other by {
            crate::il::serial::lemma_number(other.len() as u64);
            assert(other.take(other.len() as int) =~= other);
        }
    }
    Some((blocks, position))
}

/// Append the serialized form of a sequence of blocks.
fn encode_blocks(blocks: &Vec<Block>, out: &mut Vec<u8>)
    ensures
        final(out)@ == old(out)@ + sequence_bytes(blocks@, block_form()),
{
    put_number(out, blocks.len() as u64);
    let mut i: usize = 0;
    assert(blocks@.take(0) =~= Seq::<Block>::empty());
    while i < blocks.len()
        invariant
            i <= blocks.len(),
            out@ == old(out)@ + number_bytes(blocks@.len() as u64) + items_bytes(
                blocks@.take(i as int),
                block_form(),
            ),
        decreases blocks.len() - i,
    {
        blocks[i].encode_into(out);
        proof {
            assert(blocks@.take(i + 1) =~= blocks@.take(i as int).push(
                blocks@[i as int],
            ));
            lemma_items_bytes_push(
                blocks@.take(i as int),
                blocks@[i as int],
                block_form(),
            );
            assert(out@ =~= old(out)@ + number_bytes(blocks@.len() as u64) + items_bytes(
                blocks@.take(i + 1),
                block_form(),
            ));
        }
        i += 1;
    }
    assert(blocks@.take(i as int) =~= blocks@);
    assert(out@ =~= old(out)@ + sequence_bytes(blocks@, block_form()));
}


/// Read the edges whose serialized form stands at `start`, and say
/// where it ends.
fn decode_edges(bytes: &[u8], start: usize) -> (r: Option<(Vec<Edge>, usize)>)
    ensures
        r matches Some((edges, end)) ==> encodes(
            bytes@,
            start as int,
            sequence_bytes(edges@, edge_form()),
        ) && end == start + sequence_bytes(edges@, edge_form()).len(),
        forall|other: Seq<Edge>|
            encodes(bytes@, start as int, #[trigger] sequence_bytes(other, edge_form()))
                ==> ({
                &&& r matches Some((edges, end))
                &&& alike_edges(edges@, other)
                &&& end == start + sequence_bytes(other, edge_form()).len()
            }),
{
    let form = Ghost(edge_form());
    let total = bytes.len();
    proof {
        assert forall|item: Edge| (#[trigger] form@(item)).len() >= 1 by {
            crate::il::edge::lemma_edge_layout(bytes@, 0, item@);
        }
        assert forall|other: Seq<Edge>|
            encodes(bytes@, start as int, #[trigger] sequence_bytes(other, form@)) implies encodes(
            bytes@,
            start as int,
            number_bytes(other.len() as u64),
        ) && encodes(bytes@, start + 8, items_bytes(other, form@)) && other.len() <= total by {
            crate::il::serial::lemma_number(other.len() as u64);
            lemma_encodes_split(
                bytes@,
                start as int,
                number_bytes(other.len() as u64),
                items_bytes(other, form@),
            );
            lemma_items_bytes_len(other, form@);
        }
    }
    let (count, first) = match take_number(bytes, start) {
        Some(read) => read,
        None => {
            return None;
        },
    };
    if count > total as u64 {
        return None;
    }
    let mut edges: Vec<Edge> = Vec::new();
    let mut position = first;
    let mut i: u64 = 0;
    proof {
        crate::il::serial::lemma_number(count);
        assert(bytes@.subrange(first as int, first as int) =~= Seq::<u8>::empty());
        assert(edges@.take(0) =~= edges@);
    }
    while i < count
        invariant
            i <= count,
            count <= total,
            total == bytes@.len(),
            form@ == edge_form(),
            first == start + 8,
            forall|other: Seq<Edge>|
                encodes(bytes@, start as int, #[trigger] sequence_bytes(other, form@))
                    ==> other.len() == count && encodes(
                    bytes@,
                    first as int,
                    items_bytes(other, form@),
                ),
            edges@.len() == i,
            encodes(bytes@, first as int, items_bytes(edges@, form@)),
            position == first + items_bytes(edges@, form@).len(),
            forall|other: Seq<Edge>|
                other.len() == count && encodes(
                    bytes@,
                    first as int,
                    #[trigger] items_bytes(other, form@),
                ) ==> position == first + items_bytes(other.take(i as int), form@).len()
                    && forall|k: int|
                    0 <= k < i ==> (#[trigger] edges@[k])@.alike(other[k]@),
        decreases count - i,
    {
        proof {
            assert forall|other: Seq<Edge>|
                other.len() == count && encodes(
                    bytes@,
                    first as int,
                    #[trigger] items_bytes(other, form@),
                ) implies encodes(bytes@, position as int, other[i as int]@.serialized())
                && items_bytes(other.take(i + 1), form@) == items_bytes(
                other.take(i as int),
                form@,
            ) + other[i as int]@.serialized() by {
                lemma_item_stands(bytes@, first as int, other, form@, i as int);
            }
        }
        let (edge, next) = match Edge::decode_at(bytes, position) {
            Some(read) => read,
            None => {
                return None;
            },
        };
        proof {
            lemma_items_bytes_push(edges@, edge, form@);
            lemma_encodes_split(
                bytes@,
                first as int,
                items_bytes(edges@, form@),
                edge@.serialized(),
            );
        }
        edges.push(edge);
        position = next;
        i += 1;
    }
    proof {
        crate::il::serial::lemma_number(count);
        lemma_encodes_split(
            bytes@,
            start as int,
            number_bytes(count),
            items_bytes(edges@, form@),
        );
        assert forall|other: Seq<Edge>|
            encodes(bytes@, start as int, #[trigger] sequence_bytes(other, form@)) implies other.len()
            == count && other.take(count as int) == other by {
            crate::il::serial::lemma_number(other.len() as u64);
            assert(other.take(other.len() as int) =~= other);
        }
    }
    Some((edges, position))
}

/// Append the serialized form of a sequence of edges.
fn encode_edges(edges: &Vec<Edge>, out: &mut Vec<u8>)
    ensures
        final(out)@ == old(out)@ + sequence_bytes(edges@, edge_form()),
{
    put_number(out, edges.len() as u64);
    let mut i: usize = 0;
    assert(edges@.take(0) =~= Seq::<Edge>::empty());
    while i < edges.len()
        invariant
            i <= edges.len(),
            out@ == old(out)@ + number_bytes(edges@.len() as u64) + items_bytes(
                edges@.take(i as int),
                edge_form(),
            ),
        decreases edges.len() - i,
    {
        edges[i].encode_into(out);
        proof {
            assert(edges@.take(i + 1) =~= edges@.take(i as int).push(
                edges@[i as int],
            ));
            lemma_items_bytes_push(
                edges@.take(i as int),
                edges@[i as int],
                edge_form(),
            );
            assert(out@ =~= old(out)@ + number_bytes(edges@.len() as u64) + items_bytes(
                edges@.take(i + 1),
                edge_form(),
            ));
        }
        i += 1;
    }
    assert(edges@.take(i as int) =~= edges@);
    assert(out@ =~= old(out)@ + sequence_bytes(edges@, edge_form()));
}


impl ControlFlowGraph {
    /// The serialized form of this graph: its blocks, its edges, the
    /// greatest index that one of its blocks has had, its entry and its
    /// exit.
    pub closed spec fn serialized(&self) -> Seq<u8> {
        sequence_bytes(self.blocks@, block_form()) + sequence_bytes(self.edges@, edge_form())
            + optional_number_bytes(self.greatest) + optional_number_bytes(self.entry)
            + optional_number_bytes(self.exit)
    }

    /// Whether this graph and `other` are the same but for where they are
    /// held: they hold like blocks and like edges in the same order, and
    /// have the same fresh index, the same entry and the same exit.
    pub open spec fn alike(&self, other: ControlFlowGraph) -> bool {
        &&& alike_blocks(self@.blocks, other@.blocks)
        &&& alike_edge_views(self@.edges, other@.edges)
        &&& self.fresh_index() == other.fresh_index()
        &&& self@.entry == other@.entry
        &&& self@.exit == other@.exit
    }

    /// Where the parts of a serialized graph stand.
    proof fn lemma_layout(bytes: Seq<u8>, start: int, graph: ControlFlowGraph)
        ensures
            encodes(bytes, start, graph.serialized()) <==> {
                &&& encodes(bytes, start, sequence_bytes(graph.blocks@, block_form()))
                &&& encodes(
                    bytes,
                    start + sequence_bytes(graph.blocks@, block_form()).len(),
                    sequence_bytes(graph.edges@, edge_form()),
                )
                &&& encodes(
                    bytes,
                    start + sequence_bytes(graph.blocks@, block_form()).len() + sequence_bytes(
                        graph.edges@,
                        edge_form(),
                    ).len(),
                    optional_number_bytes(graph.greatest),
                )
                &&& encodes(
                    bytes,
                    start + sequence_bytes(graph.blocks@, block_form()).len() + sequence_bytes(
                        graph.edges@,
                        edge_form(),
                    ).len() + optional_number_bytes(graph.greatest).len(),
                    optional_number_bytes(graph.entry),
                )
                &&& encodes(
                    bytes,
                    start + sequence_bytes(graph.blocks@, block_form()).len() + sequence_bytes(
                        graph.edges@,
                        edge_form(),
                    ).len() + optional_number_bytes(graph.greatest).len() + optional_number_bytes(
                        graph.entry,
                    ).len(),
                    optional_number_bytes(graph.exit),
                )
            },
            graph.serialized().len() == sequence_bytes(graph.blocks@, block_form()).len()
                + sequence_bytes(graph.edges@, edge_form()).len() + optional_number_bytes(
                graph.greatest,
            ).len() + optional_number_bytes(graph.entry).len() + optional_number_bytes(
                graph.exit,
            ).len(),
    {
        let blocks = sequence_bytes(graph.blocks@, block_form());
        let edges = sequence_bytes(graph.edges@, edge_form());
        let greatest = optional_number_bytes(graph.greatest);
        let entry = optional_number_bytes(graph.entry);
        let exit = optional_number_bytes(graph.exit);
        lemma_encodes_split(bytes, start, blocks + edges + greatest + entry, exit);
        lemma_encodes_split(bytes, start, blocks + edges + greatest, entry);
        lemma_encodes_split(bytes, start, blocks + edges, greatest);
        lemma_encodes_split(bytes, start, blocks, edges);
    }

    /// Append the serialized form of this graph.
    pub fn encode_into(&self, out: &mut Vec<u8>)
        ensures
            final(out)@ == old(out)@ + self.serialized(),
    {
        encode_blocks(&self.blocks, out);
        encode_edges(&self.edges, out);
        put_optional_number(out, self.greatest);
        put_optional_number(out, self.entry);
        put_optional_number(out, self.exit);
        assert(out@ =~= old(out)@ + self.serialized());
    }

    /// Read the graph whose serialized form stands at `start`, and say
    /// where it ends. `None` where no graph stands there.
    pub fn decode_at(bytes: &[u8], start: usize) -> (r: Option<(ControlFlowGraph, usize)>)
        ensures
            r matches Some((graph, end)) ==> encodes(bytes@, start as int, graph.serialized())
                && end == start + graph.serialized().len(),
            forall|graph: ControlFlowGraph|
                encodes(bytes@, start as int, #[trigger] graph.serialized()) ==> ({
                    &&& r matches Some((read, end))
                    &&& read.alike(graph)
                    &&& end == start + graph.serialized().len()
                }),
    {
        proof {
            assert forall|graph: ControlFlowGraph|
                encodes(bytes@, start as int, #[trigger] graph.serialized()) implies {
                &&& encodes(bytes@, start as int, sequence_bytes(graph.blocks@, block_form()))
                &&& encodes(
                    bytes@,
                    start + sequence_bytes(graph.blocks@, block_form()).len(),
                    sequence_bytes(graph.edges@, edge_form()),
                )
                &&& encodes(
                    bytes@,
                    start + sequence_bytes(graph.blocks@, block_form()).len() + sequence_bytes(
                        graph.edges@,
                        edge_form(),
                    ).len(),
                    optional_number_bytes(graph.greatest),
                )
                &&& encodes(
                    bytes@,
                    start + sequence_bytes(graph.blocks@, block_form()).len() + sequence_bytes(
                        graph.edges@,
                        edge_form(),
                    ).len() + optional_number_bytes(graph.greatest).len(),
                    optional_number_bytes(graph.entry),
                )
                &&& encodes(
                    bytes@,
                    start + sequence_bytes(graph.blocks@, block_form()).len() + sequence_bytes(
                        graph.edges@,
                        edge_form(),
                    ).len() + optional_number_bytes(graph.greatest).len() + optional_number_bytes(
                        graph.entry,
                    ).len(),
                    optional_number_bytes(graph.exit),
                )
                &&& graph.serialized().len() == sequence_bytes(graph.blocks@, block_form()).len()
                    + sequence_bytes(graph.edges@, edge_form()).len() + optional_number_bytes(
                    graph.greatest,
                ).len() + optional_number_bytes(graph.entry).len() + optional_number_bytes(
                    graph.exit,
                ).len()
            } by {
                ControlFlowGraph::lemma_layout(bytes@, start as int, graph);
            }
        }
        let (blocks, first) = match decode_blocks(bytes, start) {
            Some(read) => read,
            None => {
                return None;
            },
        };
        let (edges, second) = match decode_edges(bytes, first) {
            Some(read) => read,
            None => {
                return None;
            },
        };
        let (greatest, third) = match take_optional_number(bytes, second) {
            Some(read) => read,
            None => {
                return None;
            },
        };
        let (entry, fourth) = match take_optional_number(bytes, third) {
            Some(read) => read,
            None => {
                return None;
            },
        };
        let (exit, end) = match take_optional_number(bytes, fourth) {
            Some(read) => read,
            None => {
                return None;
            },
        };
        let graph = ControlFlowGraph {
            blocks: blocks,
            edges: edges,
            greatest: greatest,
            entry: entry,
            exit: exit,
        };
        proof {
            ControlFlowGraph::lemma_layout(bytes@, start as int, graph);
            assert forall|other: ControlFlowGraph|
                alike_edges(graph.edges@, other.edges@) implies alike_edge_views(
                graph@.edges,
                other@.edges,
            ) by {
                assert forall|k: int| 0 <= k < graph@.edges.len() implies (
                #[trigger] graph@.edges[k]).alike(other@.edges[k]) by {
                    assert(graph.edges@[k]@.alike(other.edges@[k]@));
                }
            }
        }
        Some((graph, end))
    }

    /// The serialized form of this graph.
    pub fn serialize(&self) -> (bytes: Vec<u8>)
        ensures
            bytes@ == self.serialized(),
    {
        let mut bytes: Vec<u8> = Vec::new();
        self.encode_into(&mut bytes);
        assert(bytes@ =~= self.serialized());
        bytes
    }

    /// The graph of which `bytes` is the serialized form; `None` where it
    /// is the serialized form of none. What `serialize` returned for a
    /// graph gives that graph back.
    pub fn deserialize(bytes: &[u8]) -> (r: Option<ControlFlowGraph>)
        ensures
            r matches Some(read) ==> bytes@ == read.serialized(),
            forall|other: ControlFlowGraph|
                bytes@ == #[trigger] other.serialized() ==> ({
                    &&& r matches Some(read)
                    &&& read.alike(other)
                }),
    {
        proof {
            assert forall|other: ControlFlowGraph|
                bytes@ == #[trigger] other.serialized() implies encodes(
                bytes@,
                0,
                other.serialized(),
            ) by {
                lemma_encodes_whole(bytes@, other.serialized());
            }
        }
        match ControlFlowGraph::decode_at(bytes, 0) {
            Some((read, end)) => {
                if end == bytes.len() {
                    proof {
                        lemma_encodes_whole(bytes@, read.serialized());
                    }
                    Some(read)
                } else {
                    None
                }
            },
            None => None,
        }
    }
}

impl ControlFlowGraph {
    /// Whether this graph is well formed.
    pub fn is_well_formed(&self) -> (r: bool)
        ensures
            r == self.well_formed(),
    {
        let mut i: usize = 0;
        while i < self.blocks.len()
            invariant
                i <= self.blocks.len(),
                forall|k: int|
                    0 <= k < i ==> (#[trigger] self@.blocks[k]).well_formed()
                        && self@.blocks[k]@.index < self.fresh_index(),
                forall|a: int, b: int|
                    0 <= a < b < i ==> (#[trigger] self@.blocks[a])@.index < (
                    #[trigger] self@.blocks[b])@.index,
            decreases self.blocks.len() - i,
        {
            let block = &self.blocks[i];
            if !block.is_well_formed() {
                return false;
            }
            let below = match self.greatest {
                Some(greatest) => block.index() <= greatest,
                None => false,
            };
            if !below {
                return false;
            }
            if i > 0 && self.blocks[i - 1].index() >= block.index() {
                assert(!(self@.blocks[i - 1]@.index < self@.blocks[i as int]@.index));
                return false;
            }
            proof {
                assert forall|a: int, b: int| 0 <= a < b < i + 1 implies (
                #[trigger] self@.blocks[a])@.index < (#[trigger] self@.blocks[b])@.index by {
                    if b == i && a < i - 1 {
                        assert(self@.blocks[a]@.index < self@.blocks[i - 1]@.index);
                    }
                }
            }
            i += 1;
        }
        let mut k: usize = 0;
        while k < self.edges.len()
            invariant
                k <= self.edges.len(),
                forall|e: int|
                    0 <= e < k ==> (#[trigger] self@.edges[e]).well_formed() && holds_block(
                        self@.blocks,
                        self@.edges[e].head,
                    ) && holds_block(self@.blocks, self@.edges[e].tail),
                forall|a: int, b: int|
                    0 <= a < b < k ==> (#[trigger] self@.edges[a]).precedes(
                        #[trigger] self@.edges[b],
                    ),
            decreases self.edges.len() - k,
        {
            let edge = &self.edges[k];
            assert(edge@ == self@.edges[k as int]);
            if !edge.is_well_formed() {
                return false;
            }
            if self.position(edge.head()).is_none() || self.position(edge.tail()).is_none() {
                return false;
            }
            if k > 0 && !self.edges[k - 1].precedes(edge.head(), edge.tail()) {
                assert(self.edges@[k - 1]@ == self@.edges[k - 1]);
                assert(!self@.edges[k - 1].precedes(self@.edges[k as int]));
                return false;
            }
            proof {
                assert forall|a: int, b: int| 0 <= a < b < k + 1 implies (
                #[trigger] self@.edges[a]).precedes(#[trigger] self@.edges[b]) by {
                    if b == k {
                        assert(self.edges@[k - 1]@ == self@.edges[k - 1]);
                        if a < k - 1 {
                            assert(self@.edges[a].precedes(self@.edges[k - 1]));
                        }
                    }
                }
            }
            k += 1;
        }
        let entry_held = match self.entry {
            Some(entry) => self.position(entry).is_some(),
            None => true,
        };
        let exit_held = match self.exit {
            Some(exit) => self.position(exit).is_some(),
            None => true,
        };
        entry_held && exit_held
    }

    /// The indices of the blocks that the edges from the block with the
    /// given index enter, in the order of the edges.
    pub fn successors(&self, index: u64) -> (indices: Vec<u64>)
        ensures
            indices@ == self@.edges.filter(|edge: EdgeView| edge.head == index).map_values(
                |edge: EdgeView| edge.tail,
            ),
    {
        let edges = self.edges_out(index);
        let ghost out = self@.edges.filter(|edge: EdgeView| edge.head == index);
        let mut indices: Vec<u64> = Vec::new();
        let mut i: usize = 0;
        while i < edges.len()
            invariant
                i <= edges.len(),
                edge_views(targets(edges@)) == out,
                indices@ == out.take(i as int).map_values(|edge: EdgeView| edge.tail),
            decreases edges.len() - i,
        {
            indices.push(edges[i].tail());
            proof {
                assert(edge_views(targets(edges@))[i as int] == edges@[i as int]@);
                assert(indices@ =~= out.take(i + 1).map_values(|edge: EdgeView| edge.tail));
            }
            i += 1;
        }
        assert(out.take(i as int) =~= out);
        indices
    }

    /// The indices of the blocks that the edges into the block with the
    /// given index leave, in the order of the edges.
    pub fn predecessors(&self, index: u64) -> (indices: Vec<u64>)
        ensures
            indices@ == self@.edges.filter(|edge: EdgeView| edge.tail == index).map_values(
                |edge: EdgeView| edge.head,
            ),
    {
        let edges = self.edges_in(index);
        let ghost into = self@.edges.filter(|edge: EdgeView| edge.tail == index);
        let mut indices: Vec<u64> = Vec::new();
        let mut i: usize = 0;
        while i < edges.len()
            invariant
                i <= edges.len(),
                edge_views(targets(edges@)) == into,
                indices@ == into.take(i as int).map_values(|edge: EdgeView| edge.head),
            decreases edges.len() - i,
        {
            indices.push(edges[i].head());
            proof {
                assert(edge_views(targets(edges@))[i as int] == edges@[i as int]@);
                assert(indices@ =~= into.take(i + 1).map_values(|edge: EdgeView| edge.head));
            }
            i += 1;
        }
        assert(into.take(i as int) =~= into);
        indices
    }
}

impl ControlFlowGraph {
    /// Whether the graph can give `count` more blocks an index each: what
    /// `append` and `append_with_edge` ask for a graph of `count` blocks,
    /// and `new_block` for a count of 1.
    pub fn has_room_for(&self, count: usize) -> (r: bool)
        ensures
            r == (self.fresh_index() + count <= u64::MAX + 1),
    {
        match self.greatest {
            Some(greatest) => count as u64 <= u64::MAX - greatest,
            None => true,
        }
    }
}

/// Whether two sequences of blocks are equally long and hold at each
/// position blocks that are the same: in index, instructions and fresh
/// index.
pub open spec fn same_blocks(copy: Seq<Block>, blocks: Seq<Block>) -> bool {
    &&& copy.len() == blocks.len()
    &&& forall|k: int|
        0 <= k < copy.len() ==> (#[trigger] copy[k])@ == blocks[k]@ && copy[k].fresh_index()
            == blocks[k].fresh_index()
}

impl ControlFlowGraph {
    /// Whether this graph is the same as `other`: it holds the same blocks
    /// and the same edges, and has the same fresh index, entry and exit.
    pub open spec fn same(&self, other: ControlFlowGraph) -> bool {
        &&& same_blocks(self@.blocks, other@.blocks)
        &&& self@.edges == other@.edges
        &&& self.fresh_index() == other.fresh_index()
        &&& self@.entry == other@.entry
        &&& self@.exit == other@.exit
    }
}

impl Clone for ControlFlowGraph {
    fn clone(&self) -> (graph: Self)
        ensures
            graph.same(*self),
            self.well_formed() ==> graph.well_formed(),
    {
        let mut blocks: Vec<Block> = Vec::new();
        let mut i: usize = 0;
        while i < self.blocks.len()
            invariant
                i <= self.blocks.len(),
                same_blocks(blocks@, self.blocks@.take(i as int)),
            decreases self.blocks.len() - i,
        {
            blocks.push(self.blocks[i].clone());
            i += 1;
        }
        assert(self.blocks@.take(i as int) =~= self.blocks@);
        let mut edges: Vec<Edge> = Vec::new();
        let mut k: usize = 0;
        while k < self.edges.len()
            invariant
                k <= self.edges.len(),
                edges@ == self.edges@.take(k as int),
            decreases self.edges.len() - k,
        {
            edges.push(self.edges[k].clone());
            assert(edges@ =~= self.edges@.take(k + 1));
            k += 1;
        }
        assert(self.edges@.take(k as int) =~= self.edges@);
        let graph = ControlFlowGraph {
            blocks: blocks,
            edges: edges,
            greatest: self.greatest,
            entry: self.entry,
            exit: self.exit,
        };
        proof {
            if self.well_formed() {
                lemma_same_graph_is_well_formed(*self, graph);
            }
        }
        graph
    }
}

/// A graph that is the same as a well-formed graph is well formed.
pub proof fn lemma_same_graph_is_well_formed(graph: ControlFlowGraph, copy: ControlFlowGraph)
    requires
        graph.well_formed(),
        copy.same(graph),
    ensures
        copy.well_formed(),
{
    assert forall|index: u64| holds_block(graph@.blocks, index) implies holds_block(
        copy@.blocks,
        index,
    ) by {
        let i = choose|i: int|
            0 <= i < graph@.blocks.len() && (#[trigger] graph@.blocks[i])@.index == index;
        assert(copy@.blocks[i]@.index == index);
    }
    assert forall|i: int| 0 <= i < copy@.blocks.len() implies (
    #[trigger] copy@.blocks[i]).well_formed() && copy@.blocks[i]@.index < copy.fresh_index() by {
        assert(graph@.blocks[i].well_formed());
    }
    assert forall|i: int, j: int| 0 <= i < j < copy@.blocks.len() implies (
    #[trigger] copy@.blocks[i])@.index < (#[trigger] copy@.blocks[j])@.index by {
        assert(graph@.blocks[i]@.index < graph@.blocks[j]@.index);
    }
}

/// The scalars that occur in a sequence of blocks, in the order of the
/// blocks.
pub open spec fn blocks_scalars(blocks: Seq<Block>) -> Seq<Scalar>
    decreases blocks.len(),
{
    if blocks.len() == 0 {
        Seq::<Scalar>::empty()
    } else {
        blocks_scalars(blocks.drop_last()) + instructions_scalars(blocks.last()@.instructions)
    }
}

/// The scalars that occur in an optional condition.
pub open spec fn condition_scalars(condition: Option<Expression>) -> Seq<Scalar> {
    match condition {
        Some(condition) => condition.scalars(),
        None => Seq::<Scalar>::empty(),
    }
}

/// The scalars that occur in the conditions of a sequence of edges, in the
/// order of the edges.
pub open spec fn edges_scalars(edges: Seq<EdgeView>) -> Seq<Scalar>
    decreases edges.len(),
{
    if edges.len() == 0 {
        Seq::<Scalar>::empty()
    } else {
        edges_scalars(edges.drop_last()) + condition_scalars(edges.last().condition)
    }
}

impl GraphView {
    /// The scalars that occur in a graph: those of its blocks, then those
    /// of the conditions of its edges.
    pub open spec fn scalars(self) -> Seq<Scalar> {
        blocks_scalars(self.blocks) + edges_scalars(self.edges)
    }

    /// Whether each block has one unconditional edge at most among the
    /// edges that leave it.
    pub open spec fn leaves_unconditionally_once(self) -> bool {
        forall|i: int, j: int|
            0 <= i < j < self.edges.len() && (#[trigger] self.edges[i]).head == (
            #[trigger] self.edges[j]).head ==> self.edges[i].condition is Some
                || self.edges[j].condition is Some
    }
}

impl ControlFlowGraph {
    /// Every scalar of this graph: those of its blocks, then those of the
    /// conditions of its edges.
    pub fn collect_scalars(&self) -> (found: Vec<&Scalar>)
        ensures
            targets(found@) == self@.scalars(),
    {
        let mut found: Vec<&Scalar> = Vec::new();
        let mut i: usize = 0;
        assert(targets(found@) =~= blocks_scalars(self@.blocks.take(0)));
        while i < self.blocks.len()
            invariant
                i <= self.blocks.len(),
                targets(found@) == blocks_scalars(self@.blocks.take(i as int)),
            decreases self.blocks.len() - i,
        {
            let mut more = self.blocks[i].collect_scalars();
            let ghost before = found@;
            found.append(&mut more);
            proof {
                assert(self@.blocks.take(i + 1).drop_last() =~= self@.blocks.take(i as int));
                assert(targets(found@) =~= targets(before) + instructions_scalars(
                    self@.blocks[i as int]@.instructions,
                ));
            }
            i += 1;
        }
        assert(self@.blocks.take(i as int) =~= self@.blocks);
        let ghost of_blocks = targets(found@);
        let mut k: usize = 0;
        assert(targets(found@) =~= of_blocks + edges_scalars(self@.edges.take(0)));
        while k < self.edges.len()
            invariant
                k <= self.edges.len(),
                targets(found@) == of_blocks + edges_scalars(self@.edges.take(k as int)),
            decreases self.edges.len() - k,
        {
            let ghost before = found@;
            match self.edges[k].condition() {
                Some(condition) => {
                    let mut more = condition.collect_scalars();
                    found.append(&mut more);
                },
                None => {},
            }
            proof {
                assert(self@.edges[k as int] == self.edges@[k as int]@);
                assert(self@.edges.take(k + 1).drop_last() =~= self@.edges.take(k as int));
                assert(targets(found@) =~= targets(before) + condition_scalars(
                    self@.edges[k as int].condition,
                ));
            }
            k += 1;
        }
        assert(self@.edges.take(k as int) =~= self@.edges);
        found
    }

    /// Whether scalars of one name have one width throughout this graph.
    pub fn widths_agree(&self) -> (r: bool)
        ensures
            r == widths_agree(self@.scalars()),
    {
        let found = self.collect_scalars();
        let mut i: usize = 0;
        while i < found.len()
            invariant
                i <= found.len(),
                targets(found@) == self@.scalars(),
                forall|a: int, b: int|
                    0 <= a < i && 0 <= b < found.len() && (#[trigger] targets(found@)[a])@.name == (
                    #[trigger] targets(found@)[b])@.name ==> targets(found@)[a]@.bits == targets(
                        found@,
                    )[b]@.bits,
            decreases found.len() - i,
        {
            let mut j: usize = 0;
            while j < found.len()
                invariant
                    i < found.len(),
                    j <= found.len(),
                    targets(found@) == self@.scalars(),
                    forall|b: int|
                        0 <= b < j && targets(found@)[i as int]@.name == (#[trigger] targets(
                            found@,
                        )[b])@.name ==> targets(found@)[i as int]@.bits == targets(
                            found@,
                        )[b]@.bits,
                decreases found.len() - j,
            {
                if found[i].same_name(found[j]) && found[i].bits() != found[j].bits() {
                    assert(self@.scalars()[i as int] == *found@[i as int]);
                    assert(self@.scalars()[j as int] == *found@[j as int]);
                    return false;
                }
                assert(targets(found@)[i as int] == *found@[i as int]);
                assert(targets(found@)[j as int] == *found@[j as int]);
                j += 1;
            }
            i += 1;
        }
        true
    }

    /// Whether each block has one unconditional edge at most among the
    /// edges that leave it.
    pub fn leaves_unconditionally_once(&self) -> (r: bool)
        ensures
            r == self@.leaves_unconditionally_once(),
    {
        let mut j: usize = 0;
        while j < self.edges.len()
            invariant
                j <= self.edges.len(),
                forall|a: int, b: int|
                    0 <= a < b < j && (#[trigger] self@.edges[a]).head == (
                    #[trigger] self@.edges[b]).head ==> self@.edges[a].condition is Some
                        || self@.edges[b].condition is Some,
            decreases self.edges.len() - j,
        {
            assert(self@.edges[j as int] == self.edges@[j as int]@);
            if self.edges[j].condition().is_none() {
                let mut i: usize = 0;
                while i < j
                    invariant
                        i <= j < self.edges.len(),
                        self@.edges[j as int].condition is None,
                        forall|a: int|
                            0 <= a < i && (#[trigger] self@.edges[a]).head == self@.edges[j as int].head
                                ==> self@.edges[a].condition is Some,
                    decreases j - i,
                {
                    assert(self@.edges[i as int] == self.edges@[i as int]@);
                    if self.edges[i].head() == self.edges[j].head() && self.edges[
                        i
                    ].condition().is_none() {
                        return false;
                    }
                    i += 1;
                }
            }
            j += 1;
        }
        true
    }
}

/// The text of a sequence of blocks: one after the other.
pub open spec fn blocks_rendered(blocks: Seq<Block>) -> Seq<char>
    decreases blocks.len(),
{
    if blocks.len() == 0 {
        Seq::<char>::empty()
    } else {
        blocks_rendered(blocks.drop_last()) + blocks.last()@.rendered()
    }
}

/// The text of a sequence of edges: each on a line of its own.
pub open spec fn edges_rendered(edges: Seq<EdgeView>) -> Seq<char>
    decreases edges.len(),
{
    if edges.len() == 0 {
        Seq::<char>::empty()
    } else {
        edges_rendered(edges.drop_last()) + edges.last().rendered() + "\n"@
    }
}

impl GraphView {
    /// The text of a graph: its blocks, then its edges.
    pub open spec fn rendered(self) -> Seq<char> {
        blocks_rendered(self.blocks) + edges_rendered(self.edges)
    }
}

impl ControlFlowGraph {
    /// Append the text of this graph.
    pub fn render_into(&self, text: &mut String)
        ensures
            final(text)@ == old(text)@ + self@.rendered(),
    {
        let mut i: usize = 0;
        assert(text@ =~= old(text)@ + blocks_rendered(self@.blocks.take(0)));
        while i < self.blocks.len()
            invariant
                i <= self.blocks.len(),
                text@ == old(text)@ + blocks_rendered(self@.blocks.take(i as int)),
            decreases self.blocks.len() - i,
        {
            self.blocks[i].render_into(text);
            proof {
                assert(self@.blocks.take(i + 1).drop_last() =~= self@.blocks.take(i as int));
                assert(text@ =~= old(text)@ + blocks_rendered(self@.blocks.take(i + 1)));
            }
            i += 1;
        }
        assert(self@.blocks.take(i as int) =~= self@.blocks);
        let ghost head = text@;
        let mut k: usize = 0;
        assert(text@ =~= head + edges_rendered(self@.edges.take(0)));
        while k < self.edges.len()
            invariant
                k <= self.edges.len(),
                text@ == head + edges_rendered(self@.edges.take(k as int)),
            decreases self.edges.len() - k,
        {
            self.edges[k].render_into(text);
            text.append("\n");
            proof {
                assert(self@.edges[k as int] == self.edges@[k as int]@);
                assert(self@.edges.take(k + 1).drop_last() =~= self@.edges.take(k as int));
                assert(text@ =~= head + edges_rendered(self@.edges.take(k + 1)));
            }
            k += 1;
        }
        assert(self@.edges.take(k as int) =~= self@.edges);
        assert(text@ =~= old(text)@ + self@.rendered());
    }

    /// The text of this graph.
    pub fn render(&self) -> (text: String)
        ensures
            text@ == self@.rendered(),
    {
        let mut text = String::new();
        self.render_into(&mut text);
        assert(text@ =~= self@.rendered());
        text
    }
}

/// At each place of a sequence of bytes that fits stands one block at most,
/// and one edge at most.
pub proof fn lemma_blocks_and_edges_read_uniquely(bytes: Seq<u8>)
    requires
        fits(bytes),
    ensures
        reads_uniquely(bytes, block_form()),
        forall|item: Block| (#[trigger] block_form()(item)).len() >= 1,
        reads_uniquely(bytes, edge_form()),
        forall|item: Edge| (#[trigger] edge_form()(item)).len() >= 1,
{
    assert forall|start: int, x: Block, y: Block|
        #![trigger encodes(bytes, start, block_form()(x)), encodes(bytes, start, block_form()(y))]
        encodes(bytes, start, block_form()(x)) && encodes(
            bytes,
            start,
            block_form()(y),
        ) implies block_form()(x) == block_form()(y) by {
        Block::lemma_is_unique(bytes, start, x, y);
    }
    assert forall|item: Block| (#[trigger] block_form()(item)).len() >= 1 by {
        Block::lemma_serialized_is_not_empty(item);
    }
    assert forall|start: int, x: Edge, y: Edge|
        #![trigger encodes(bytes, start, edge_form()(x)), encodes(bytes, start, edge_form()(y))]
        encodes(bytes, start, edge_form()(x)) && encodes(
            bytes,
            start,
            edge_form()(y),
        ) implies edge_form()(x) == edge_form()(y) by {
        crate::il::edge::lemma_edge_is_unique(bytes, start, x@, y@);
    }
    assert forall|item: Edge| (#[trigger] edge_form()(item)).len() >= 1 by {
        crate::il::edge::lemma_edge_layout(bytes, 0, item@);
    }
}

impl ControlFlowGraph {
    /// Being alike is an equivalence of graphs, and like graphs have the
    /// same serialized form.
    pub proof fn lemma_alike(a: ControlFlowGraph, b: ControlFlowGraph, c: ControlFlowGraph)
        ensures
            a.alike(a),
            a.alike(b) ==> b.alike(a),
            a.alike(b) && b.alike(c) ==> a.alike(c),
            a.alike(b) ==> a.serialized() == b.serialized(),
    {
        assert forall|k: int| 0 <= k < a@.blocks.len() implies (#[trigger] a@.blocks[k]).alike(
            a@.blocks[k],
        ) by {
            Block::lemma_alike(a@.blocks[k], a@.blocks[k], a@.blocks[k]);
        }
        assert forall|k: int| 0 <= k < a@.edges.len() implies (#[trigger] a@.edges[k]).alike(
            a@.edges[k],
        ) by {
            crate::il::edge::lemma_alike_edges(a@.edges[k], a@.edges[k], a@.edges[k]);
        }
        if a.alike(b) {
            assert forall|k: int| 0 <= k < b@.blocks.len() implies (
            #[trigger] b@.blocks[k]).alike(a@.blocks[k]) by {
                assert(a@.blocks[k].alike(b@.blocks[k]));
                Block::lemma_alike(a@.blocks[k], b@.blocks[k], b@.blocks[k]);
            }
            assert forall|k: int| 0 <= k < b@.edges.len() implies (#[trigger] b@.edges[k]).alike(
                a@.edges[k],
            ) by {
                assert(a@.edges[k].alike(b@.edges[k]));
                crate::il::edge::lemma_alike_edges(a@.edges[k], b@.edges[k], b@.edges[k]);
            }
            assert forall|k: int| 0 <= k < a.blocks@.len() implies block_form()(
                #[trigger] a.blocks@[k],
            ) == block_form()(b.blocks@[k]) by {
                assert(a@.blocks[k].alike(b@.blocks[k]));
                Block::lemma_alike(a@.blocks[k], b@.blocks[k], b@.blocks[k]);
            }
            lemma_same_items_agree(a.blocks@, b.blocks@, block_form());
            assert forall|k: int| 0 <= k < a.edges@.len() implies edge_form()(
                #[trigger] a.edges@[k],
            ) == edge_form()(b.edges@[k]) by {
                assert(a@.edges[k].alike(b@.edges[k]));
                assert(a@.edges[k] == a.edges@[k]@);
                assert(b@.edges[k] == b.edges@[k]@);
                crate::il::edge::lemma_alike_edges(a@.edges[k], b@.edges[k], b@.edges[k]);
            }
            lemma_same_items_agree(a.edges@, b.edges@, edge_form());
            if b.alike(c) {
                assert forall|k: int| 0 <= k < a@.blocks.len() implies (
                #[trigger] a@.blocks[k]).alike(c@.blocks[k]) by {
                    assert(a@.blocks[k].alike(b@.blocks[k]));
                    assert(b@.blocks[k].alike(c@.blocks[k]));
                    Block::lemma_alike(a@.blocks[k], b@.blocks[k], c@.blocks[k]);
                }
                assert forall|k: int| 0 <= k < a@.edges.len() implies (
                #[trigger] a@.edges[k]).alike(c@.edges[k]) by {
                    assert(a@.edges[k].alike(b@.edges[k]));
                    assert(b@.edges[k].alike(c@.edges[k]));
                    crate::il::edge::lemma_alike_edges(a@.edges[k], b@.edges[k], c@.edges[k]);
                }
            }
        }
    }

    /// At one place stands one graph at most: two graphs whose serialized
    /// forms stand at one place are alike.
    pub proof fn lemma_is_unique(
        bytes: Seq<u8>,
        start: int,
        a: ControlFlowGraph,
        b: ControlFlowGraph,
    )
        requires
            fits(bytes),
            encodes(bytes, start, a.serialized()),
            encodes(bytes, start, b.serialized()),
        ensures
            a.alike(b),
            a.serialized() == b.serialized(),
    {
        ControlFlowGraph::lemma_layout(bytes, start, a);
        ControlFlowGraph::lemma_layout(bytes, start, b);
        lemma_blocks_and_edges_read_uniquely(bytes);
        lemma_sequence_is_unique(bytes, start, a.blocks@, b.blocks@, block_form());
        let edges = start + sequence_bytes(a.blocks@, block_form()).len();
        lemma_sequence_is_unique(bytes, edges, a.edges@, b.edges@, edge_form());
        let greatest = edges + sequence_bytes(a.edges@, edge_form()).len();
        crate::il::serial::lemma_optional_number_is_unique(
            bytes,
            greatest,
            a.greatest,
            b.greatest,
        );
        let entry = greatest + optional_number_bytes(a.greatest).len();
        crate::il::serial::lemma_optional_number_is_unique(bytes, entry, a.entry, b.entry);
        let exit = entry + optional_number_bytes(a.entry).len();
        crate::il::serial::lemma_optional_number_is_unique(bytes, exit, a.exit, b.exit);
        assert forall|k: int| 0 <= k < a@.blocks.len() implies (#[trigger] a@.blocks[k]).alike(
            b@.blocks[k],
        ) by {
            assert(block_form()(a.blocks@[k]) == block_form()(b.blocks@[k]));
            Block::lemma_serialize_apart(a@.blocks[k], b@.blocks[k]);
        }
        assert forall|k: int| 0 <= k < a@.edges.len() implies (#[trigger] a@.edges[k]).alike(
            b@.edges[k],
        ) by {
            assert(edge_form()(a.edges@[k]) == edge_form()(b.edges@[k]));
            assert(a@.edges[k] == a.edges@[k]@);
            assert(b@.edges[k] == b.edges@[k]@);
            crate::il::edge::lemma_edges_serialize_apart(a@.edges[k], b@.edges[k]);
        }
    }

    /// Graphs have the same serialized form exactly where they are alike.
    /// The law speaks of forms whose length a number can hold.
    pub proof fn lemma_serialize_apart(a: ControlFlowGraph, b: ControlFlowGraph)
        requires
            fits(a.serialized()),
        ensures
            a.serialized() == b.serialized() <==> a.alike(b),
    {
        if a.serialized() == b.serialized() {
            lemma_encodes_whole(a.serialized(), a.serialized());
            ControlFlowGraph::lemma_is_unique(a.serialized(), 0, a, b);
        }
        ControlFlowGraph::lemma_alike(a, b, b);
    }
}

/// A well-formed graph stays well formed where one of its blocks is replaced
/// by a well-formed block with the same index: what was written through
/// the place that `block_mut` gave may change anything of the block but its
/// index.
pub proof fn lemma_changed_block_keeps_well_formed(
    before: ControlFlowGraph,
    after: ControlFlowGraph,
    position: int,
    block: Block,
)
    requires
        before.well_formed(),
        0 <= position < before@.blocks.len(),
        after@ == (GraphView { blocks: before@.blocks.update(position, block), ..before@ }),
        after.fresh_index() == before.fresh_index(),
        block@.index == before@.blocks[position]@.index,
        block.well_formed(),
    ensures
        after.well_formed(),
{
    assert forall|i: int| 0 <= i < after@.blocks.len() implies (
    #[trigger] after@.blocks[i]).well_formed() && after@.blocks[i]@.index
        < after.fresh_index() by {
        if i != position {
            assert(after@.blocks[i] == before@.blocks[i]);
        } else {
            assert(before@.blocks[position]@.index < before.fresh_index());
        }
    }
    assert forall|i: int, j: int| 0 <= i < j < after@.blocks.len() implies (
    #[trigger] after@.blocks[i])@.index < (#[trigger] after@.blocks[j])@.index by {
        assert(after@.blocks[i]@.index == before@.blocks[i]@.index);
        assert(after@.blocks[j]@.index == before@.blocks[j]@.index);
        assert(before@.blocks[i]@.index < before@.blocks[j]@.index);
    }
    assert forall|index: u64| holds_block(before@.blocks, index) implies holds_block(
        after@.blocks,
        index,
    ) by {
        let i = choose|i: int|
            0 <= i < before@.blocks.len() && (#[trigger] before@.blocks[i])@.index == index;
        assert(after@.blocks[i]@.index == index);
    }
}

/// The first position of an index that is held is a position at which it is
/// held, and it is held at no position before.
pub proof fn lemma_first_position(blocks: Seq<Block>, index: u64)
    requires
        holds_block(blocks, index),
    ensures
        0 <= first_position(blocks, index) < blocks.len(),
        blocks[first_position(blocks, index)]@.index == index,
        forall|k: int|
            0 <= k < first_position(blocks, index) ==> (#[trigger] blocks[k])@.index != index,
{
    reveal(first_position);
    let held = choose|i: int| 0 <= i < blocks.len() && (#[trigger] blocks[i])@.index == index;
    lemma_least_position(blocks, index, held);
}

/// Where an index is held at a position, it is held at a least position.
proof fn lemma_least_position(blocks: Seq<Block>, index: u64, held: int)
    requires
        0 <= held < blocks.len(),
        blocks[held]@.index == index,
    ensures
        exists|i: int|
            0 <= i < blocks.len() && (#[trigger] blocks[i])@.index == index && forall|k: int|
                0 <= k < i ==> (#[trigger] blocks[k])@.index != index,
    decreases held,
{
    if exists|k: int| 0 <= k < held && (#[trigger] blocks[k])@.index == index {
        let before = choose|k: int| 0 <= k < held && (#[trigger] blocks[k])@.index == index;
        lemma_least_position(blocks, index, before);
    }
}

} // verus!
