use falcon::error::Error;
use falcon::il::{expr_const, expr_scalar, Block, ControlFlowGraph, Edge};

fn block_indices(graph: &ControlFlowGraph) -> Vec<u64> {
    graph.blocks().iter().map(|b| b.index()).collect()
}

fn edge_ends(graph: &ControlFlowGraph) -> Vec<(u64, u64)> {
    graph.edges().iter().map(|e| (e.head(), e.tail())).collect()
}

/// Two blocks, the first the entry, the second the exit, and an edge
/// between them.
fn two_blocks() -> ControlFlowGraph {
    let mut graph = ControlFlowGraph::new();
    let first = graph.new_block();
    let second = graph.new_block();
    graph.block_mut(first).unwrap().raise(expr_const(first, 8));
    graph.block_mut(second).unwrap().raise(expr_const(second, 8));
    graph.unconditional_edge(first, second).unwrap();
    graph.set_entry(first).unwrap();
    graph.set_exit(second).unwrap();
    graph
}

#[test]
fn a_new_graph_is_empty() {
    let graph = ControlFlowGraph::new();
    assert!(graph.blocks().is_empty());
    assert!(graph.edges().is_empty());
    assert_eq!(graph.entry(), None);
    assert_eq!(graph.exit(), None);
    assert!(!graph.has_block(0));
    assert!(graph.block(0).is_none());
}

#[test]
fn a_graph_gives_its_blocks_ascending_indices() {
    let mut graph = ControlFlowGraph::new();
    assert_eq!(graph.new_block(), 0);
    assert_eq!(graph.new_block(), 1);
    assert_eq!(graph.new_block(), 2);
    assert_eq!(block_indices(&graph), vec![0, 1, 2]);
    assert!(graph.has_block(2));
    assert!(!graph.has_block(3));
    assert_eq!(graph.block(1).unwrap().index(), 1);
    assert!(graph.block(1).unwrap().is_empty());
}

#[test]
fn an_edge_needs_both_its_blocks() {
    let mut graph = ControlFlowGraph::new();
    graph.new_block();
    assert_eq!(graph.unconditional_edge(0, 1), Err(Error::EdgeTargetMissing));
    assert_eq!(graph.unconditional_edge(1, 0), Err(Error::EdgeTargetMissing));
    assert_eq!(
        graph.conditional_edge(0, 7, expr_const(1, 1)),
        Err(Error::EdgeTargetMissing)
    );
    // A missing block is reported before a condition of the wrong width.
    assert_eq!(
        graph.conditional_edge(0, 7, expr_const(1, 8)),
        Err(Error::EdgeTargetMissing)
    );
    assert!(graph.edges().is_empty());
    assert_eq!(graph.unconditional_edge(0, 0), Ok(()));
    assert_eq!(edge_ends(&graph), vec![(0, 0)]);
}

#[test]
fn a_condition_is_one_bit_wide() {
    let mut graph = ControlFlowGraph::new();
    graph.new_block();
    graph.new_block();
    assert_eq!(graph.conditional_edge(0, 1, expr_scalar("c", 8)), Err(Error::Sort));
    assert!(graph.edges().is_empty());
    assert_eq!(graph.conditional_edge(0, 1, expr_scalar("c", 1)), Ok(()));
    assert_eq!(graph.edges()[0].condition(), &Some(expr_scalar("c", 1)));
    assert_eq!(Edge::new(0, 1, Some(expr_scalar("c", 2))), Err(Error::Sort));
    let edge = Edge::new(3, 4, None).unwrap();
    assert_eq!((edge.head(), edge.tail(), edge.condition()), (3, 4, &None));
}

#[test]
fn edges_stand_by_head_and_tail() {
    let mut graph = ControlFlowGraph::new();
    for _ in 0..3 {
        graph.new_block();
    }
    graph.unconditional_edge(2, 0).unwrap();
    graph.unconditional_edge(0, 2).unwrap();
    graph.unconditional_edge(1, 1).unwrap();
    graph.unconditional_edge(0, 1).unwrap();
    graph.unconditional_edge(2, 2).unwrap();
    graph.unconditional_edge(1, 0).unwrap();
    assert_eq!(edge_ends(&graph), vec![(0, 1), (0, 2), (1, 0), (1, 1), (2, 0), (2, 2)]);
}

#[test]
fn equal_edges_stand_in_the_order_of_their_arrival() {
    let mut graph = ControlFlowGraph::new();
    graph.new_block();
    graph.new_block();
    graph.conditional_edge(0, 1, expr_scalar("first", 1)).unwrap();
    graph.conditional_edge(0, 1, expr_scalar("second", 1)).unwrap();
    graph.unconditional_edge(0, 0).unwrap();
    assert_eq!(edge_ends(&graph), vec![(0, 0), (0, 1), (0, 1)]);
    assert_eq!(graph.edges()[1].condition(), &Some(expr_scalar("first", 1)));
    assert_eq!(graph.edges()[2].condition(), &Some(expr_scalar("second", 1)));
}

#[test]
fn edges_are_found_by_their_blocks() {
    let mut graph = ControlFlowGraph::new();
    for _ in 0..3 {
        graph.new_block();
    }
    graph.unconditional_edge(0, 1).unwrap();
    graph.unconditional_edge(0, 2).unwrap();
    graph.unconditional_edge(1, 2).unwrap();
    let ends = |edges: Vec<&Edge>| -> Vec<(u64, u64)> {
        edges.iter().map(|e| (e.head(), e.tail())).collect()
    };
    assert_eq!(ends(graph.edges_out(0)), vec![(0, 1), (0, 2)]);
    assert_eq!(ends(graph.edges_out(1)), vec![(1, 2)]);
    assert_eq!(ends(graph.edges_out(2)), vec![]);
    assert_eq!(ends(graph.edges_in(0)), vec![]);
    assert_eq!(ends(graph.edges_in(1)), vec![(0, 1)]);
    assert_eq!(ends(graph.edges_in(2)), vec![(0, 2), (1, 2)]);
    assert_eq!(ends(graph.edges_out(9)), vec![]);
}

#[test]
fn entry_and_exit_are_blocks_of_the_graph() {
    let mut graph = ControlFlowGraph::new();
    graph.new_block();
    assert_eq!(graph.set_entry(1), Err(Error::GraphMissingTerminal));
    assert_eq!(graph.set_exit(1), Err(Error::GraphMissingTerminal));
    assert_eq!((graph.entry(), graph.exit()), (None, None));
    assert_eq!(graph.set_entry(0), Ok(()));
    assert_eq!(graph.set_exit(0), Ok(()));
    assert_eq!((graph.entry(), graph.exit()), (Some(0), Some(0)));
}

#[test]
fn a_block_made_elsewhere_keeps_its_index() {
    let mut graph = ControlFlowGraph::new();
    graph.new_block();
    assert_eq!(graph.insert_block(Block::new(5)), Ok(()));
    assert_eq!(graph.insert_block(Block::new(3)), Ok(()));
    assert_eq!(block_indices(&graph), vec![0, 3, 5]);
    // The next index lies above every index that the graph holds.
    assert_eq!(graph.new_block(), 6);
    assert_eq!(block_indices(&graph), vec![0, 3, 5, 6]);
}

#[test]
fn a_block_index_is_used_once() {
    let mut graph = ControlFlowGraph::new();
    graph.new_block();
    graph.new_block();
    let mut block = Block::new(1);
    block.raise(expr_const(0, 8));
    assert_eq!(graph.insert_block(block), Err(Error::BlockIndexCollision));
    assert_eq!(block_indices(&graph), vec![0, 1]);
    assert!(graph.block(1).unwrap().is_empty());
}

#[test]
fn appending_rewrites_the_indices() {
    let mut graph = two_blocks();
    let mut other = ControlFlowGraph::new();
    other.insert_block(Block::new(10)).unwrap();
    other.insert_block(Block::new(20)).unwrap();
    other.insert_block(Block::new(30)).unwrap();
    other.block_mut(20).unwrap().raise(expr_const(20, 8));
    other.unconditional_edge(10, 30).unwrap();
    other.conditional_edge(10, 20, expr_scalar("c", 1)).unwrap();
    other.unconditional_edge(30, 10).unwrap();
    other.set_entry(10).unwrap();
    other.set_exit(30).unwrap();

    graph.append(&other);
    assert_eq!(block_indices(&graph), vec![0, 1, 2, 3, 4]);
    assert_eq!(edge_ends(&graph), vec![(0, 1), (2, 3), (2, 4), (4, 2)]);
    assert_eq!(graph.edges()[1].condition(), &Some(expr_scalar("c", 1)));
    assert_eq!(graph.edges()[2].condition(), &None);
    // Entry and exit stay; those of the other graph are left out.
    assert_eq!((graph.entry(), graph.exit()), (Some(0), Some(1)));
    // The blocks keep their instructions.
    assert_eq!(graph.block(3).unwrap().instructions(), other.block(20).unwrap().instructions());
    assert!(graph.block(2).unwrap().is_empty());
    // The other graph is as it was.
    assert_eq!(block_indices(&other), vec![10, 20, 30]);
    assert_eq!(graph.new_block(), 5);
}

#[test]
fn chaining_two_graphs_links_exit_and_entry() {
    let mut g1 = two_blocks();
    let g2 = two_blocks();
    assert_eq!(g1.append_with_edge(&g2, None), Ok(()));
    assert_eq!(g1.blocks().len(), 4);
    assert_eq!(block_indices(&g1), vec![0, 1, 2, 3]);
    assert_eq!(g1.entry(), Some(0));
    assert_eq!(g1.exit(), Some(3));
    // The edge of each graph, and the edge from the exit of the first to the
    // entry of the second.
    assert_eq!(edge_ends(&g1), vec![(0, 1), (1, 2), (2, 3)]);
    assert_eq!(g1.edges()[1].condition(), &None);
    assert_eq!(g1.block(2).unwrap().instructions(), g2.block(0).unwrap().instructions());
    assert_eq!(g1.block(3).unwrap().instructions(), g2.block(1).unwrap().instructions());
}

#[test]
fn chaining_under_a_condition_guards_the_link() {
    let mut g1 = two_blocks();
    let g2 = two_blocks();
    assert_eq!(g1.append_with_edge(&g2, Some(expr_scalar("c", 1))), Ok(()));
    assert_eq!(edge_ends(&g1), vec![(0, 1), (1, 2), (2, 3)]);
    assert_eq!(g1.edges()[1].condition(), &Some(expr_scalar("c", 1)));
}

#[test]
fn chaining_rejects_a_condition_of_the_wrong_width() {
    let mut g1 = two_blocks();
    let g2 = two_blocks();
    assert_eq!(g1.append_with_edge(&g2, Some(expr_scalar("c", 8))), Err(Error::Sort));
    assert_eq!(g1, two_blocks());
}

#[test]
fn chaining_needs_the_terminals() {
    let mut without_exit = ControlFlowGraph::new();
    without_exit.new_block();
    without_exit.set_entry(0).unwrap();
    let before = {
        let mut graph = ControlFlowGraph::new();
        graph.new_block();
        graph.set_entry(0).unwrap();
        graph
    };
    assert_eq!(
        without_exit.append_with_edge(&two_blocks(), None),
        Err(Error::GraphMissingTerminal)
    );
    assert_eq!(without_exit, before);

    let mut without_entry = ControlFlowGraph::new();
    without_entry.new_block();
    without_entry.set_exit(0).unwrap();
    let mut graph = two_blocks();
    assert_eq!(graph.append_with_edge(&without_entry, None), Err(Error::GraphMissingTerminal));
    assert_eq!(graph, two_blocks());
}

#[test]
fn chaining_to_a_graph_without_exit_leaves_no_exit() {
    let mut other = ControlFlowGraph::new();
    other.new_block();
    other.set_entry(0).unwrap();
    let mut graph = two_blocks();
    assert_eq!(graph.append_with_edge(&other, None), Ok(()));
    assert_eq!(edge_ends(&graph), vec![(0, 1), (1, 2)]);
    assert_eq!((graph.entry(), graph.exit()), (Some(0), None));
}

#[test]
fn chaining_to_an_empty_graph_puts_the_whole_graph_there() {
    let mut other = ControlFlowGraph::new();
    other.insert_block(Block::new(4)).unwrap();
    other.insert_block(Block::new(8)).unwrap();
    other.block_mut(8).unwrap().raise(expr_const(8, 8));
    other.unconditional_edge(8, 4).unwrap();
    other.set_entry(8).unwrap();
    other.set_exit(4).unwrap();

    let mut graph = ControlFlowGraph::new();
    assert_eq!(graph.append_with_edge(&other, None), Ok(()));
    assert_eq!(block_indices(&graph), vec![0, 1]);
    assert_eq!(edge_ends(&graph), vec![(1, 0)]);
    assert_eq!((graph.entry(), graph.exit()), (Some(1), Some(0)));
    assert_eq!(graph.block(1).unwrap().instructions(), other.block(8).unwrap().instructions());
    assert!(graph.block(0).unwrap().is_empty());
}

#[test]
fn chaining_to_an_empty_graph_takes_a_graph_without_terminals() {
    let mut other = ControlFlowGraph::new();
    other.new_block();
    let mut graph = ControlFlowGraph::new();
    assert_eq!(graph.append_with_edge(&other, None), Ok(()));
    assert_eq!(block_indices(&graph), vec![0]);
    assert_eq!((graph.entry(), graph.exit()), (None, None));
}

#[test]
fn chaining_instruction_graphs_builds_a_basic_block_chain() {
    let mut graph = ControlFlowGraph::new();
    for address in 0..4u64 {
        let mut lifted = ControlFlowGraph::new();
        let block = lifted.new_block();
        let index = lifted.block_mut(block).unwrap().raise(expr_const(address, 64));
        lifted
            .block_mut(block)
            .unwrap()
            .instruction_mut(index)
            .unwrap()
            .set_address(Some(0x1000 + address));
        lifted.set_entry(block).unwrap();
        lifted.set_exit(block).unwrap();
        graph.append_with_edge(&lifted, None).unwrap();
    }
    assert_eq!(block_indices(&graph), vec![0, 1, 2, 3]);
    assert_eq!(edge_ends(&graph), vec![(0, 1), (1, 2), (2, 3)]);
    assert_eq!((graph.entry(), graph.exit()), (Some(0), Some(3)));
    for (i, block) in graph.blocks().iter().enumerate() {
        assert_eq!(block.instructions()[0].address(), Some(0x1000 + i as u64));
    }
}
