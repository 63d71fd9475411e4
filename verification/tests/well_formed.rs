use falcon::il::{
    expr_const, expr_scalar, scalar, Block, ControlFlowGraph, Edge, Expression, Function,
    Instruction, Operation, Program,
};

fn boxed(e: Expression) -> Box<Expression> {
    Box::new(e)
}

#[test]
fn what_the_constructors_make_is_well_formed() {
    let e = Expression::trun(
        8,
        Expression::add(
            Expression::zext(32, expr_scalar("z", 16)).unwrap(),
            Expression::mul(expr_scalar("x", 32), expr_const(10, 32)).unwrap(),
        )
        .unwrap(),
    )
    .unwrap();
    assert!(e.is_well_formed());
    assert!(scalar("x", 1).is_well_formed());
    assert!(scalar("x", 64).is_well_formed());
    assert!(falcon::il::const_(u64::MAX, 64).is_well_formed());
    assert!(falcon::il::const_(u64::MAX, 1).is_well_formed());
    let operation = Operation::assign(scalar("a", 8), e).unwrap();
    assert!(operation.is_well_formed());
    assert!(Instruction::new(0, operation).is_well_formed());
    assert!(Edge::new(0, 1, Some(expr_scalar("c", 1))).unwrap().is_well_formed());
    assert!(Edge::new(0, 1, None).unwrap().is_well_formed());
}

#[test]
fn an_expression_built_by_hand_may_break_the_sort() {
    let x32 = || expr_scalar("x", 32);
    let z16 = || expr_scalar("z", 16);
    assert!(!Expression::Add(boxed(x32()), boxed(z16())).is_well_formed());
    assert!(!Expression::Cmpeq(boxed(z16()), boxed(x32())).is_well_formed());
    assert!(!Expression::Zext(16, boxed(z16())).is_well_formed());
    assert!(!Expression::Zext(8, boxed(z16())).is_well_formed());
    assert!(!Expression::Sext(65, boxed(z16())).is_well_formed());
    assert!(!Expression::Trun(16, boxed(z16())).is_well_formed());
    assert!(!Expression::Trun(0, boxed(z16())).is_well_formed());
    assert!(!Expression::Trun(32, boxed(z16())).is_well_formed());
    // A breach deep in the tree is found.
    let broken = Expression::Add(boxed(x32()), boxed(z16()));
    let around = Expression::Xor(boxed(Expression::Zext(64, boxed(broken))), boxed(expr_const(0, 64)));
    assert!(!around.is_well_formed());
    assert!(Expression::Zext(32, boxed(z16())).is_well_formed());
    assert!(Expression::Trun(1, boxed(z16())).is_well_formed());
}

#[test]
fn an_operation_built_by_hand_may_break_the_sort() {
    let assign = Operation::Assign { dst: scalar("a", 8), src: expr_const(0, 16) };
    assert!(!assign.is_well_formed());
    let store = Operation::Store {
        dst: falcon::il::array("m", 8),
        index: expr_const(0, 8),
        src: expr_const(0, 7),
    };
    assert!(!store.is_well_formed());
    let load = Operation::Load {
        dst: scalar("a", 9),
        index: expr_const(0, 8),
        src: falcon::il::array("m", 8),
    };
    assert!(!load.is_well_formed());
    let brc = Operation::Brc { target: expr_const(0, 8), condition: expr_const(0, 8) };
    assert!(!brc.is_well_formed());
    let raise = Operation::Raise {
        expr: Expression::Add(boxed(expr_const(0, 8)), boxed(expr_const(0, 9))),
    };
    assert!(!raise.is_well_formed());
    assert!(!Instruction::new(0, raise).is_well_formed());
}

#[test]
fn a_block_is_well_formed_after_every_change() {
    let mut block = Block::new(0);
    assert!(block.is_well_formed());
    block.raise(expr_const(0, 8));
    block.push(Instruction::raise(9, expr_const(0, 8))).unwrap();
    block.push(Instruction::raise(u64::MAX, expr_const(0, 8))).unwrap();
    assert!(block.is_well_formed());
    assert!(!block.has_room_for(1));
    assert!(block.has_room_for(0));
    let mut other = Block::new(1);
    assert!(other.has_room_for(usize::MAX));
    other.push(Instruction::raise(4, expr_const(0, 8))).unwrap();
    assert!(other.has_room_for(10));
    assert!(!other.has_room_for(usize::MAX));
    other.append(&Block::new(2));
    other.append(&other.clone());
    assert!(other.is_well_formed());
}

#[test]
fn a_block_read_from_bytes_may_be_ill_formed() {
    let mut block = Block::new(0);
    block.raise(expr_const(0, 8));
    block.raise(expr_const(1, 8));
    let bytes = block.serialize();
    assert!(Block::deserialize(&bytes).unwrap().is_well_formed());

    // The greatest index lies below an index that the block holds.
    let mut low = bytes.clone();
    assert_eq!(&low[8..17], &[1, 1, 0, 0, 0, 0, 0, 0, 0]);
    low[9] = 0;
    assert!(!Block::deserialize(&low).unwrap().is_well_formed());

    // No greatest index, but instructions.
    let mut none = bytes.clone();
    none.drain(9..17);
    none[8] = 0;
    assert!(!Block::deserialize(&none).unwrap().is_well_formed());

    // An instruction that holds an ill-formed operation.
    let broken = Instruction::new(
        0,
        Operation::Raise { expr: Expression::Trun(64, boxed(expr_const(0, 8))) },
    );
    let mut holder = Block::new(0);
    holder.push(broken).unwrap();
    assert!(!holder.is_well_formed());
}

#[test]
fn two_instructions_with_one_index_are_found() {
    let mut block = Block::new(0);
    block.raise(expr_const(0, 8));
    block.raise(expr_const(1, 8));
    let one = block.instructions()[0].serialize();
    let mut bytes = block.serialize();
    // The second instruction gets the index of the first.
    let second = bytes.len() - one.len();
    bytes[second..].copy_from_slice(&one);
    let read = Block::deserialize(&bytes).unwrap();
    assert_eq!(read.instructions()[0].index(), read.instructions()[1].index());
    assert!(!read.is_well_formed());
}

fn a_graph() -> ControlFlowGraph {
    let mut graph = ControlFlowGraph::new();
    for _ in 0..3 {
        graph.new_block();
    }
    graph.unconditional_edge(0, 1).unwrap();
    graph.conditional_edge(1, 2, expr_scalar("c", 1)).unwrap();
    graph.conditional_edge(1, 0, expr_scalar("d", 1)).unwrap();
    graph.set_entry(0).unwrap();
    graph.set_exit(2).unwrap();
    graph
}

#[test]
fn a_graph_is_well_formed_after_every_change() {
    let mut graph = ControlFlowGraph::new();
    assert!(graph.is_well_formed());
    assert!(graph.has_room_for(usize::MAX));
    graph.append_with_edge(&a_graph(), None).unwrap();
    assert!(graph.is_well_formed());
    graph.append_with_edge(&a_graph(), Some(expr_scalar("c", 1))).unwrap();
    assert!(graph.is_well_formed());
    graph.append(&a_graph());
    assert!(graph.is_well_formed());
    graph.insert_block(Block::new(100)).unwrap();
    graph.insert_block(Block::new(u64::MAX)).unwrap();
    graph.unconditional_edge(u64::MAX, 100).unwrap();
    graph.block_mut(100).unwrap().raise(expr_const(0, 8));
    assert!(graph.is_well_formed());
    assert!(!graph.has_room_for(1));
    assert!(graph.has_room_for(0));
}

#[test]
fn successors_and_predecessors_follow_the_edges() {
    let graph = a_graph();
    assert_eq!(graph.successors(0), vec![1]);
    assert_eq!(graph.successors(1), vec![0, 2]);
    assert_eq!(graph.successors(2), Vec::<u64>::new());
    assert_eq!(graph.predecessors(0), vec![1]);
    assert_eq!(graph.predecessors(1), vec![0]);
    assert_eq!(graph.predecessors(2), vec![1]);
    assert_eq!(graph.successors(7), Vec::<u64>::new());
}

#[test]
fn a_graph_read_from_bytes_may_be_ill_formed() {
    let graph = a_graph();
    let bytes = graph.serialize();
    let read = ControlFlowGraph::deserialize(&bytes).unwrap();
    assert!(read.is_well_formed());
    assert_eq!(read, graph);

    // The exit names a block that the graph does not hold.
    let mut lost = bytes.clone();
    let end = lost.len();
    assert_eq!(&lost[end - 9..], &[1, 2, 0, 0, 0, 0, 0, 0, 0]);
    lost[end - 8] = 9;
    let read = ControlFlowGraph::deserialize(&lost).unwrap();
    assert_eq!(read.exit(), Some(9));
    assert!(!read.is_well_formed());

    // The entry names a block that the graph does not hold.
    let mut lost = bytes.clone();
    assert_eq!(&lost[end - 18..end - 9], &[1, 0, 0, 0, 0, 0, 0, 0, 0]);
    lost[end - 17] = 3;
    assert!(!ControlFlowGraph::deserialize(&lost).unwrap().is_well_formed());

    // The greatest index lies below the index of a block.
    let mut low = bytes.clone();
    assert_eq!(&low[end - 27..end - 18], &[1, 2, 0, 0, 0, 0, 0, 0, 0]);
    low[end - 26] = 1;
    assert!(!ControlFlowGraph::deserialize(&low).unwrap().is_well_formed());
}

#[test]
fn blocks_and_edges_out_of_order_are_found() {
    let mut graph = ControlFlowGraph::new();
    graph.new_block();
    graph.new_block();
    let bytes = graph.serialize();
    // Two blocks, each: index, greatest index, count of instructions.
    assert_eq!(bytes[0], 2);
    assert_eq!(bytes[8], 0);
    assert_eq!(bytes[8 + 17], 1);
    let mut swapped = bytes.clone();
    swapped[8] = 1;
    swapped[8 + 17] = 0;
    assert!(!ControlFlowGraph::deserialize(&swapped).unwrap().is_well_formed());
    let mut twice = bytes.clone();
    twice[8] = 1;
    assert!(!ControlFlowGraph::deserialize(&twice).unwrap().is_well_formed());

    graph.unconditional_edge(0, 1).unwrap();
    graph.unconditional_edge(1, 0).unwrap();
    let bytes = graph.serialize();
    let edges = 8 + 2 * 17;
    assert_eq!(bytes[edges], 2);
    assert_eq!(&bytes[edges + 8..edges + 8 + 17], &[0, 0, 0, 0, 0, 0, 0, 0, 1, 0, 0, 0, 0, 0, 0, 0, 0]);
    let mut swapped = bytes.clone();
    swapped[edges + 8] = 1;
    swapped[edges + 16] = 0;
    swapped[edges + 8 + 17] = 0;
    swapped[edges + 16 + 17] = 1;
    let read = ControlFlowGraph::deserialize(&swapped).unwrap();
    assert_eq!((read.edges()[0].head(), read.edges()[0].tail()), (1, 0));
    assert!(!read.is_well_formed());
    let mut missing = bytes.clone();
    missing[edges + 16] = 5;
    assert!(!ControlFlowGraph::deserialize(&missing).unwrap().is_well_formed());
}

#[test]
fn functions_and_programs_are_well_formed() {
    let function = Function::new(0x1000, a_graph()).unwrap();
    assert!(function.is_well_formed());
    let mut program = Program::new();
    assert!(program.is_well_formed());
    program.add_function(function).unwrap();
    program.add_function(Function::new(0x2000, a_graph()).unwrap()).unwrap();
    assert!(program.is_well_formed());

    // A function read from bytes without the entry of its graph.
    let mut graph = ControlFlowGraph::new();
    graph.new_block();
    graph.set_entry(0).unwrap();
    let mut bytes = Function::new(0, graph).unwrap().serialize();
    // Behind the entry stand the exit, the name and the index, all absent.
    let entry = bytes.len() - 3 - 9;
    assert_eq!(&bytes[entry..entry + 9], &[1, 0, 0, 0, 0, 0, 0, 0, 0]);
    bytes.drain(entry + 1..entry + 9);
    bytes[entry] = 0;
    let read = Function::deserialize(&bytes).unwrap();
    assert_eq!(read.control_flow_graph().entry(), None);
    assert!(!read.is_well_formed());
}

#[test]
fn a_program_read_from_bytes_may_be_ill_formed() {
    let mut program = Program::new();
    program.add_function(Function::new(0x1000, a_graph()).unwrap()).unwrap();
    let one = program.serialize();
    // Twice the same function: the same address, the same index.
    let mut twice = one.clone();
    twice[0] = 2;
    twice.extend_from_slice(&one[8..]);
    let read = Program::deserialize(&twice).unwrap();
    assert_eq!(read.functions().len(), 2);
    assert!(!read.is_well_formed());
    // A function without index.
    let bare = Function::new(0x1000, a_graph()).unwrap().serialize();
    let mut alone = vec![1, 0, 0, 0, 0, 0, 0, 0];
    alone.extend_from_slice(&bare);
    let read = Program::deserialize(&alone).unwrap();
    assert_eq!(read.functions()[0].index(), None);
    assert!(!read.is_well_formed());
}

#[test]
fn scalars_of_one_name_have_one_width() {
    let mut graph = ControlFlowGraph::new();
    let first = graph.new_block();
    let second = graph.new_block();
    graph.block_mut(first).unwrap().assign(scalar("a", 32), expr_scalar("b", 32)).unwrap();
    graph
        .block_mut(second)
        .unwrap()
        .store(falcon::il::array("m", 8), expr_scalar("b", 32), expr_scalar("c", 8))
        .unwrap();
    graph.conditional_edge(first, second, expr_scalar("f", 1)).unwrap();
    assert!(graph.widths_agree());
    let names: Vec<&str> = graph.collect_scalars().iter().map(|s| s.name()).collect();
    assert_eq!(names, vec!["a", "b", "b", "c", "f"]);

    // The same name with another SSA index is the same name.
    let mut versioned = scalar("a", 32);
    versioned.set_ssa(Some(1));
    graph.block_mut(second).unwrap().assign(versioned, expr_const(0, 32)).unwrap();
    assert!(graph.widths_agree());

    let function = Function::new(0, {
        let mut g = graph.clone();
        g.set_entry(first).unwrap();
        g
    })
    .unwrap();
    assert!(function.widths_agree());

    // A condition that reads `c` as one bit, where a block reads it as eight.
    let mut in_edge = graph.clone();
    in_edge.conditional_edge(second, first, expr_scalar("c", 1)).unwrap();
    assert!(in_edge.is_well_formed());
    assert!(!in_edge.widths_agree());

    // A block that writes `b` as sixteen bits, where another reads it as
    // thirty-two.
    graph.block_mut(first).unwrap().load(scalar("b", 16), expr_const(0, 8), falcon::il::array("m", 8)).unwrap();
    assert!(graph.is_well_formed());
    assert!(!graph.widths_agree());
    let mut with_entry = graph.clone();
    with_entry.set_entry(first).unwrap();
    assert!(!Function::new(0, with_entry).unwrap().widths_agree());
}

#[test]
fn an_operation_holds_the_scalar_it_writes_and_those_it_reads() {
    let names = |operation: &Operation| -> Vec<String> {
        operation.collect_scalars().iter().map(|s| String::from(s.name())).collect()
    };
    let sum = Expression::add(expr_scalar("a", 8), expr_scalar("b", 8)).unwrap();
    assert_eq!(names(&Operation::assign(scalar("d", 8), sum.clone()).unwrap()), ["d", "a", "b"]);
    assert_eq!(
        names(&Operation::store(falcon::il::array("m", 8), expr_scalar("p", 8), sum.clone()).unwrap()),
        ["p", "a", "b"]
    );
    assert_eq!(
        names(&Operation::load(scalar("d", 8), sum.clone(), falcon::il::array("m", 8)).unwrap()),
        ["d", "a", "b"]
    );
    assert_eq!(
        names(&Operation::brc(expr_scalar("t", 8), expr_scalar("c", 1)).unwrap()),
        ["t", "c"]
    );
    assert_eq!(names(&Operation::raise(sum)), ["a", "b"]);
    assert!(scalar("a", 8).same_name(&scalar("a", 9)));
    assert!(!scalar("a", 8).same_name(&scalar("b", 8)));
}

#[test]
fn a_block_is_left_unconditionally_once_at_most() {
    let mut graph = ControlFlowGraph::new();
    for _ in 0..3 {
        graph.new_block();
    }
    assert!(graph.leaves_unconditionally_once());
    graph.unconditional_edge(0, 1).unwrap();
    graph.conditional_edge(0, 2, expr_scalar("c", 1)).unwrap();
    graph.conditional_edge(0, 0, expr_scalar("d", 1)).unwrap();
    graph.unconditional_edge(1, 2).unwrap();
    graph.unconditional_edge(2, 2).unwrap();
    assert!(graph.leaves_unconditionally_once());
    // The graph takes a second unconditional edge; the question finds it.
    assert_eq!(graph.unconditional_edge(0, 2), Ok(()));
    assert!(graph.is_well_formed());
    assert!(!graph.leaves_unconditionally_once());
}

#[test]
fn copies_are_equal() {
    let graph = a_graph();
    assert_eq!(graph.clone(), graph);
    let function = Function::new(0x1000, a_graph()).unwrap();
    assert_eq!(function.clone(), function);
    let mut program = Program::new();
    program.add_function(function).unwrap();
    assert_eq!(program.clone(), program);
    let mut copy = program.clone();
    assert_eq!(copy.add_function(Function::new(0x2000, a_graph()).unwrap()), Ok(1));
    assert_eq!(program.functions().len(), 1);
    let edge = Edge::new(0, 1, Some(expr_scalar("c", 1))).unwrap();
    assert_eq!(edge.clone(), edge);
}
