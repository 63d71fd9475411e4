use falcon::il::{
    array, const_, expr_const, expr_scalar, scalar, Array, Block, Constant, ControlFlowGraph, Edge,
    Expression, Function, Instruction, Operation, Program, Scalar,
};

fn every_form() -> Vec<Expression> {
    let x = || expr_scalar("x", 32);
    let y = || expr_const(0xfeed, 32);
    let z = || expr_scalar("z", 16);
    vec![
        x(),
        y(),
        Expression::add(x(), y()).unwrap(),
        Expression::sub(x(), y()).unwrap(),
        Expression::mul(x(), y()).unwrap(),
        Expression::divu(x(), y()).unwrap(),
        Expression::modu(x(), y()).unwrap(),
        Expression::divs(x(), y()).unwrap(),
        Expression::mods(x(), y()).unwrap(),
        Expression::and(x(), y()).unwrap(),
        Expression::or(x(), y()).unwrap(),
        Expression::xor(x(), y()).unwrap(),
        Expression::shl(x(), y()).unwrap(),
        Expression::shr(x(), y()).unwrap(),
        Expression::cmpeq(x(), y()).unwrap(),
        Expression::cmpneq(x(), y()).unwrap(),
        Expression::cmplts(x(), y()).unwrap(),
        Expression::cmpltu(x(), y()).unwrap(),
        Expression::zext(32, z()).unwrap(),
        Expression::sext(64, z()).unwrap(),
        Expression::trun(8, z()).unwrap(),
    ]
}

fn every_operation() -> Vec<Operation> {
    let mut m = array("mem", 1 << 20);
    m.set_ssa(Some(3));
    vec![
        Operation::assign(scalar("a", 32), every_form()[2].clone()).unwrap(),
        Operation::store(m.clone(), expr_scalar("p", 64), expr_const(7, 16)).unwrap(),
        Operation::load(scalar("a", 8), expr_scalar("p", 64), m).unwrap(),
        Operation::brc(expr_scalar("t", 64), every_form()[14].clone()).unwrap(),
        Operation::raise(every_form()[20].clone()),
    ]
}

fn a_block(index: u64) -> Block {
    let mut block = Block::new(index);
    for (i, operation) in every_operation().into_iter().enumerate() {
        let mut instruction = Instruction::new(10 * i as u64, operation);
        if i % 2 == 0 {
            instruction.set_address(Some(0x400000 + i as u64));
            instruction.set_comment(Some(format!("step {}", i)));
        }
        block.push(instruction).unwrap();
    }
    block.raise(expr_const(0, 8));
    block
}

fn a_graph() -> ControlFlowGraph {
    let mut graph = ControlFlowGraph::new();
    graph.insert_block(a_block(2)).unwrap();
    graph.insert_block(a_block(7)).unwrap();
    graph.new_block();
    graph.unconditional_edge(2, 7).unwrap();
    graph.conditional_edge(7, 8, expr_scalar("c", 1)).unwrap();
    graph.conditional_edge(7, 2, Expression::cmpeq(expr_scalar("c", 1), expr_const(0, 1)).unwrap()).unwrap();
    graph.set_entry(2).unwrap();
    graph.set_exit(8).unwrap();
    graph
}

#[test]
fn terminals_come_back_from_their_serialized_form() {
    let mut named = scalar("κλειδί", 17);
    named.set_ssa(Some(u32::MAX));
    for s in [scalar("x", 1), scalar("", 64), named] {
        assert_eq!(Scalar::deserialize(&s.serialize()), Some(s));
    }
    let mut versioned = array("stack", 0);
    versioned.set_ssa(Some(0));
    for a in [array("mem", u64::MAX), versioned] {
        assert_eq!(Array::deserialize(&a.serialize()), Some(a));
    }
    for c in [const_(0, 1), const_(u64::MAX, 64), const_(0x1234, 16)] {
        assert_eq!(Constant::deserialize(&c.serialize()), Some(c));
    }
}

#[test]
fn the_serialized_form_of_a_scalar_is_name_width_and_index() {
    let mut s = scalar("ab", 32);
    assert_eq!(
        s.serialize(),
        vec![2, 0, 0, 0, 0, 0, 0, 0, b'a', b'b', 32, 0, 0, 0, 0, 0, 0, 0, 0]
    );
    s.set_ssa(Some(0x0102));
    assert_eq!(
        s.serialize(),
        vec![2, 0, 0, 0, 0, 0, 0, 0, b'a', b'b', 32, 0, 0, 0, 0, 0, 0, 0, 1, 2, 1, 0, 0, 0, 0, 0, 0]
    );
}

#[test]
fn the_serialized_form_of_a_constant_is_value_and_width() {
    assert_eq!(
        const_(0x0102, 16).serialize(),
        vec![2, 1, 0, 0, 0, 0, 0, 0, 16, 0, 0, 0, 0, 0, 0, 0]
    );
}

#[test]
fn every_form_of_expression_comes_back() {
    for (tag, e) in every_form().into_iter().enumerate() {
        let bytes = e.serialize();
        assert_eq!(bytes[0] as usize, tag);
        assert_eq!(Expression::deserialize(&bytes), Some(e));
    }
}

#[test]
fn a_deep_expression_comes_back() {
    let mut e = expr_scalar("x", 64);
    for (i, part) in every_form().into_iter().enumerate() {
        let part = match part.bits() {
            64 => part,
            bits if bits < 64 => Expression::zext(64, part).unwrap(),
            _ => unreachable!(),
        };
        e = if i % 2 == 0 {
            Expression::xor(e, part).unwrap()
        } else {
            Expression::sub(part, e).unwrap()
        };
    }
    assert_eq!(Expression::deserialize(&e.serialize()), Some(e));
}

#[test]
fn every_kind_of_operation_comes_back() {
    for (tag, operation) in every_operation().into_iter().enumerate() {
        let bytes = operation.serialize();
        assert_eq!(bytes[0] as usize, tag);
        assert_eq!(Operation::deserialize(&bytes), Some(operation));
    }
}

#[test]
fn instructions_come_back() {
    for operation in every_operation() {
        let mut instruction = Instruction::new(u64::MAX, operation);
        assert_eq!(Instruction::deserialize(&instruction.serialize()), Some(instruction.clone()));
        instruction.set_comment(Some(String::from("naïve — ✓")));
        assert_eq!(Instruction::deserialize(&instruction.serialize()), Some(instruction.clone()));
        instruction.set_address(Some(0));
        assert_eq!(Instruction::deserialize(&instruction.serialize()), Some(instruction.clone()));
        instruction.set_comment(Some(String::new()));
        assert_eq!(Instruction::deserialize(&instruction.serialize()), Some(instruction));
    }
}

#[test]
fn blocks_come_back_with_their_fresh_index() {
    assert_eq!(Block::deserialize(&Block::new(3).serialize()), Some(Block::new(3)));
    let block = a_block(5);
    let mut read = Block::deserialize(&block.serialize()).unwrap();
    assert_eq!(read, block);
    let mut block = block;
    assert_eq!(read.raise(expr_const(1, 8)), block.raise(expr_const(1, 8)));
    assert_eq!(read, block);
}

#[test]
fn edges_come_back() {
    let plain = Edge::new(1, 2, None).unwrap();
    assert_eq!(Edge::deserialize(&plain.serialize()), Some(plain));
    let guarded = Edge::new(u64::MAX, 0, Some(every_form()[16].clone())).unwrap();
    assert_eq!(Edge::deserialize(&guarded.serialize()), Some(guarded));
}

#[test]
fn graphs_come_back_with_their_fresh_index() {
    let empty = ControlFlowGraph::new();
    assert_eq!(ControlFlowGraph::deserialize(&empty.serialize()), Some(ControlFlowGraph::new()));
    let graph = a_graph();
    let mut read = ControlFlowGraph::deserialize(&graph.serialize()).unwrap();
    assert_eq!(read, graph);
    let mut graph = graph;
    assert_eq!(read.new_block(), graph.new_block());
    assert_eq!(read, graph);
}

#[test]
fn functions_and_programs_come_back() {
    let mut function = Function::new(0x8048000, a_graph()).unwrap();
    assert_eq!(Function::deserialize(&function.serialize()).as_ref(), Some(&function));
    function.set_name(Some(String::from("main")));
    assert_eq!(Function::deserialize(&function.serialize()).as_ref(), Some(&function));

    let mut program = Program::new();
    assert_eq!(Program::deserialize(&program.serialize()), Some(Program::new()));
    program.add_function(function).unwrap();
    program.add_function(Function::new(0x10, a_graph()).unwrap()).unwrap();
    let read = Program::deserialize(&program.serialize()).unwrap();
    assert_eq!(read, program);
    assert_eq!(read.function_by_address(0x10).unwrap().index(), Some(1));
}

#[test]
fn what_is_no_serialized_form_is_rejected() {
    let e = Expression::add(expr_scalar("x", 32), expr_const(1, 32)).unwrap();
    let bytes = e.serialize();
    // Too short, too long, an unknown form.
    for cut in 0..bytes.len() {
        assert_eq!(Expression::deserialize(&bytes[..cut]), None);
    }
    let mut longer = bytes.clone();
    longer.push(0);
    assert_eq!(Expression::deserialize(&longer), None);
    let mut unknown = bytes.clone();
    unknown[0] = 21;
    assert_eq!(Expression::deserialize(&unknown), None);
    assert_eq!(Expression::deserialize(&[]), None);
    assert_eq!(Operation::deserialize(&[5]), None);
    assert_eq!(Scalar::deserialize(&[]), None);
}

#[test]
fn a_name_that_is_not_utf8_is_rejected() {
    let mut bytes = scalar("ab", 8).serialize();
    bytes[8] = 0xff;
    assert_eq!(Scalar::deserialize(&bytes), None);
    bytes[8] = 0xc3;
    bytes[9] = 0xa9;
    assert_eq!(Scalar::deserialize(&bytes), Some(scalar("é", 8)));
    bytes[9] = b'a';
    assert_eq!(Scalar::deserialize(&bytes), None);
}

#[test]
fn an_option_is_named_by_zero_or_one() {
    let mut bytes = scalar("a", 8).serialize();
    let last = bytes.len() - 1;
    assert_eq!(bytes[last], 0);
    bytes[last] = 2;
    assert_eq!(Scalar::deserialize(&bytes), None);
    bytes[last] = 1;
    assert_eq!(Scalar::deserialize(&bytes), None);
    bytes.extend_from_slice(&[5, 0, 0, 0, 0, 0, 0, 0]);
    let mut a = scalar("a", 8);
    a.set_ssa(Some(5));
    assert_eq!(Scalar::deserialize(&bytes), Some(a));
    // An SSA index has to fit in 32 bits.
    let end = bytes.len();
    bytes[end - 1] = 1;
    assert_eq!(Scalar::deserialize(&bytes), None);
}

#[test]
fn a_count_beyond_the_input_is_rejected() {
    let mut bytes = Block::new(0).serialize();
    // index, no greatest index, no instructions
    assert_eq!(bytes, vec![0, 0, 0, 0, 0, 0, 0, 0, 0, 0, 0, 0, 0, 0, 0, 0, 0]);
    bytes[9] = 1;
    assert_eq!(Block::deserialize(&bytes), None);
    bytes[16] = 0xff;
    assert_eq!(Block::deserialize(&bytes), None);
}
