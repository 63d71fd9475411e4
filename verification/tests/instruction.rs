use falcon::error::Error;
use falcon::il::{
    array, expr_const, expr_scalar, scalar, Block, ControlFlowGraph, Edge, Function, Instruction,
    Operation, Program, Variable,
};

fn assign() -> Instruction {
    Instruction::assign(3, scalar("a", 32), expr_const(1, 32)).unwrap()
}

#[test]
fn an_instruction_renders_with_address_and_index() {
    let mut instruction = assign();
    instruction.set_address(Some(0x401000));
    assert_eq!(instruction.render(), "401000 03 a:32 = 0x1:32");
    assert!(instruction.render().starts_with("401000 03 "));
}

#[test]
fn an_instruction_renders_its_comment() {
    let mut instruction = assign();
    instruction.set_address(Some(0x401000));
    instruction.set_comment(Some(String::from("entry")));
    assert_eq!(instruction.render(), "401000 03 a:32 = 0x1:32 // entry");
    assert!(instruction.render().ends_with(" // entry"));
}

#[test]
fn an_instruction_without_address_renders_from_its_index() {
    let instruction = assign();
    assert_eq!(instruction.render(), "03 a:32 = 0x1:32");
    assert!(instruction.render().starts_with("03 "));
}

#[test]
fn the_index_renders_in_hexadecimal_with_two_digits_at_least() {
    let at = |index: u64| Instruction::raise(index, expr_const(0, 8)).render();
    assert_eq!(at(0), "00 raise(0x0:8)");
    assert_eq!(at(10), "0a raise(0x0:8)");
    assert_eq!(at(15), "0f raise(0x0:8)");
    assert_eq!(at(16), "10 raise(0x0:8)");
    assert_eq!(at(255), "ff raise(0x0:8)");
    assert_eq!(at(256), "100 raise(0x0:8)");
    assert_eq!(at(u64::MAX), "ffffffffffffffff raise(0x0:8)");
}

#[test]
fn the_address_renders_in_hexadecimal() {
    let mut instruction = Instruction::raise(1, expr_const(0, 8));
    instruction.set_address(Some(0));
    assert_eq!(instruction.render(), "0 01 raise(0x0:8)");
    instruction.set_address(Some(0xabcdef));
    assert_eq!(instruction.render(), "abcdef 01 raise(0x0:8)");
    instruction.set_address(Some(u64::MAX));
    assert_eq!(instruction.render(), "ffffffffffffffff 01 raise(0x0:8)");
}

#[test]
fn new_gives_neither_comment_nor_address() {
    let operation = Operation::raise(expr_const(0, 8));
    let instruction = Instruction::new(7, operation.clone());
    assert_eq!(instruction.index(), 7);
    assert_eq!(instruction.operation(), &operation);
    assert_eq!(instruction.comment(), &None);
    assert_eq!(instruction.address(), None);
}

#[test]
fn the_constructors_check_the_sort() {
    assert_eq!(
        Instruction::assign(0, scalar("a", 32), expr_const(1, 16)),
        Err(Error::Sort)
    );
    assert_eq!(
        Instruction::store(0, array("m", 8), expr_const(0, 8), expr_const(1, 4)),
        Err(Error::Sort)
    );
    assert_eq!(
        Instruction::load(0, scalar("a", 3), expr_const(0, 8), array("m", 8)),
        Err(Error::Sort)
    );
    assert_eq!(
        Instruction::brc(0, expr_const(0, 8), expr_const(1, 2)),
        Err(Error::Sort)
    );
}

#[test]
fn the_constructors_hold_their_operation() {
    let assign = Instruction::assign(1, scalar("a", 8), expr_const(1, 8)).unwrap();
    assert_eq!(
        assign.operation(),
        &Operation::assign(scalar("a", 8), expr_const(1, 8)).unwrap()
    );
    let store = Instruction::store(2, array("m", 8), expr_const(0, 8), expr_const(1, 8)).unwrap();
    assert_eq!(
        store.operation(),
        &Operation::store(array("m", 8), expr_const(0, 8), expr_const(1, 8)).unwrap()
    );
    let load = Instruction::load(3, scalar("a", 8), expr_const(0, 8), array("m", 8)).unwrap();
    assert_eq!(
        load.operation(),
        &Operation::load(scalar("a", 8), expr_const(0, 8), array("m", 8)).unwrap()
    );
    let brc = Instruction::brc(4, expr_const(0, 8), expr_const(1, 1)).unwrap();
    assert_eq!(
        brc.operation(),
        &Operation::brc(expr_const(0, 8), expr_const(1, 1)).unwrap()
    );
    let raise = Instruction::raise(5, expr_const(0, 8));
    assert_eq!(raise.operation(), &Operation::raise(expr_const(0, 8)));
    assert_eq!(
        [assign.index(), store.index(), load.index(), brc.index(), raise.index()],
        [1, 2, 3, 4, 5]
    );
    assert!(assign.is_assign() && !assign.is_store());
    assert!(store.is_store() && !store.is_load());
    assert!(load.is_load() && !load.is_brc());
    assert!(brc.is_brc() && !brc.is_raise());
    assert!(raise.is_raise() && !raise.is_assign());
}

#[test]
fn comment_and_address_are_set_and_cleared() {
    let mut instruction = assign();
    instruction.set_comment(Some(String::from("first")));
    instruction.set_address(Some(16));
    assert_eq!(instruction.comment(), &Some(String::from("first")));
    assert_eq!(instruction.address(), Some(16));
    assert_eq!(instruction.index(), 3);
    instruction.set_comment(None);
    instruction.set_address(None);
    assert_eq!(instruction, assign());
}

#[test]
fn a_copy_under_a_new_index_keeps_the_rest() {
    let mut instruction = assign();
    instruction.set_comment(Some(String::from("kept")));
    instruction.set_address(Some(0x10));
    let copy = instruction.clone_new_index(9);
    assert_eq!(copy.index(), 9);
    assert_eq!(copy.operation(), instruction.operation());
    assert_eq!(copy.comment(), instruction.comment());
    assert_eq!(copy.address(), instruction.address());
    assert_eq!(instruction.index(), 3);
    assert_eq!(instruction.clone(), instruction);
}

#[test]
fn the_operation_is_replaced_in_its_place() {
    let mut instruction = assign();
    *instruction.operation_mut() = Operation::raise(expr_const(0, 8));
    assert!(instruction.is_raise());
    assert_eq!(instruction.index(), 3);
}

#[test]
fn an_instruction_reads_and_writes_what_its_operation_does() {
    let mut load = Instruction::load(0, scalar("a", 8), expr_scalar("p", 8), array("m", 8)).unwrap();
    assert_eq!(load.variable_written(), Some(Variable::Scalar(&scalar("a", 8))));
    assert_eq!(
        load.variables_read(),
        vec![Variable::Array(&array("m", 8)), Variable::Scalar(&scalar("p", 8))]
    );
    load.variable_written_mut().unwrap().set_ssa(Some(1));
    load.variables_read_mut(0).unwrap().set_ssa(Some(2));
    load.variables_read_mut(1).unwrap().set_ssa(Some(3));
    assert!(load.variables_read_mut(2).is_none());
    assert_eq!(load.render(), "00 a_1:8 = m_2[p_3:8]");
}

#[test]
fn blocks_edges_and_graphs_render() {
    let mut block = Block::new(0x1f);
    assert_eq!(block.render(), "[ Block: 0x1f ]\n");
    block.assign(scalar("a", 8), expr_const(1, 8)).unwrap();
    block.raise(expr_scalar("a", 8));
    block.instruction_mut(1).unwrap().set_address(Some(0x40));
    assert_eq!(block.render(), "[ Block: 0x1f ]\n00 a:8 = 0x1:8\n40 01 raise(a:8)\n");

    assert_eq!(Edge::new(0, 0x10, None).unwrap().render(), "(0x0->0x10)");
    assert_eq!(
        Edge::new(0xa, 1, Some(expr_scalar("c", 1))).unwrap().render(),
        "(0xa->0x1) ? (c:1)"
    );

    let mut graph = ControlFlowGraph::new();
    assert_eq!(graph.render(), "");
    graph.new_block();
    graph.new_block();
    graph.block_mut(1).unwrap().raise(expr_const(0, 8));
    graph.conditional_edge(0, 1, expr_scalar("c", 1)).unwrap();
    graph.unconditional_edge(0, 0).unwrap();
    graph.set_entry(0).unwrap();
    let text = "[ Block: 0x0 ]\n[ Block: 0x1 ]\n00 raise(0x0:8)\n(0x0->0x0)\n(0x0->0x1) ? (c:1)\n";
    assert_eq!(graph.render(), text);

    let mut function = Function::new(0x8000, graph).unwrap();
    assert_eq!(function.render(), format!("0x8000\n{}", text));
    function.set_name(Some(String::from("main")));
    assert_eq!(function.render(), format!("main@0x8000\n{}", text));

    let mut program = Program::new();
    assert_eq!(program.render(), "");
    program.add_function(function.clone()).unwrap();
    let mut other = ControlFlowGraph::new();
    other.new_block();
    other.set_entry(0).unwrap();
    program.add_function(Function::new(0, other).unwrap()).unwrap();
    assert_eq!(program.render(), format!("main@0x8000\n{}0x0\n[ Block: 0x0 ]\n", text));
}
