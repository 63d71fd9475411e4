use falcon::error::Error;
use falcon::il::{ControlFlowGraph, Function, Program};

fn graph_with_entry() -> ControlFlowGraph {
    let mut graph = ControlFlowGraph::new();
    let block = graph.new_block();
    graph.set_entry(block).unwrap();
    graph
}

#[test]
fn a_function_needs_a_graph_with_an_entry() {
    assert_eq!(
        Function::new(0x1000, ControlFlowGraph::new()),
        Err(Error::GraphMissingTerminal)
    );
    let function = Function::new(0x1000, graph_with_entry()).unwrap();
    assert_eq!(function.address(), 0x1000);
    assert_eq!(function.control_flow_graph(), &graph_with_entry());
    assert_eq!(function.name(), &None);
    assert_eq!(function.index(), None);
}

#[test]
fn a_function_can_be_named() {
    let mut function = Function::new(0x1000, graph_with_entry()).unwrap();
    function.set_name(Some(String::from("main")));
    assert_eq!(function.name(), &Some(String::from("main")));
    function.set_name(None);
    assert_eq!(function.name(), &None);
}

#[test]
fn the_graph_of_a_function_is_changed_in_its_place() {
    let mut function = Function::new(0x1000, graph_with_entry()).unwrap();
    assert_eq!(function.control_flow_graph_mut().new_block(), 1);
    assert_eq!(function.control_flow_graph().blocks().len(), 2);
    assert_eq!(function.address(), 0x1000);
}

#[test]
fn a_program_holds_one_function_at_an_address() {
    let mut program = Program::new();
    assert!(program.functions().is_empty());
    assert_eq!(program.add_function(Function::new(0x2000, graph_with_entry()).unwrap()), Ok(0));
    assert_eq!(program.add_function(Function::new(0x1000, graph_with_entry()).unwrap()), Ok(1));
    assert_eq!(
        program.add_function(Function::new(0x2000, graph_with_entry()).unwrap()),
        Err(Error::AddressCollision)
    );
    assert_eq!(program.functions().len(), 2);
}

#[test]
fn a_function_has_its_position_as_its_index() {
    let mut program = Program::new();
    program.add_function(Function::new(0x2000, graph_with_entry()).unwrap()).unwrap();
    program.add_function(Function::new(0x1000, graph_with_entry()).unwrap()).unwrap();
    for (position, function) in program.functions().iter().enumerate() {
        assert_eq!(function.index(), Some(position as u64));
    }
    assert_eq!(program.function(0).unwrap().address(), 0x2000);
    assert_eq!(program.function(1).unwrap().address(), 0x1000);
    assert!(program.function(2).is_none());
    assert_eq!(program.function_by_address(0x1000).unwrap().index(), Some(1));
    assert_eq!(program.function_by_address(0x2000).unwrap().index(), Some(0));
    assert!(program.function_by_address(0x3000).is_none());
}
