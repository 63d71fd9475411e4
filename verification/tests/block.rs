use falcon::error::Error;
use falcon::il::{array, expr_const, expr_scalar, scalar, Block, Instruction};

fn indices(block: &Block) -> Vec<u64> {
    block.instructions().iter().map(|i| i.index()).collect()
}

#[test]
fn a_new_block_is_empty() {
    let block = Block::new(4);
    assert_eq!(block.index(), 4);
    assert!(block.is_empty());
    assert_eq!(block.len(), 0);
    assert!(block.instruction(0).is_none());
}

#[test]
fn a_block_gives_its_instructions_ascending_indices() {
    let mut block = Block::new(0);
    assert_eq!(block.assign(scalar("a", 8), expr_const(1, 8)), Ok(0));
    assert_eq!(block.store(array("m", 8), expr_scalar("a", 8), expr_const(1, 8)), Ok(1));
    assert_eq!(block.load(scalar("a", 8), expr_const(0, 8), array("m", 8)), Ok(2));
    assert_eq!(block.brc(expr_scalar("a", 8), expr_const(1, 1)), Ok(3));
    assert_eq!(block.raise(expr_const(0, 8)), 4);
    assert_eq!(indices(&block), vec![0, 1, 2, 3, 4]);
    assert_eq!(block.len(), 5);
    assert!(block.instructions()[0].is_assign());
    assert!(block.instructions()[1].is_store());
    assert!(block.instructions()[2].is_load());
    assert!(block.instructions()[3].is_brc());
    assert!(block.instructions()[4].is_raise());
    for instruction in block.instructions() {
        assert_eq!(instruction.address(), None);
        assert_eq!(instruction.comment(), &None);
    }
}

#[test]
fn a_rejected_operation_leaves_the_block_as_it_was() {
    let mut block = Block::new(0);
    block.raise(expr_const(0, 8));
    let before = block.clone();
    assert_eq!(block.assign(scalar("a", 8), expr_const(1, 16)), Err(Error::Sort));
    assert_eq!(block.store(array("m", 8), expr_const(0, 8), expr_const(1, 3)), Err(Error::Sort));
    assert_eq!(block.load(scalar("a", 9), expr_const(0, 8), array("m", 8)), Err(Error::Sort));
    assert_eq!(block.brc(expr_const(0, 8), expr_const(1, 8)), Err(Error::Sort));
    assert_eq!(block, before);
    assert_eq!(block.raise(expr_const(0, 8)), 1);
}

#[test]
fn an_instruction_made_elsewhere_keeps_its_index() {
    let mut block = Block::new(0);
    block.raise(expr_const(0, 8));
    assert_eq!(block.push(Instruction::raise(7, expr_const(1, 8))), Ok(()));
    assert_eq!(indices(&block), vec![0, 7]);
    // The next index lies above every index that the block holds.
    assert_eq!(block.raise(expr_const(2, 8)), 8);
    assert_eq!(block.push(Instruction::raise(3, expr_const(3, 8))), Ok(()));
    assert_eq!(block.raise(expr_const(4, 8)), 9);
    assert_eq!(indices(&block), vec![0, 7, 8, 3, 9]);
}

#[test]
fn an_index_is_used_once() {
    let mut block = Block::new(0);
    block.raise(expr_const(0, 8));
    block.raise(expr_const(1, 8));
    let before = block.clone();
    assert_eq!(
        block.push(Instruction::raise(1, expr_const(9, 8))),
        Err(Error::InstructionIndexCollision)
    );
    assert_eq!(block, before);
}

#[test]
fn the_greatest_index_can_be_held() {
    let mut block = Block::new(0);
    assert_eq!(block.push(Instruction::raise(u64::MAX, expr_const(0, 8))), Ok(()));
    assert_eq!(
        block.push(Instruction::raise(u64::MAX, expr_const(0, 8))),
        Err(Error::InstructionIndexCollision)
    );
    assert_eq!(block.push(Instruction::raise(0, expr_const(0, 8))), Ok(()));
    assert_eq!(indices(&block), vec![u64::MAX, 0]);
}

#[test]
fn an_instruction_is_found_by_its_index() {
    let mut block = Block::new(0);
    block.raise(expr_const(0, 8));
    block.push(Instruction::raise(5, expr_const(1, 8))).unwrap();
    assert_eq!(block.instruction(5), Some(&Instruction::raise(5, expr_const(1, 8))));
    assert_eq!(block.instruction(0), Some(&Instruction::raise(0, expr_const(0, 8))));
    assert_eq!(block.instruction(1), None);
    block.instruction_mut(5).unwrap().set_address(Some(0x40));
    assert_eq!(block.instruction(5).unwrap().address(), Some(0x40));
    assert_eq!(block.instruction(0).unwrap().address(), None);
    assert!(block.instruction_mut(6).is_none());
}

#[test]
fn appended_instructions_get_fresh_indices() {
    let mut first = Block::new(0);
    first.raise(expr_const(0, 8));
    first.raise(expr_const(1, 8));
    let mut second = Block::new(1);
    second.raise(expr_const(2, 8));
    second.push(Instruction::raise(9, expr_const(3, 8))).unwrap();
    second.instruction_mut(9).unwrap().set_comment(Some(String::from("kept")));
    first.append(&second);
    assert_eq!(first.index(), 0);
    assert_eq!(indices(&first), vec![0, 1, 2, 3]);
    assert_eq!(first.instructions()[2].operation(), second.instructions()[0].operation());
    assert_eq!(first.instructions()[3].operation(), second.instructions()[1].operation());
    assert_eq!(first.instructions()[3].comment(), &Some(String::from("kept")));
    assert_eq!(indices(&second), vec![0, 9]);
    assert_eq!(first.raise(expr_const(4, 8)), 4);
}

#[test]
fn a_copy_of_a_block_under_a_new_index_keeps_its_instructions() {
    let mut block = Block::new(0);
    block.raise(expr_const(0, 8));
    block.push(Instruction::raise(9, expr_const(3, 8))).unwrap();
    let mut copy = block.clone_new_index(5);
    assert_eq!(copy.index(), 5);
    assert_eq!(copy.instructions(), block.instructions());
    assert_eq!(copy.raise(expr_const(0, 8)), 10);
}
