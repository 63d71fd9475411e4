use falcon::error::Error;
use falcon::il::{array, expr_const, expr_scalar, scalar, Expression, Operation, Variable, VariableMut};

#[test]
fn assign_needs_equal_widths() {
    assert_eq!(
        Operation::assign(scalar("a", 32), expr_scalar("b", 32)),
        Ok(Operation::Assign { dst: scalar("a", 32), src: expr_scalar("b", 32) })
    );
    assert_eq!(Operation::assign(scalar("a", 32), expr_scalar("b", 16)), Err(Error::Sort));
    assert_eq!(Operation::assign(scalar("a", 8), expr_scalar("b", 16)), Err(Error::Sort));
}

#[test]
fn store_moves_whole_bytes() {
    let stored = Operation::store(array("mem", 1 << 32), expr_scalar("p", 32), expr_scalar("v", 16));
    assert_eq!(
        stored,
        Ok(Operation::Store {
            dst: array("mem", 1 << 32),
            index: expr_scalar("p", 32),
            src: expr_scalar("v", 16),
        })
    );
    assert_eq!(stored.unwrap().transfer_size(), Some(2));
    assert_eq!(
        Operation::store(array("mem", 1 << 32), expr_scalar("p", 32), expr_scalar("v", 12)),
        Err(Error::Sort)
    );
    assert_eq!(
        Operation::store(array("mem", 1 << 32), expr_scalar("p", 32), expr_scalar("v", 1)),
        Err(Error::Sort)
    );
}

#[test]
fn load_moves_whole_bytes() {
    let loaded = Operation::load(scalar("v", 64), expr_scalar("p", 32), array("mem", 1 << 32));
    assert_eq!(
        loaded,
        Ok(Operation::Load {
            dst: scalar("v", 64),
            index: expr_scalar("p", 32),
            src: array("mem", 1 << 32),
        })
    );
    assert_eq!(loaded.unwrap().transfer_size(), Some(8));
    assert_eq!(
        Operation::load(scalar("v", 7), expr_scalar("p", 32), array("mem", 1 << 32)),
        Err(Error::Sort)
    );
}

#[test]
fn brc_needs_a_condition_of_one_bit() {
    assert_eq!(
        Operation::brc(expr_scalar("t", 32), expr_scalar("c", 1)),
        Ok(Operation::Brc { target: expr_scalar("t", 32), condition: expr_scalar("c", 1) })
    );
    assert_eq!(Operation::brc(expr_scalar("t", 32), expr_scalar("c", 8)), Err(Error::Sort));
}

#[test]
fn raise_takes_any_expression() {
    assert_eq!(
        Operation::raise(expr_const(3, 17)),
        Operation::Raise { expr: expr_const(3, 17) }
    );
    assert_eq!(Operation::raise(expr_const(3, 17)).transfer_size(), None);
}

#[test]
fn operations_know_their_kind() {
    let assign = Operation::assign(scalar("a", 8), expr_const(1, 8)).unwrap();
    let store = Operation::store(array("m", 16), expr_const(1, 8), expr_const(1, 8)).unwrap();
    let load = Operation::load(scalar("a", 8), expr_const(1, 8), array("m", 16)).unwrap();
    let brc = Operation::brc(expr_const(1, 8), expr_const(1, 1)).unwrap();
    let raise = Operation::raise(expr_const(1, 8));
    let kinds = |o: &Operation| [o.is_assign(), o.is_store(), o.is_load(), o.is_brc(), o.is_raise()];
    assert_eq!(kinds(&assign), [true, false, false, false, false]);
    assert_eq!(kinds(&store), [false, true, false, false, false]);
    assert_eq!(kinds(&load), [false, false, true, false, false]);
    assert_eq!(kinds(&brc), [false, false, false, true, false]);
    assert_eq!(kinds(&raise), [false, false, false, false, true]);
}

#[test]
fn the_variable_written_is_the_destination() {
    let assign = Operation::assign(scalar("a", 8), expr_scalar("b", 8)).unwrap();
    assert_eq!(assign.variable_written(), Some(Variable::Scalar(&scalar("a", 8))));
    let store = Operation::store(array("m", 16), expr_scalar("p", 8), expr_scalar("v", 8)).unwrap();
    assert_eq!(store.variable_written(), Some(Variable::Array(&array("m", 16))));
    let load = Operation::load(scalar("a", 8), expr_scalar("p", 8), array("m", 16)).unwrap();
    assert_eq!(load.variable_written(), Some(Variable::Scalar(&scalar("a", 8))));
    let brc = Operation::brc(expr_scalar("t", 8), expr_scalar("c", 1)).unwrap();
    assert_eq!(brc.variable_written(), None);
    assert_eq!(Operation::raise(expr_scalar("e", 8)).variable_written(), None);
}

#[test]
fn the_variables_read_come_in_order() {
    let a = scalar("a", 8);
    let b = scalar("b", 8);
    let p = scalar("p", 8);
    let m = array("m", 16);
    let sum = Expression::add(expr_scalar("a", 8), expr_scalar("b", 8)).unwrap();

    let assign = Operation::assign(scalar("d", 8), sum.clone()).unwrap();
    assert_eq!(assign.variables_read(), vec![Variable::Scalar(&a), Variable::Scalar(&b)]);

    let store = Operation::store(array("m", 16), expr_scalar("p", 8), sum.clone()).unwrap();
    assert_eq!(
        store.variables_read(),
        vec![Variable::Array(&m), Variable::Scalar(&p), Variable::Scalar(&a), Variable::Scalar(&b)]
    );

    let load = Operation::load(scalar("d", 8), sum.clone(), array("m", 16)).unwrap();
    assert_eq!(
        load.variables_read(),
        vec![Variable::Array(&m), Variable::Scalar(&a), Variable::Scalar(&b)]
    );

    let brc = Operation::brc(expr_scalar("p", 8), expr_scalar("c", 1)).unwrap();
    assert_eq!(
        brc.variables_read(),
        vec![Variable::Scalar(&p), Variable::Scalar(&scalar("c", 1))]
    );

    let raise = Operation::raise(sum);
    assert_eq!(raise.variables_read(), vec![Variable::Scalar(&a), Variable::Scalar(&b)]);

    let constant = Operation::raise(expr_const(1, 8));
    assert!(constant.variables_read().is_empty());
}

#[test]
fn variables_have_a_name_and_an_ssa_index() {
    let mut a = scalar("a", 8);
    a.set_ssa(Some(2));
    let m = array("m", 16);
    assert_eq!(Variable::Scalar(&a).name(), "a");
    assert_eq!(Variable::Scalar(&a).ssa(), Some(2));
    assert_eq!(Variable::Array(&m).name(), "m");
    assert_eq!(Variable::Array(&m).ssa(), None);
    assert_eq!(m.size(), 16);
    assert_eq!(a.bits(), 8);
}

#[test]
fn the_variable_written_is_renamed_in_its_place() {
    let mut assign = Operation::assign(scalar("a", 8), expr_scalar("b", 8)).unwrap();
    assign.variable_written_mut().unwrap().set_ssa(Some(1));
    let mut a = scalar("a", 8);
    a.set_ssa(Some(1));
    assert_eq!(assign, Operation::Assign { dst: a, src: expr_scalar("b", 8) });

    let mut store = Operation::store(array("m", 16), expr_scalar("p", 8), expr_scalar("v", 8)).unwrap();
    match store.variable_written_mut() {
        Some(VariableMut::Array(place)) => place.set_ssa(Some(3)),
        _ => panic!("a store writes its array"),
    }
    let mut m = array("m", 16);
    m.set_ssa(Some(3));
    assert_eq!(
        store,
        Operation::Store { dst: m, index: expr_scalar("p", 8), src: expr_scalar("v", 8) }
    );

    let mut raise = Operation::raise(expr_scalar("e", 8));
    assert!(raise.variable_written_mut().is_none());
}

#[test]
fn the_variables_read_are_renamed_in_their_place() {
    let sum = Expression::add(expr_scalar("a", 8), expr_scalar("b", 8)).unwrap();
    let mut store = Operation::store(array("m", 16), expr_scalar("p", 8), sum).unwrap();
    let mut position = 0;
    while let Some(variable) = store.variables_read_mut(position) {
        let name = String::from(variable.name());
        assert_eq!(name, ["m", "p", "a", "b"][position]);
        assert_eq!(variable.ssa(), None);
        variable.set_ssa(Some(position as u32));
        position += 1;
    }
    assert_eq!(position, 4);
    let with = |name: &str, ssa: u32| {
        let mut s = scalar(name, 8);
        s.set_ssa(Some(ssa));
        Expression::scalar(s)
    };
    let mut m = array("m", 16);
    m.set_ssa(Some(0));
    assert_eq!(
        store,
        Operation::Store {
            dst: m,
            index: with("p", 1),
            src: Expression::add(with("a", 2), with("b", 3)).unwrap(),
        }
    );
    // A store reads and writes one and the same array.
    assert_eq!(store.variable_written().unwrap().ssa(), Some(0));
}

#[test]
fn a_branch_is_renamed_in_target_and_condition() {
    let mut brc = Operation::brc(expr_scalar("t", 8), expr_scalar("c", 1)).unwrap();
    brc.variables_read_mut(1).unwrap().set_ssa(Some(9));
    assert!(brc.variables_read_mut(2).is_none());
    let mut c = scalar("c", 1);
    c.set_ssa(Some(9));
    assert_eq!(
        brc,
        Operation::Brc { target: expr_scalar("t", 8), condition: Expression::scalar(c) }
    );
}

#[test]
fn operations_render() {
    let assign = Operation::assign(scalar("a", 8), expr_const(1, 8)).unwrap();
    assert_eq!(assign.render(), "a:8 = 0x1:8");
    let store = Operation::store(array("m", 16), expr_scalar("p", 8), expr_scalar("v", 8)).unwrap();
    assert_eq!(store.render(), "m[p:8] = v:8");
    let load = Operation::load(scalar("a", 8), expr_scalar("p", 8), array("m", 16)).unwrap();
    assert_eq!(load.render(), "a:8 = m[p:8]");
    let brc = Operation::brc(expr_scalar("t", 8), expr_scalar("c", 1)).unwrap();
    assert_eq!(brc.render(), "brc t:8 ? c:1");
    assert_eq!(Operation::raise(expr_scalar("e", 8)).render(), "raise(e:8)");
    let mut m = array("m", 16);
    m.set_ssa(Some(7));
    assert_eq!(m.render(), "m_7");
}
