use circuit_samples::circuit::Layouter;
use circuit_samples::field::Fe;
use circuit_samples::plonk::{Column, ConstraintSystem, Expression, Instance, Rotation, Selector};

/// A system with one advice column and one gate: the cell equals the one
/// below it.
fn repeat_system() -> (ConstraintSystem, circuit_samples::plonk::Advice, Selector) {
    let mut cs = ConstraintSystem::new();
    let a = cs.advice_column();
    let e = Expression::difference(
        Expression::advice(a, Rotation::cur()),
        Expression::advice(a, Rotation::next()),
    );
    let s = cs.create_gate("repeat", vec![e]);
    (cs, a, s)
}

#[test]
fn columns_are_numbered_in_order() {
    let mut cs = ConstraintSystem::new();
    assert_eq!(cs.advice_column().index, 0);
    assert_eq!(cs.advice_column().index, 1);
    assert_eq!(cs.fixed_column().index, 0);
    assert_eq!(cs.instance_column().index, 0);
    let more = cs.advice_columns(3);
    assert_eq!(more.iter().map(|c| c.index).collect::<Vec<_>>(), vec![2, 3, 4]);
    let fixed = cs.fixed_columns(2);
    assert_eq!(fixed.iter().map(|c| c.index).collect::<Vec<_>>(), vec![1, 2]);
    assert_eq!(cs.num_advice, 5);
    assert_eq!(cs.num_fixed, 3);
    assert_eq!(cs.num_instance, 1);
}

#[test]
fn gates_get_their_selectors_in_order() {
    let (mut cs, a, s) = repeat_system();
    assert_eq!(s.index, 0);
    let t = cs.create_gate("zero", vec![Expression::advice(a, Rotation::cur())]);
    assert_eq!(t.index, 1);
    assert_eq!(cs.gates.len(), 2);
    assert_eq!(cs.gates[0].name, "repeat");
    assert_eq!(cs.gates[1].polys.len(), 1);
}

#[test]
fn enable_equality_records_the_column() {
    let mut cs = ConstraintSystem::new();
    let a = cs.advice_column();
    let i = cs.instance_column();
    cs.enable_equality(Column::Instance(i));
    cs.enable_equality(Column::Advice(a));
    assert_eq!(cs.equality.len(), 2);
    assert!(matches!(cs.equality[0], Column::Instance(c) if c.index == 0));
    assert!(matches!(cs.equality[1], Column::Advice(c) if c.index == 0));
}

#[test]
fn an_empty_table_is_satisfied() {
    let (cs, _, _) = repeat_system();
    let layouter = Layouter::new(cs, vec![]);
    assert_eq!(layouter.rows(), 0);
    assert!(layouter.satisfied());
}

#[test]
fn a_gate_holds_where_its_identity_is_zero() {
    let (cs, a, s) = repeat_system();
    let mut layouter = Layouter::new(cs, vec![]);
    layouter.start_region();
    layouter.enable_selector(s, 0);
    layouter.assign_advice(a, 0, Fe::from_u64(9));
    layouter.assign_advice(a, 1, Fe::from_u64(9));
    assert_eq!(layouter.rows(), 2);
    assert!(layouter.is_enabled(0, 0));
    assert!(!layouter.is_enabled(0, 1));
    assert!(layouter.gate_holds(0, 0));
    assert!(layouter.satisfied());
}

#[test]
fn a_gate_fails_where_its_identity_is_not_zero() {
    let (cs, a, s) = repeat_system();
    let mut layouter = Layouter::new(cs, vec![]);
    layouter.start_region();
    layouter.enable_selector(s, 0);
    layouter.assign_advice(a, 0, Fe::from_u64(9));
    layouter.assign_advice(a, 1, Fe::from_u64(8));
    assert!(!layouter.gate_holds(0, 0));
    assert!(!layouter.satisfied());
}

#[test]
fn a_gate_fails_on_a_cell_that_is_not_assigned() {
    let (cs, a, s) = repeat_system();
    let mut layouter = Layouter::new(cs, vec![]);
    layouter.start_region();
    layouter.enable_selector(s, 0);
    layouter.assign_advice(a, 0, Fe::zero());
    assert!(!layouter.satisfied());
}

#[test]
fn a_gate_that_is_not_enabled_asks_nothing() {
    let (cs, a, _) = repeat_system();
    let mut layouter = Layouter::new(cs, vec![]);
    layouter.start_region();
    layouter.assign_advice(a, 0, Fe::from_u64(1));
    layouter.assign_advice(a, 1, Fe::from_u64(2));
    assert!(layouter.satisfied());
}

#[test]
fn regions_follow_one_another() {
    let (cs, a, _) = repeat_system();
    let mut layouter = Layouter::new(cs, vec![]);
    layouter.start_region();
    let first = layouter.assign_advice(a, 2, Fe::from_u64(1));
    assert_eq!(first.row, 2);
    assert_eq!(layouter.rows(), 3);
    layouter.start_region();
    let second = layouter.assign_advice(a, 0, Fe::from_u64(2));
    assert_eq!(second.row, 3);
    assert_eq!(second.column.index, a.index);
    assert!(second.value.eq(&Fe::from_u64(2)));
    assert_eq!(layouter.rows(), 4);
    assert!(layouter.advice_value(a.index, 2).unwrap().eq(&Fe::from_u64(1)));
    assert!(layouter.advice_value(a.index, 0).is_none());
    assert!(layouter.advice_value(a.index + 1, 2).is_none());
}

#[test]
fn evaluate_follows_the_polynomial() {
    let mut cs = ConstraintSystem::new();
    let a = cs.advice_column();
    let f = cs.fixed_column();
    let mut layouter = Layouter::new(cs, vec![]);
    layouter.start_region();
    layouter.assign_advice(a, 0, Fe::from_u64(3));
    layouter.assign_advice(a, 1, Fe::from_u64(4));
    layouter.assign_fixed(f, 1, Fe::from_u64(5));
    let prev = Expression::advice(a, Rotation::prev());
    let cur = Expression::advice(a, Rotation::cur());
    let fixed = Expression::fixed(f, Rotation::cur());
    // 3 * 4 + 5 = 17 on row 1
    let e = Expression::sum(Expression::product(prev.clone(), cur.clone()), fixed.clone());
    assert!(layouter.evaluate(&e, 1).unwrap().eq(&Fe::from_u64(17)));
    // 2 * (4 - 3) = 2
    let e = Expression::scaled(Expression::difference(cur.clone(), prev.clone()), Fe::from_u64(2));
    assert!(layouter.evaluate(&e, 1).unwrap().eq(&Fe::from_u64(2)));
    // -(4) + 4 = 0
    let e = Expression::sum(Expression::negated(cur.clone()), cur.clone());
    assert!(layouter.evaluate(&e, 1).unwrap().is_zero());
    let six = Expression::constant(Fe::from_u64(6));
    assert!(layouter.evaluate(&six, 0).unwrap().eq(&Fe::from_u64(6)));
    // the row before the first, and a fixed cell that is not assigned
    assert!(layouter.evaluate(&prev, 0).is_none());
    assert!(layouter.evaluate(&fixed, 0).is_none());
    assert!(layouter.evaluate(&Expression::sum(cur, fixed), 0).is_none());
    assert!(layouter.fixed_value(f.index, 1).unwrap().eq(&Fe::from_u64(5)));
}

#[test]
fn duplicate_copies_an_expression() {
    let mut cs = ConstraintSystem::new();
    let a = cs.advice_column();
    let e = Expression::product(
        Expression::advice(a, Rotation(2)),
        Expression::constant(Fe::from_u64(7)),
    );
    let d = e.duplicate();
    let mut layouter = Layouter::new(cs, vec![]);
    layouter.start_region();
    layouter.assign_advice(a, 2, Fe::from_u64(3));
    assert!(layouter.evaluate(&d, 0).unwrap().eq(&Fe::from_u64(21)));
    assert!(layouter.evaluate(&e, 0).unwrap().eq(&Fe::from_u64(21)));
}

#[test]
fn copy_advice_constrains_the_copy() {
    let (cs, a, _) = repeat_system();
    let mut layouter = Layouter::new(cs, vec![]);
    layouter.start_region();
    let source = layouter.assign_advice(a, 0, Fe::from_u64(5));
    let copy = layouter.copy_advice(&source, a, 1);
    assert!(copy.value.eq(&Fe::from_u64(5)));
    assert_eq!(copy.row, 1);
    assert_eq!(layouter.num_copies(), 1);
    assert_eq!(layouter.copy(0), ((a.index, 1), (a.index, 0)));
    assert!(layouter.satisfied());
}

#[test]
fn cells_constrained_equal_must_hold_one_value() {
    let (cs, a, _) = repeat_system();
    let mut layouter = Layouter::new(cs, vec![]);
    layouter.start_region();
    let x = layouter.assign_advice(a, 0, Fe::from_u64(5));
    let y = layouter.assign_advice(a, 1, Fe::from_u64(6));
    let z = layouter.assign_advice(a, 2, Fe::from_u64(5));
    layouter.constrain_equal(&x, &z);
    assert!(layouter.satisfied());
    layouter.constrain_equal(&x, &y);
    assert!(!layouter.satisfied());
}

#[test]
fn an_instance_column_holds_zero_beyond_what_is_given() {
    let mut cs = ConstraintSystem::new();
    let a = cs.advice_column();
    let i = cs.instance_column();
    let mut layouter = Layouter::new(cs, vec![vec![Fe::from_u64(4)]]);
    assert!(layouter.instance_value(i, 0).eq(&Fe::from_u64(4)));
    assert!(layouter.instance_value(i, 1).is_zero());
    assert!(layouter.instance_value(Instance { index: 3 }, 0).is_zero());
    layouter.start_region();
    let cell = layouter.assign_advice_from_instance(i, 0, a, 0);
    assert!(cell.value.eq(&Fe::from_u64(4)));
    let beyond = layouter.assign_advice_from_instance(i, 5, a, 1);
    assert!(beyond.value.is_zero());
    assert_eq!(layouter.num_exposed(), 2);
    assert_eq!(layouter.exposure(1), ((a.index, 1), (i.index, 5)));
    assert!(layouter.satisfied());
}

#[test]
fn constrain_instance_binds_a_cell_to_a_public_input() {
    let mut cs = ConstraintSystem::new();
    let a = cs.advice_column();
    let i = cs.instance_column();
    let mut layouter = Layouter::new(cs, vec![vec![Fe::from_u64(4), Fe::from_u64(6)]]);
    layouter.start_region();
    let cell = layouter.assign_advice(a, 0, Fe::from_u64(6));
    let mut bound = layouter.clone();
    bound.constrain_instance(&cell, i, 1);
    assert!(bound.satisfied());
    layouter.constrain_instance(&cell, i, 0);
    assert!(!layouter.satisfied());
}

#[test]
fn the_layouter_keeps_its_constraint_system() {
    let (cs, _, _) = repeat_system();
    let layouter = Layouter::new(cs, vec![]);
    let kept = layouter.constraint_system();
    assert_eq!(kept.num_advice, 1);
    assert_eq!(kept.gates.len(), 1);
}

#[test]
fn rotations_are_offsets() {
    assert_eq!(Rotation::cur().0, 0);
    assert_eq!(Rotation::prev().0, -1);
    assert_eq!(Rotation::next().0, 1);
}

#[test]
fn a_table_keeps_to_its_constraint_system() {
    let mut cs = ConstraintSystem::new();
    let a = cs.advice_column();
    let b = cs.advice_column();
    let f = cs.fixed_column();
    let i = cs.instance_column();
    let s = cs.create_gate("zero", vec![Expression::advice(a, Rotation::cur())]);
    cs.enable_equality(Column::Advice(a));
    cs.enable_equality(Column::Instance(i));
    assert!(cs.advice_tied(a.index));
    assert!(!cs.advice_tied(b.index));
    assert!(cs.instance_tied(i.index));
    assert!(!cs.instance_tied(1));

    let mut table = Layouter::new(cs, vec![vec![]]);
    table.start_region();
    table.enable_selector(s, 0);
    let x = table.assign_advice(a, 0, Fe::zero());
    let y = table.copy_advice(&x, a, 1);
    let z = table.assign_advice(b, 0, Fe::zero());
    table.assign_fixed(f, 0, Fe::one());
    table.constrain_instance(&y, i, 3);
    assert!(table.supported());

    // a column that was not allocated
    let mut other = table.clone();
    other.assign_advice(circuit_samples::plonk::Advice { index: 2 }, 0, Fe::zero());
    assert!(!other.supported());
    let mut other = table.clone();
    other.assign_fixed(circuit_samples::plonk::Fixed { index: 1 }, 5, Fe::zero());
    assert!(!other.supported());
    // a gate that was not declared
    let mut other = table.clone();
    other.enable_selector(Selector { index: 1 }, 0);
    assert!(!other.supported());
    // a column that takes no part in equality constraints
    let mut other = table.clone();
    other.constrain_equal(&x, &z);
    assert!(!other.supported());
    let mut other = table.clone();
    other.constrain_instance(&z, i, 0);
    assert!(!other.supported());
    let mut other = table.clone();
    other.constrain_instance(&x, Instance { index: 1 }, 0);
    assert!(!other.supported());
    assert!(table.supported());
}
