//! The constraint system: columns, polynomial expressions over cells at
//! relative rows, gates, and the table of assigned values that a proof system
//! is handed, with what it means for a table to satisfy its gates.

use crate::field::{fadd, fmul, fneg, modulus, Fe};
use vstd::prelude::*;

verus! {

/// An advice (witness) column.
#[derive(Clone, Copy, Debug)]
pub struct Advice {
    pub index: usize,
}

/// A fixed (constant) column.
#[derive(Clone, Copy, Debug)]
pub struct Fixed {
    pub index: usize,
}

/// An instance (public input) column.
#[derive(Clone, Copy, Debug)]
pub struct Instance {
    pub index: usize,
}

/// A column of any kind.
#[derive(Clone, Copy, Debug)]
pub enum Column {
    Advice(Advice),
    Fixed(Fixed),
    Instance(Instance),
}

/// The switch of one gate, whose identities are enforced on the rows where the
/// selector is enabled. `index` is that gate's position in the constraint
/// system.
#[derive(Clone, Copy, Debug)]
pub struct Selector {
    pub index: usize,
}

/// A row offset relative to the row on which a gate is enabled.
#[derive(Clone, Copy, Debug)]
pub struct Rotation(pub i32);

impl Rotation {
    /// The row itself.
    pub fn cur() -> (r: Rotation)
        ensures
            r.0 == 0,
    {
        Rotation(0)
    }

    /// The row above.
    pub fn prev() -> (r: Rotation)
        ensures
            r.0 == -1,
    {
        Rotation(-1)
    }

    /// The row below.
    pub fn next() -> (r: Rotation)
        ensures
            r.0 == 1,
    {
        Rotation(1)
    }
}

/// A polynomial over the cells around a row.
#[allow(inconsistent_fields)]
#[derive(Debug)]
pub enum Expression {
    Constant(Fe),
    Fixed { column: Fixed, rotation: Rotation },
    Advice { column: Advice, rotation: Rotation },
    Negated(Box<Expression>),
    Sum(Box<Expression>, Box<Expression>),
    Product(Box<Expression>, Box<Expression>),
    Scaled(Box<Expression>, Fe),
}

/// What a proof system is handed: the gates, the assigned cells, the rows on
/// which each gate is enabled, the public inputs, and the pairs of cells that
/// are constrained to be equal. A cell is named by its column and its row.
pub struct Table {
    /// The number of advice columns.
    pub num_advice: nat,
    /// The number of fixed columns.
    pub num_fixed: nat,
    /// The number of instance columns.
    pub num_instance: nat,
    /// The columns that take part in equality constraints.
    pub equality: Seq<Column>,
    /// The identities of each gate.
    pub gates: Seq<Seq<Expression>>,
    /// The advice cells that are assigned, with their values.
    pub advice: Map<(int, int), nat>,
    /// The fixed cells that are assigned, with their values.
    pub fixed: Map<(int, int), nat>,
    /// The pairs of a gate and a row on which it is enabled.
    pub enabled: Set<(int, int)>,
    /// The public inputs, column by column. Beyond what is given a column
    /// holds zero.
    pub instance: Seq<Seq<nat>>,
    /// Pairs of advice cells constrained to be equal.
    pub copies: Seq<((int, int), (int, int))>,
    /// Pairs of an advice cell and an instance cell constrained to be equal.
    pub exposed: Seq<((int, int), (int, int))>,
    /// Every assigned cell and every enabled gate lies on a row below this.
    pub rows: nat,
}

impl Table {
    /// The value of an advice cell, if it is assigned.
    pub open spec fn advice_at(self, column: int, row: int) -> Option<nat> {
        if self.advice.contains_key((column, row)) {
            Some(self.advice[(column, row)])
        } else {
            None
        }
    }

    /// The value of a fixed cell, if it is assigned.
    pub open spec fn fixed_at(self, column: int, row: int) -> Option<nat> {
        if self.fixed.contains_key((column, row)) {
            Some(self.fixed[(column, row)])
        } else {
            None
        }
    }

    /// The public input in a cell of an instance column: what was given, and
    /// zero beyond that.
    pub open spec fn instance_at(self, column: int, row: int) -> nat {
        if 0 <= column < self.instance.len() && 0 <= row < self.instance[column].len() {
            self.instance[column][row]
        } else {
            0
        }
    }

    /// The public inputs of a column from row `from` on, `len` of them.
    pub open spec fn public_values(self, column: int, from: int, len: int) -> Seq<nat> {
        Seq::new(len as nat, |i: int| self.instance_at(column, from + i))
    }

    /// Rows are within bounds and values are below the order of the field.
    pub open spec fn wf(self) -> bool {
        &&& forall|c: int, r: int| #[trigger]
            self.advice.contains_key((c, r)) ==> 0 <= r < self.rows && self.advice[(c, r)]
                < modulus()
        &&& forall|c: int, r: int| #[trigger]
            self.fixed.contains_key((c, r)) ==> 0 <= r < self.rows && self.fixed[(c, r)]
                < modulus()
        &&& forall|g: int, r: int| #[trigger] self.enabled.contains((g, r)) ==> 0 <= r < self.rows
        &&& forall|c: int, r: int|
            0 <= c < self.instance.len() && 0 <= r < self.instance[c].len()
                ==> #[trigger] self.instance[c][r] < modulus()
    }

    /// The table with an advice cell assigned.
    pub open spec fn assign_advice(self, column: int, row: int, value: nat) -> Table {
        Table {
            advice: self.advice.insert((column, row), value),
            rows: if row < self.rows {
                self.rows
            } else {
                (row + 1) as nat
            },
            ..self
        }
    }

    /// The table with a fixed cell assigned.
    pub open spec fn assign_fixed(self, column: int, row: int, value: nat) -> Table {
        Table {
            fixed: self.fixed.insert((column, row), value),
            rows: if row < self.rows {
                self.rows
            } else {
                (row + 1) as nat
            },
            ..self
        }
    }

    /// The table with a gate enabled on a row.
    pub open spec fn enable(self, gate: int, row: int) -> Table {
        Table {
            enabled: self.enabled.insert((gate, row)),
            rows: if row < self.rows {
                self.rows
            } else {
                (row + 1) as nat
            },
            ..self
        }
    }

    /// The table with two advice cells constrained to be equal.
    pub open spec fn constrain_equal(self, a: (int, int), b: (int, int)) -> Table {
        Table { copies: self.copies.push((a, b)), ..self }
    }

    /// The table with an advice cell constrained to equal a public input.
    pub open spec fn constrain_instance(self, cell: (int, int), instance: (int, int)) -> Table {
        Table { exposed: self.exposed.push((cell, instance)), ..self }
    }

    /// Every identity of a gate evaluates to zero on the row.
    pub open spec fn gate_holds(self, gate: int, row: int) -> bool {
        holds_at(self.gates[gate], self, row)
    }

    /// Every gate holds on every row on which it is enabled.
    pub open spec fn gates_hold(self) -> bool {
        forall|g: int, row: int|
            0 <= g < self.gates.len() && #[trigger] self.enabled.contains((g, row))
                ==> self.gate_holds(g, row)
    }

    /// The two advice cells are assigned one value.
    pub open spec fn cells_equal(self, a: (int, int), b: (int, int)) -> bool {
        &&& self.advice.contains_key(a)
        &&& self.advice.contains_key(b)
        &&& self.advice[a] == self.advice[b]
    }

    /// The cells of the `i`-th pair of advice cells are equal.
    pub open spec fn copy_holds(self, i: int) -> bool {
        self.cells_equal(self.copies[i].0, self.copies[i].1)
    }

    /// The advice cell of the `i`-th binding equals its public input.
    pub open spec fn exposure_holds(self, i: int) -> bool {
        self.advice_at(self.exposed[i].0.0, self.exposed[i].0.1) == Some(
            self.instance_at(self.exposed[i].1.0, self.exposed[i].1.1),
        )
    }

    /// Every pair of advice cells constrained to be equal is.
    pub open spec fn copies_hold(self) -> bool {
        forall|i: int| 0 <= i < self.copies.len() ==> #[trigger] self.copy_holds(i)
    }

    /// Every advice cell bound to a public input equals it.
    pub open spec fn exposed_hold(self) -> bool {
        forall|i: int| 0 <= i < self.exposed.len() ==> #[trigger] self.exposure_holds(i)
    }

    /// The table satisfies its constraint system: every gate holds on every row
    /// on which it is enabled, and every pair of cells that is constrained to
    /// be equal is.
    pub open spec fn satisfied(self) -> bool {
        &&& self.gates_hold()
        &&& self.copies_hold()
        &&& self.exposed_hold()
    }

    /// The advice column takes part in equality constraints.
    pub open spec fn advice_tied(self, column: int) -> bool {
        exists|i: int|
            0 <= i < self.equality.len() && (#[trigger] self.equality[i] matches Column::Advice(c)
                && c.index == column)
    }

    /// The instance column takes part in equality constraints.
    pub open spec fn instance_tied(self, column: int) -> bool {
        exists|i: int|
            0 <= i < self.equality.len() && (#[trigger] self.equality[i] matches Column::Instance(
                c,
            ) && c.index == column)
    }

    /// Cells of the advice column can be assigned and copied.
    pub open spec fn takes_advice(self, column: int) -> bool {
        0 <= column < self.num_advice && self.advice_tied(column)
    }

    /// Cells can be bound to the instance column.
    pub open spec fn takes_instance(self, column: int) -> bool {
        0 <= column < self.num_instance && self.instance_tied(column)
    }

    /// The table keeps to its constraint system: every assigned cell lies in
    /// a column that was allocated, every gate that is enabled was declared,
    /// and every equality constraint is between columns that take part in
    /// equality constraints.
    pub open spec fn supported(self) -> bool {
        &&& forall|c: int, r: int| #[trigger]
            self.advice.contains_key((c, r)) ==> 0 <= c < self.num_advice
        &&& forall|c: int, r: int| #[trigger]
            self.fixed.contains_key((c, r)) ==> 0 <= c < self.num_fixed
        &&& forall|g: int, r: int| #[trigger]
            self.enabled.contains((g, r)) ==> 0 <= g < self.gates.len()
        &&& forall|i: int|
            0 <= i < self.copies.len() ==> self.advice_tied((#[trigger] self.copies[i]).0.0)
                && self.advice_tied(self.copies[i].1.0)
        &&& forall|i: int|
            0 <= i < self.exposed.len() ==> self.advice_tied((#[trigger] self.exposed[i]).0.0)
                && self.instance_tied(self.exposed[i].1.0) && self.exposed[i].1.0
                < self.num_instance
    }

    /// `self` is `old` with more cells assigned, more gates enabled and more
    /// equality constraints: nothing that `old` holds was changed.
    pub open spec fn extends(self, old: Table) -> bool {
        &&& self.num_advice == old.num_advice
        &&& self.num_fixed == old.num_fixed
        &&& self.num_instance == old.num_instance
        &&& self.equality == old.equality
        &&& self.gates == old.gates
        &&& self.instance == old.instance
        &&& old.rows <= self.rows
        &&& forall|c: int, r: int| #[trigger]
            old.advice.contains_key((c, r)) ==> self.advice.contains_key((c, r))
                && self.advice[(c, r)] == old.advice[(c, r)]
        &&& forall|c: int, r: int| #[trigger]
            old.fixed.contains_key((c, r)) ==> self.fixed.contains_key((c, r)) && self.fixed[(
                c,
                r,
            )] == old.fixed[(c, r)]
        &&& forall|g: int, r: int| #[trigger]
            old.enabled.contains((g, r)) ==> self.enabled.contains((g, r))
        &&& old.copies.is_prefix_of(self.copies)
        &&& old.exposed.is_prefix_of(self.exposed)
    }
}

/// Every one of the identities evaluates to zero on the row.
pub open spec fn holds_at(polys: Seq<Expression>, t: Table, row: int) -> bool {
    forall|k: int| 0 <= k < polys.len() ==> (#[trigger] polys[k]).eval(t, row) == Some(0nat)
}

/// The additive inverse of a value that may be missing.
pub open spec fn oneg(a: Option<nat>) -> Option<nat> {
    match a {
        Some(x) => Some(fneg(x)),
        None => None,
    }
}

/// The sum of two values that may be missing.
pub open spec fn oadd(a: Option<nat>, b: Option<nat>) -> Option<nat> {
    match (a, b) {
        (Some(x), Some(y)) => Some(fadd(x, y)),
        _ => None,
    }
}

/// The product of two values that may be missing.
pub open spec fn omul(a: Option<nat>, b: Option<nat>) -> Option<nat> {
    match (a, b) {
        (Some(x), Some(y)) => Some(fmul(x, y)),
        _ => None,
    }
}

/// The difference of two values that may be missing.
pub open spec fn osub(a: Option<nat>, b: Option<nat>) -> Option<nat> {
    oadd(a, oneg(b))
}

impl Expression {
    /// The value of the polynomial on a row of the table, if every cell that it
    /// reads is assigned.
    pub open spec fn eval(&self, t: Table, row: int) -> Option<nat>
        decreases self,
    {
        match self {
            Expression::Constant(c) => Some(c@),
            Expression::Fixed { column, rotation } => t.fixed_at(
                column.index as int,
                row + rotation.0,
            ),
            Expression::Advice { column, rotation } => t.advice_at(
                column.index as int,
                row + rotation.0,
            ),
            Expression::Negated(a) => oneg(a.eval(t, row)),
            Expression::Sum(a, b) => oadd(a.eval(t, row), b.eval(t, row)),
            Expression::Product(a, b) => omul(a.eval(t, row), b.eval(t, row)),
            Expression::Scaled(a, f) => omul(a.eval(t, row), Some(f@)),
        }
    }

    /// The constant polynomial.
    pub fn constant(c: Fe) -> (r: Expression)
        ensures
            forall|t: Table, row: int| #[trigger] r.eval(t, row) == Some(c@),
    {
        Expression::Constant(c)
    }

    /// The advice cell of the column at the rotation.
    pub fn advice(column: Advice, rotation: Rotation) -> (r: Expression)
        ensures
            forall|t: Table, row: int| #[trigger]
                r.eval(t, row) == t.advice_at(column.index as int, row + rotation.0),
    {
        Expression::Advice { column, rotation }
    }

    /// The fixed cell of the column at the rotation.
    pub fn fixed(column: Fixed, rotation: Rotation) -> (r: Expression)
        ensures
            forall|t: Table, row: int| #[trigger]
                r.eval(t, row) == t.fixed_at(column.index as int, row + rotation.0),
    {
        Expression::Fixed { column, rotation }
    }

    /// The additive inverse of a polynomial.
    pub fn negated(a: Expression) -> (r: Expression)
        ensures
            forall|t: Table, row: int| #[trigger] r.eval(t, row) == oneg(a.eval(t, row)),
    {
        Expression::Negated(Box::new(a))
    }

    /// The sum of two polynomials.
    pub fn sum(a: Expression, b: Expression) -> (r: Expression)
        ensures
            forall|t: Table, row: int| #[trigger]
                r.eval(t, row) == oadd(a.eval(t, row), b.eval(t, row)),
    {
        Expression::Sum(Box::new(a), Box::new(b))
    }

    /// The difference of two polynomials.
    pub fn difference(a: Expression, b: Expression) -> (r: Expression)
        ensures
            forall|t: Table, row: int| #[trigger]
                r.eval(t, row) == osub(a.eval(t, row), b.eval(t, row)),
    {
        let n = Expression::negated(b);
        let r = Expression::Sum(Box::new(a), Box::new(n));
        assert forall|t: Table, row: int| #[trigger]
            r.eval(t, row) == osub(a.eval(t, row), b.eval(t, row)) by {
            assert(n.eval(t, row) == oneg(b.eval(t, row)));
        }
        r
    }

    /// The product of two polynomials.
    pub fn product(a: Expression, b: Expression) -> (r: Expression)
        ensures
            forall|t: Table, row: int| #[trigger]
                r.eval(t, row) == omul(a.eval(t, row), b.eval(t, row)),
    {
        Expression::Product(Box::new(a), Box::new(b))
    }

    /// A polynomial times a constant.
    pub fn scaled(a: Expression, f: Fe) -> (r: Expression)
        ensures
            forall|t: Table, row: int| #[trigger]
                r.eval(t, row) == omul(a.eval(t, row), Some(f@)),
    {
        Expression::Scaled(Box::new(a), f)
    }

    /// A copy of the expression.
    pub fn duplicate(&self) -> (r: Expression)
        ensures
            r == *self,
        decreases self,
    {
        match self {
            Expression::Constant(c) => Expression::Constant(*c),
            Expression::Fixed { column, rotation } => Expression::Fixed {
                column: *column,
                rotation: *rotation,
            },
            Expression::Advice { column, rotation } => Expression::Advice {
                column: *column,
                rotation: *rotation,
            },
            Expression::Negated(a) => Expression::Negated(Box::new(a.duplicate())),
            Expression::Sum(a, b) => Expression::Sum(
                Box::new(a.duplicate()),
                Box::new(b.duplicate()),
            ),
            Expression::Product(a, b) => Expression::Product(
                Box::new(a.duplicate()),
                Box::new(b.duplicate()),
            ),
            Expression::Scaled(a, f) => Expression::Scaled(Box::new(a.duplicate()), *f),
        }
    }
}

impl Clone for Expression {
    fn clone(&self) -> (r: Self)
        ensures
            r == *self,
    {
        self.duplicate()
    }
}

/// A value that a polynomial has on a table that assigns every cell it reads,
/// it keeps on every table that extends it.
pub proof fn lemma_eval_extends(e: Expression, old: Table, new: Table, row: int)
    requires
        new.extends(old),
        e.eval(old, row) is Some,
    ensures
        e.eval(new, row) == e.eval(old, row),
    decreases e,
{
    match e {
        Expression::Constant(c) => {},
        Expression::Fixed { column, rotation } => {
            assert(old.fixed.contains_key((column.index as int, row + rotation.0)));
        },
        Expression::Advice { column, rotation } => {
            assert(old.advice.contains_key((column.index as int, row + rotation.0)));
        },
        Expression::Negated(a) => {
            lemma_eval_extends(*a, old, new, row);
        },
        Expression::Sum(a, b) => {
            lemma_eval_extends(*a, old, new, row);
            lemma_eval_extends(*b, old, new, row);
        },
        Expression::Product(a, b) => {
            lemma_eval_extends(*a, old, new, row);
            lemma_eval_extends(*b, old, new, row);
        },
        Expression::Scaled(a, f) => {
            lemma_eval_extends(*a, old, new, row);
        },
    }
}

/// A satisfied table stays satisfied when it is extended, if the gates hold on
/// the rows where they were newly enabled and the new equality constraints
/// hold.
pub proof fn lemma_satisfied_extends(old: Table, new: Table)
    requires
        old.satisfied(),
        new.extends(old),
        forall|g: int, row: int|
            0 <= g < new.gates.len() && #[trigger] new.enabled.contains((g, row))
                && !old.enabled.contains((g, row)) ==> new.gate_holds(g, row),
        forall|i: int| old.copies.len() <= i < new.copies.len() ==> #[trigger] new.copy_holds(i),
        forall|i: int|
            old.exposed.len() <= i < new.exposed.len() ==> #[trigger] new.exposure_holds(i),
    ensures
        new.satisfied(),
{
    assert forall|g: int, row: int|
        0 <= g < new.gates.len() && #[trigger] new.enabled.contains((g, row))
            implies new.gate_holds(
        g,
        row,
    ) by {
        if old.enabled.contains((g, row)) {
            assert(old.gate_holds(g, row));
            let polys = new.gates[g];
            assert forall|k: int| 0 <= k < polys.len() implies (#[trigger] polys[k]).eval(
                new,
                row,
            ) == Some(0nat) by {
                lemma_eval_extends(polys[k], old, new, row);
            }
        }
    }
    assert forall|i: int| 0 <= i < new.copies.len() implies #[trigger] new.copy_holds(i) by {
        if i < old.copies.len() {
            assert(old.copy_holds(i));
            assert(new.copies[i] == old.copies[i]);
            let (a, b) = old.copies[i];
            assert(old.advice.contains_key((a.0, a.1)));
            assert(old.advice.contains_key((b.0, b.1)));
        }
    }
    assert forall|i: int| 0 <= i < new.exposed.len() implies #[trigger] new.exposure_holds(i) by {
        if i < old.exposed.len() {
            assert(old.exposure_holds(i));
            assert(new.exposed[i] == old.exposed[i]);
        }
    }
}

/// Assigning a cell in a column that was allocated, enabling a gate that was
/// declared and constraining cells of columns that take part in equality
/// constraints keep a table to its constraint system.
pub proof fn lemma_supported_step(t: Table, column: int, row: int, value: nat)
    requires
        t.supported(),
    ensures
        0 <= column < t.num_advice ==> t.assign_advice(column, row, value).supported(),
        0 <= column < t.num_fixed ==> t.assign_fixed(column, row, value).supported(),
        0 <= column < t.gates.len() ==> t.enable(column, row).supported(),
        forall|a: (int, int), b: (int, int)|
            t.advice_tied(a.0) && t.advice_tied(b.0) ==> (#[trigger] t.constrain_equal(
                a,
                b,
            )).supported(),
        forall|a: (int, int), b: (int, int)|
            t.advice_tied(a.0) && t.takes_instance(b.0) ==> (#[trigger] t.constrain_instance(
                a,
                b,
            )).supported(),
{
    let t1 = t.assign_advice(column, row, value);
    assert forall|i: int| 0 <= i < t1.copies.len() implies t1.advice_tied(
        (#[trigger] t1.copies[i]).0.0,
    ) && t1.advice_tied(t1.copies[i].1.0) by {
        assert(t.advice_tied(t.copies[i].0.0) && t.advice_tied(t.copies[i].1.0));
    }
    assert forall|a: (int, int), b: (int, int)|
        t.advice_tied(a.0) && t.advice_tied(b.0) implies (#[trigger] t.constrain_equal(
        a,
        b,
    )).supported() by {
        let t2 = t.constrain_equal(a, b);
        assert forall|i: int| 0 <= i < t2.copies.len() implies t2.advice_tied(
            (#[trigger] t2.copies[i]).0.0,
        ) && t2.advice_tied(t2.copies[i].1.0) by {
            if i < t.copies.len() {
                assert(t.advice_tied(t.copies[i].0.0) && t.advice_tied(t.copies[i].1.0));
            }
        }
    }
    assert forall|a: (int, int), b: (int, int)|
        t.advice_tied(a.0) && t.takes_instance(b.0) implies (#[trigger] t.constrain_instance(
        a,
        b,
    )).supported() by {
        let t2 = t.constrain_instance(a, b);
        assert forall|i: int| 0 <= i < t2.exposed.len() implies t2.advice_tied(
            (#[trigger] t2.exposed[i]).0.0,
        ) && t2.instance_tied(t2.exposed[i].1.0) && t2.exposed[i].1.0 < t2.num_instance by {
            if i < t.exposed.len() {
                assert(t.advice_tied(t.exposed[i].0.0));
            }
        }
    }
}

/// Assigning a cell that was not assigned, enabling a gate and constraining
/// cells each extend a table.
pub proof fn lemma_extends_step(t: Table, column: int, row: int, value: nat)
    ensures
        t.advice_at(column, row) is None ==> t.assign_advice(column, row, value).extends(t),
        t.fixed_at(column, row) is None ==> t.assign_fixed(column, row, value).extends(t),
        t.enable(column, row).extends(t),
        forall|a: (int, int), b: (int, int)| #[trigger] t.constrain_equal(a, b).extends(t),
        forall|a: (int, int), b: (int, int)| #[trigger] t.constrain_instance(a, b).extends(t),
{
}

/// An equality constraint that holds on a table holds on every table that
/// extends it.
pub proof fn lemma_constraints_extend(old: Table, new: Table)
    requires
        new.extends(old),
    ensures
        forall|i: int| 0 <= i < old.copies.len() && #[trigger] old.copy_holds(i)
            ==> new.copy_holds(i),
        forall|i: int|
            0 <= i < old.exposed.len() && #[trigger] old.exposure_holds(i) ==> new.exposure_holds(
                i,
            ),
{
    assert forall|i: int| 0 <= i < old.copies.len() && #[trigger] old.copy_holds(
        i,
    ) implies new.copy_holds(i) by {
        assert(new.copies[i] == old.copies[i]);
        let (a, b) = old.copies[i];
        assert(old.advice.contains_key((a.0, a.1)));
        assert(old.advice.contains_key((b.0, b.1)));
    }
    assert forall|i: int| 0 <= i < old.exposed.len() && #[trigger] old.exposure_holds(
        i,
    ) implies new.exposure_holds(i) by {
        assert(new.exposed[i] == old.exposed[i]);
    }
}

/// A gate that holds on a row of a table holds there on every table that
/// extends it.
pub proof fn lemma_gates_extend(old: Table, new: Table)
    requires
        new.extends(old),
    ensures
        forall|g: int, row: int|
            0 <= g < old.gates.len() && #[trigger] old.gate_holds(g, row)
                ==> new.gate_holds(g, row),
{
    assert forall|g: int, row: int|
        0 <= g < old.gates.len() && #[trigger] old.gate_holds(g, row) implies new.gate_holds(
        g,
        row,
    ) by {
        let polys = new.gates[g];
        assert forall|k: int| 0 <= k < polys.len() implies (#[trigger] polys[k]).eval(new, row)
            == Some(0nat) by {
            lemma_eval_extends(polys[k], old, new, row);
        }
    }
}

/// A table that extends another has its columns: the same columns take
/// advice, are tied and take public inputs.
pub proof fn lemma_columns_extend(old: Table, new: Table)
    requires
        new.extends(old),
    ensures
        forall|c: int| #[trigger] new.advice_tied(c) == old.advice_tied(c),
        forall|c: int| #[trigger] new.instance_tied(c) == old.instance_tied(c),
        forall|c: int| #[trigger] new.takes_advice(c) == old.takes_advice(c),
        forall|c: int| #[trigger] new.takes_instance(c) == old.takes_instance(c),
{
}

/// Every table extends itself.
pub proof fn lemma_extends_refl(t: Table)
    ensures
        t.extends(t),
{
}

/// Extension is transitive.
pub proof fn lemma_extends_trans(a: Table, b: Table, c: Table)
    requires
        b.extends(a),
        c.extends(b),
    ensures
        c.extends(a),
{
}

/// A gate: a name and the polynomial identities that hold on each row where
/// its selector is enabled.
#[derive(Debug)]
pub struct Gate {
    pub name: &'static str,
    pub polys: Vec<Expression>,
}

impl Clone for Gate {
    fn clone(&self) -> Self {
        Gate { name: self.name, polys: self.polys.clone() }
    }
}

/// The shape of a circuit: how many columns of each kind it has, which of them
/// take part in equality constraints, and its gates.
#[derive(Debug)]
pub struct ConstraintSystem {
    pub num_advice: usize,
    pub num_fixed: usize,
    pub num_instance: usize,
    pub equality: Vec<Column>,
    pub gates: Vec<Gate>,
}

impl Clone for ConstraintSystem {
    fn clone(&self) -> Self {
        ConstraintSystem {
            num_advice: self.num_advice,
            num_fixed: self.num_fixed,
            num_instance: self.num_instance,
            equality: self.equality.clone(),
            gates: self.gates.clone(),
        }
    }
}

impl ConstraintSystem {
    /// The identities of each gate.
    pub open spec fn polys(&self) -> Seq<Seq<Expression>> {
        Seq::new(self.gates.len() as nat, |g: int| self.gates[g].polys@)
    }

    /// The table of the constraint system with nothing assigned and the
    /// public inputs.
    pub open spec fn table(&self, instance: Seq<Seq<nat>>) -> Table {
        Table {
            num_advice: self.num_advice as nat,
            num_fixed: self.num_fixed as nat,
            num_instance: self.num_instance as nat,
            equality: self.equality@,
            gates: self.polys(),
            advice: Map::empty(),
            fixed: Map::empty(),
            enabled: Set::empty(),
            instance,
            copies: Seq::empty(),
            exposed: Seq::empty(),
            rows: 0,
        }
    }

    /// A constraint system without columns or gates.
    pub fn new() -> (r: ConstraintSystem)
        ensures
            r.num_advice == 0,
            r.num_fixed == 0,
            r.num_instance == 0,
            r.equality@.len() == 0,
            r.gates@.len() == 0,
    {
        ConstraintSystem {
            num_advice: 0,
            num_fixed: 0,
            num_instance: 0,
            equality: Vec::new(),
            gates: Vec::new(),
        }
    }

    /// Allocates a new advice column.
    pub fn advice_column(&mut self) -> (r: Advice)
        requires
            old(self).num_advice < usize::MAX,
        ensures
            r.index == old(self).num_advice,
            *final(self) == (ConstraintSystem { num_advice: (r.index + 1) as usize, ..*old(self) }),
    {
        let r = Advice { index: self.num_advice };
        self.num_advice = self.num_advice + 1;
        r
    }

    /// Allocates a new fixed column.
    pub fn fixed_column(&mut self) -> (r: Fixed)
        requires
            old(self).num_fixed < usize::MAX,
        ensures
            r.index == old(self).num_fixed,
            *final(self) == (ConstraintSystem { num_fixed: (r.index + 1) as usize, ..*old(self) }),
    {
        let r = Fixed { index: self.num_fixed };
        self.num_fixed = self.num_fixed + 1;
        r
    }

    /// Allocates a new instance column.
    pub fn instance_column(&mut self) -> (r: Instance)
        requires
            old(self).num_instance < usize::MAX,
        ensures
            r.index == old(self).num_instance,
            *final(self) == (ConstraintSystem {
                num_instance: (r.index + 1) as usize,
                ..*old(self)
            }),
    {
        let r = Instance { index: self.num_instance };
        self.num_instance = self.num_instance + 1;
        r
    }

    /// Allocates `n` new advice columns.
    pub fn advice_columns(&mut self, n: usize) -> (r: Vec<Advice>)
        requires
            old(self).num_advice + n <= usize::MAX,
        ensures
            r@.len() == n,
            forall|j: int| 0 <= j < n ==> (#[trigger] r@[j]).index == old(self).num_advice + j,
            *final(self) == (ConstraintSystem {
                num_advice: (old(self).num_advice + n) as usize,
                ..*old(self)
            }),
    {
        let mut r: Vec<Advice> = Vec::new();
        let mut j: usize = 0;
        while j < n
            invariant
                j <= n,
                old(self).num_advice + n <= usize::MAX,
                r@.len() == j,
                forall|i: int| 0 <= i < j ==> (#[trigger] r@[i]).index == old(self).num_advice + i,
                *self == (ConstraintSystem {
                    num_advice: (old(self).num_advice + j) as usize,
                    ..*old(self)
                }),
            decreases n - j,
        {
            r.push(self.advice_column());
            j = j + 1;
        }
        r
    }

    /// Allocates `n` new fixed columns.
    pub fn fixed_columns(&mut self, n: usize) -> (r: Vec<Fixed>)
        requires
            old(self).num_fixed + n <= usize::MAX,
        ensures
            r@.len() == n,
            forall|j: int| 0 <= j < n ==> (#[trigger] r@[j]).index == old(self).num_fixed + j,
            *final(self) == (ConstraintSystem {
                num_fixed: (old(self).num_fixed + n) as usize,
                ..*old(self)
            }),
    {
        let mut r: Vec<Fixed> = Vec::new();
        let mut j: usize = 0;
        while j < n
            invariant
                j <= n,
                old(self).num_fixed + n <= usize::MAX,
                r@.len() == j,
                forall|i: int| 0 <= i < j ==> (#[trigger] r@[i]).index == old(self).num_fixed + i,
                *self == (ConstraintSystem {
                    num_fixed: (old(self).num_fixed + j) as usize,
                    ..*old(self)
                }),
            decreases n - j,
        {
            r.push(self.fixed_column());
            j = j + 1;
        }
        r
    }

    /// Lets the column take part in equality constraints.
    pub fn enable_equality(&mut self, column: Column)
        ensures
            final(self).equality@ == old(self).equality@.push(column),
            final(self).num_advice == old(self).num_advice,
            final(self).num_fixed == old(self).num_fixed,
            final(self).num_instance == old(self).num_instance,
            final(self).gates == old(self).gates,
    {
        self.equality.push(column);
    }

    /// Whether the advice column takes part in equality constraints.
    pub fn advice_tied(&self, column: usize) -> (r: bool)
        ensures
            r == exists|i: int|
                0 <= i < self.equality@.len()
                    && (#[trigger] self.equality@[i] matches Column::Advice(
                    c,
                ) && c.index == column),
    {
        let mut i: usize = 0;
        while i < self.equality.len()
            invariant
                i <= self.equality@.len(),
                forall|k: int|
                    0 <= k < i ==> !(#[trigger] self.equality@[k] matches Column::Advice(c)
                        && c.index == column),
            decreases self.equality@.len() - i,
        {
            match self.equality[i] {
                Column::Advice(c) => {
                    if c.index == column {
                        return true;
                    }
                },
                _ => {},
            }
            i = i + 1;
        }
        false
    }

    /// Whether the instance column takes part in equality constraints.
    pub fn instance_tied(&self, column: usize) -> (r: bool)
        ensures
            r == exists|i: int|
                0 <= i < self.equality@.len() && (
                #[trigger] self.equality@[i] matches Column::Instance(c) && c.index == column),
    {
        let mut i: usize = 0;
        while i < self.equality.len()
            invariant
                i <= self.equality@.len(),
                forall|k: int|
                    0 <= k < i ==> !(#[trigger] self.equality@[k] matches Column::Instance(c)
                        && c.index == column),
            decreases self.equality@.len() - i,
        {
            match self.equality[i] {
                Column::Instance(c) => {
                    if c.index == column {
                        return true;
                    }
                },
                _ => {},
            }
            i = i + 1;
        }
        false
    }

    /// Adds a gate and returns the selector that enables it.
    pub fn create_gate(&mut self, name: &'static str, polys: Vec<Expression>) -> (r: Selector)
        ensures
            r.index == old(self).gates@.len(),
            final(self).gates@ == old(self).gates@.push(Gate { name, polys }),
            final(self).polys() == old(self).polys().push(polys@),
            final(self).num_advice == old(self).num_advice,
            final(self).num_fixed == old(self).num_fixed,
            final(self).num_instance == old(self).num_instance,
            final(self).equality == old(self).equality,
    {
        let r = Selector { index: self.gates.len() };
        self.gates.push(Gate { name, polys });
        assert(self.polys() =~= old(self).polys().push(polys@));
        r
    }
}

} // verus!
