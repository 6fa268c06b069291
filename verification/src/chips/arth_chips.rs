//! A small arithmetic chip: one gate each for a product, a sum and a cube,
//! each tying two cells of a row to a cell of the next.

use crate::circuit::{AssignedCell, Layouter};
use crate::field::{fadd, fcube, fmul, lemma_cube_chain, lemma_fsub_zero, Fe};
use crate::plonk::{
    lemma_constraints_extend, lemma_extends_trans, lemma_satisfied_extends, oadd, omul, osub,
    Advice, Column, ConstraintSystem, Expression, Instance, Rotation, Selector, Table,
};
use vstd::prelude::*;

verus! {

/// A number in the circuit: an assigned cell.
#[derive(Clone, Copy, Debug)]
pub struct Number {
    pub value: AssignedCell,
}

/// The columns and selectors of the chip.
#[derive(Clone, Copy, Debug)]
pub struct ArthConfig {
    /// Two columns for the inputs of the gates; the first also takes the
    /// output, on the next row.
    pub advice: [Advice; 2],
    /// The public inputs.
    pub instance: Instance,
    pub s_mul: Selector,
    pub s_add: Selector,
    pub s_cube: Selector,
}

impl ArthConfig {
    /// The two advice columns differ.
    pub open spec fn wf(&self) -> bool {
        self.advice[0].index != self.advice[1].index
    }

    /// The left input of a gate on a row.
    pub open spec fn lhs(&self, t: Table, row: int) -> Option<nat> {
        t.advice_at(self.advice[0].index as int, row)
    }

    /// The right input of a gate on a row.
    pub open spec fn rhs(&self, t: Table, row: int) -> Option<nat> {
        t.advice_at(self.advice[1].index as int, row)
    }

    /// `lhs * rhs - out`, with `out` below `lhs`.
    pub open spec fn mul_identity(&self, t: Table, row: int) -> Option<nat> {
        osub(omul(self.lhs(t, row), self.rhs(t, row)), self.lhs(t, row + 1))
    }

    /// `lhs + rhs - out`, with `out` below `lhs`.
    pub open spec fn add_identity(&self, t: Table, row: int) -> Option<nat> {
        osub(oadd(self.lhs(t, row), self.rhs(t, row)), self.lhs(t, row + 1))
    }

    /// `lhs * lhs * lhs - out`, with `out` below `lhs`.
    pub open spec fn cube_identity(&self, t: Table, row: int) -> Option<nat> {
        osub(omul(omul(self.lhs(t, row), self.lhs(t, row)), self.lhs(t, row)), self.lhs(t, row + 1))
    }

    /// The selector's gate has the one identity `identity`.
    pub open spec fn gate_is(
        gates: Seq<Seq<Expression>>,
        selector: Selector,
        identity: spec_fn(Table, int) -> Option<nat>,
    ) -> bool {
        &&& selector.index < gates.len()
        &&& gates[selector.index as int].len() == 1
        &&& forall|t: Table, row: int| #[trigger]
            gates[selector.index as int][0].eval(t, row) == identity(t, row)
    }

    /// The table has the chip's columns: the two advice columns take advice
    /// and the instance column takes public inputs.
    pub open spec fn wired(&self, t: Table) -> bool {
        &&& t.takes_advice(self.advice[0].index as int)
        &&& t.takes_advice(self.advice[1].index as int)
        &&& t.takes_instance(self.instance.index as int)
        &&& self.s_mul.index < t.gates.len()
        &&& self.s_add.index < t.gates.len()
        &&& self.s_cube.index < t.gates.len()
    }

    /// The equality constraints of `t` and those that tie the inputs of a gate
    /// on the row below `t` to the cells that they copy.
    pub open spec fn copies(&self, t: Table, a: (int, int), b: Option<(int, int)>) -> Seq<
        ((int, int), (int, int)),
    > {
        let with_lhs = t.copies.push(((self.advice[0].index as int, t.rows as int), a));
        match b {
            Some(b) => with_lhs.push(((self.advice[1].index as int, t.rows as int), b)),
            None => with_lhs,
        }
    }

    /// The region of a gate: the selector enabled on the row below `old`, the
    /// inputs copied onto that row and the output assigned below the left
    /// input.
    pub open spec fn region(
        &self,
        old: Table,
        t: Table,
        selector: Selector,
        a: AssignedCell,
        b: Option<AssignedCell>,
        out: AssignedCell,
    ) -> bool {
        &&& t.enabled == old.enabled.insert((selector.index as int, old.rows as int))
        &&& self.lhs(t, old.rows as int) == Some(a.value@)
        &&& b matches Some(c) ==> self.rhs(t, old.rows as int) == Some(c.value@)
        &&& self.lhs(t, (old.rows + 1) as int) == Some(out.value@)
        &&& out.column == self.advice[0]
        &&& out.row == old.rows + 1
        &&& t.copies == self.copies(
            old,
            a.key(),
            match b {
                Some(c) => Some(c.key()),
                None => None,
            },
        )
        &&& t.exposed == old.exposed
    }

    /// The gates that the selectors enable are the chip's three gates.
    pub open spec fn installed(&self, gates: Seq<Seq<Expression>>) -> bool {
        &&& Self::gate_is(gates, self.s_mul, |t: Table, row: int| self.mul_identity(t, row))
        &&& Self::gate_is(gates, self.s_add, |t: Table, row: int| self.add_identity(t, row))
        &&& Self::gate_is(gates, self.s_cube, |t: Table, row: int| self.cube_identity(t, row))
    }
}

/// What an arithmetic chip does: it loads numbers, multiplies, adds and cubes
/// them, and binds a number to a public input.
pub trait NumericInstructions {
    /// The chip's configuration.
    spec fn view(&self) -> ArthConfig;

    /// Loads a number into the circuit as a private input, on a new row.
    fn load_private(&self, layouter: &mut Layouter, a: Fe) -> (num: Number)
        requires
            old(layouter)@.rows + 1 < usize::MAX,
        ensures
            num.value == (AssignedCell {
                column: self@.advice[0],
                row: old(layouter)@.rows as usize,
                value: a,
            }),
            num.value.held_by(final(layouter)@),
            final(layouter)@.extends(old(layouter)@),
            final(layouter)@.rows == old(layouter)@.rows + 1,
            final(layouter)@.enabled == old(layouter)@.enabled,
            final(layouter)@.copies == old(layouter)@.copies,
            final(layouter)@.exposed == old(layouter)@.exposed,
            old(layouter)@.satisfied() ==> final(layouter)@.satisfied(),
            old(layouter)@.supported() && self@.wired(old(layouter)@)
                ==> final(layouter)@.supported(),
    ;

    /// Loads the public input on row `row` into the circuit, on a new row.
    fn load_public(&self, layouter: &mut Layouter, row: usize) -> (num: Number)
        requires
            old(layouter)@.rows + 1 < usize::MAX,
        ensures
            num.value.value@ == old(layouter)@.instance_at(self@.instance.index as int, row as int),
            num.value.column == self@.advice[0],
            num.value.row == old(layouter)@.rows,
            num.value.held_by(final(layouter)@),
            final(layouter)@.extends(old(layouter)@),
            final(layouter)@.rows == old(layouter)@.rows + 1,
            final(layouter)@.enabled == old(layouter)@.enabled,
            final(layouter)@.copies == old(layouter)@.copies,
            final(layouter)@.exposed == old(layouter)@.exposed.push(
                (num.value.key(), (self@.instance.index as int, row as int)),
            ),
            old(layouter)@.satisfied() ==> final(layouter)@.satisfied(),
            old(layouter)@.supported() && self@.wired(old(layouter)@)
                ==> final(layouter)@.supported(),
    ;

    /// Returns `c = a * b`.
    fn mul(&self, layouter: &mut Layouter, a: Number, b: Number) -> (c: Number)
        requires
            self@.wf(),
            self@.installed(old(layouter)@.gates),
            a.value.held_by(old(layouter)@),
            b.value.held_by(old(layouter)@),
            old(layouter)@.rows + 2 < usize::MAX,
        ensures
            c.value.value@ == fmul(a.value.value@, b.value.value@),
            c.value.held_by(final(layouter)@),
            final(layouter)@.extends(old(layouter)@),
            final(layouter)@.rows == old(layouter)@.rows + 2,
            self@.region(
                old(layouter)@,
                final(layouter)@,
                self@.s_mul,
                a.value,
                Some(b.value),
                c.value,
            ),
            old(layouter)@.satisfied() ==> final(layouter)@.satisfied(),
            old(layouter)@.supported() && self@.wired(old(layouter)@) && old(
                layouter,
            )@.advice_tied(a.value.column.index as int) && old(layouter)@.advice_tied(
                b.value.column.index as int,
            ) ==> final(layouter)@.supported(),
    ;

    /// Returns `c = a + b`.
    fn add(&self, layouter: &mut Layouter, a: Number, b: Number) -> (c: Number)
        requires
            self@.wf(),
            self@.installed(old(layouter)@.gates),
            a.value.held_by(old(layouter)@),
            b.value.held_by(old(layouter)@),
            old(layouter)@.rows + 2 < usize::MAX,
        ensures
            c.value.value@ == fadd(a.value.value@, b.value.value@),
            c.value.held_by(final(layouter)@),
            final(layouter)@.extends(old(layouter)@),
            final(layouter)@.rows == old(layouter)@.rows + 2,
            self@.region(
                old(layouter)@,
                final(layouter)@,
                self@.s_add,
                a.value,
                Some(b.value),
                c.value,
            ),
            old(layouter)@.satisfied() ==> final(layouter)@.satisfied(),
            old(layouter)@.supported() && self@.wired(old(layouter)@) && old(
                layouter,
            )@.advice_tied(a.value.column.index as int) && old(layouter)@.advice_tied(
                b.value.column.index as int,
            ) ==> final(layouter)@.supported(),
    ;

    /// Returns `c = a ^ 3`.
    fn cube(&self, layouter: &mut Layouter, a: Number) -> (c: Number)
        requires
            self@.wf(),
            self@.installed(old(layouter)@.gates),
            a.value.held_by(old(layouter)@),
            old(layouter)@.rows + 2 < usize::MAX,
        ensures
            c.value.value@ == fcube(a.value.value@),
            c.value.held_by(final(layouter)@),
            final(layouter)@.extends(old(layouter)@),
            final(layouter)@.rows == old(layouter)@.rows + 2,
            self@.region(
                old(layouter)@,
                final(layouter)@,
                self@.s_cube,
                a.value,
                None,
                c.value,
            ),
            old(layouter)@.satisfied() ==> final(layouter)@.satisfied(),
            old(layouter)@.supported() && self@.wired(old(layouter)@) && old(
                layouter,
            )@.advice_tied(a.value.column.index as int) ==> final(layouter)@.supported(),
    ;

    /// Binds a number to the public input on row `row`. The table stays
    /// satisfied exactly when that public input is the number's value.
    fn expose_public(&self, layouter: &mut Layouter, num: Number, row: usize)
        requires
            num.value.held_by(old(layouter)@),
        ensures
            final(layouter)@ == old(layouter)@.constrain_instance(
                num.value.key(),
                (self@.instance.index as int, row as int),
            ),
            final(layouter)@.extends(old(layouter)@),
            final(layouter)@.rows == old(layouter)@.rows,
            old(layouter)@.satisfied() ==> (final(layouter)@.satisfied() <==> num.value.value@
                == old(layouter)@.instance_at(self@.instance.index as int, row as int)),
            forall|t: Table| #[trigger]
                t.extends(final(layouter)@) && t.satisfied() ==> num.value.value@ == old(
                    layouter,
                )@.instance_at(self@.instance.index as int, row as int),
            old(layouter)@.supported() && self@.wired(old(layouter)@) && old(
                layouter,
            )@.advice_tied(num.value.column.index as int) ==> final(layouter)@.supported(),
    ;
}

/// The chip for products, sums and cubes.
pub struct ArthChip {
    pub config: ArthConfig,
}

impl ArthChip {
    /// The chip for a configuration.
    pub fn new(config: ArthConfig) -> (r: ArthChip)
        ensures
            r@ == config,
    {
        ArthChip { config }
    }

    /// The configuration of the chip.
    pub fn config(&self) -> (r: &ArthConfig)
        ensures
            *r == self@,
    {
        &self.config
    }

    /// What the chip loads at the start of a circuit: nothing.
    pub fn loaded(&self) {
    }

    /// Lays out one gate on two new rows: copies of the inputs on the first,
    /// where the selector is enabled, and the output below the left input.
    fn apply(
        &self,
        layouter: &mut Layouter,
        selector: Selector,
        a: &AssignedCell,
        b: Option<&AssignedCell>,
        out: Fe,
    ) -> (r: AssignedCell)
        requires
            self@.wf(),
            a.held_by(old(layouter)@),
            b matches Some(c) ==> c.held_by(old(layouter)@),
            old(layouter)@.rows + 2 < usize::MAX,
        ensures
            r.value == out,
            r.held_by(final(layouter)@),
            final(layouter)@.extends(old(layouter)@),
            final(layouter)@.rows == old(layouter)@.rows + 2,
            final(layouter)@.enabled == old(layouter)@.enabled.insert(
                (selector.index as int, old(layouter)@.rows as int),
            ),
            self@.lhs(final(layouter)@, old(layouter)@.rows as int) == Some(a.value@),
            b matches Some(c) ==> self@.rhs(final(layouter)@, old(layouter)@.rows as int) == Some(
                c.value@,
            ),
            self@.lhs(final(layouter)@, (old(layouter)@.rows + 1) as int) == Some(out@),
            final(layouter)@.exposed == old(layouter)@.exposed,
            final(layouter)@.copies == self@.copies(
                old(layouter)@,
                a.key(),
                match b {
                    Some(c) => Some(c.key()),
                    None => None,
                },
            ),
            r.column == self@.advice[0],
            r.row == old(layouter)@.rows + 1,
            old(layouter)@.supported() && self@.wired(old(layouter)@) && selector.index < old(
                layouter,
            )@.gates.len() && old(layouter)@.advice_tied(a.column.index as int) && (b matches Some(
                c,
            ) ==> old(layouter)@.advice_tied(c.column.index as int))
                ==> final(layouter)@.supported(),
            forall|k: int|
                old(layouter)@.copies.len() <= k < final(layouter)@.copies.len()
                    ==> #[trigger] final(layouter)@.copy_holds(k),
    {
        let config = &self.config;
        let ghost t0 = layouter@;
        let ghost s = t0.rows as int;
        layouter.start_region();
        proof {
            layouter.lemma_fresh_row(s);
            layouter.lemma_fresh_row(s + 1);
            assert(t0.advice.contains_key(a.key()));
            assert(t0.advice_at(config.advice[0].index as int, s) is None);
            assert(t0.advice_at(config.advice[1].index as int, s) is None);
            assert(t0.advice_at(config.advice[0].index as int, s + 1) is None);
        }
        layouter.enable_selector(selector, 0);
        let ghost t1 = layouter@;
        layouter.copy_advice(a, config.advice[0], 0);
        let ghost t2 = layouter@;
        match b {
            Some(c) => {
                proof {
                    assert(t0.advice.contains_key(c.key()));
                    assert(c.held_by(t2));
                }
                layouter.copy_advice(c, config.advice[1], 0);
            },
            None => {},
        }
        let ghost t3 = layouter@;
        let r = layouter.assign_advice(config.advice[0], 1, out);
        proof {
            let t4 = layouter@;
            lemma_extends_trans(t0, t1, t2);
            lemma_extends_trans(t0, t2, t3);
            lemma_extends_trans(t0, t3, t4);
            crate::plonk::lemma_columns_extend(t0, t1);
            crate::plonk::lemma_columns_extend(t0, t2);
            crate::plonk::lemma_columns_extend(t0, t3);
            lemma_extends_trans(t2, t3, t4);
            lemma_constraints_extend(t2, t3);
            lemma_constraints_extend(t2, t4);
            lemma_constraints_extend(t3, t4);
            assert forall|k: int| t0.copies.len() <= k < t4.copies.len()
                implies #[trigger] t4.copy_holds(
                k,
            ) by {
                if k < t2.copies.len() {
                    assert(t2.copy_holds(k));
                } else {
                    assert(t3.copy_holds(k));
                }
            }
            assert(t4.enabled =~= t0.enabled.insert((selector.index as int, s)));
        }
        r
    }

    /// Lets the columns take part in equality constraints and declares the
    /// three gates: `lhs * rhs = out`, `lhs + rhs = out` and `lhs^3 = out`.
    pub fn configure(
        meta: &mut ConstraintSystem,
        advice: [Advice; 2],
        instance: Instance,
    ) -> (config: ArthConfig)
        ensures
            config.advice == advice,
            config.instance == instance,
            config.s_mul.index == old(meta).gates@.len(),
            config.s_add.index == old(meta).gates@.len() + 1,
            config.s_cube.index == old(meta).gates@.len() + 2,
            final(meta).polys().len() == old(meta).polys().len() + 3,
            old(meta).polys().is_prefix_of(final(meta).polys()),
            config.installed(final(meta).polys()),
            final(meta).num_advice == old(meta).num_advice,
            final(meta).num_fixed == old(meta).num_fixed,
            final(meta).num_instance == old(meta).num_instance,
            final(meta).equality@ == old(meta).equality@.push(Column::Instance(instance)).push(
                Column::Advice(advice[0]),
            ).push(Column::Advice(advice[1])),
            advice[0].index < old(meta).num_advice && advice[1].index < old(meta).num_advice
                && instance.index < old(meta).num_instance ==> config.wired(
                final(meta).table(Seq::empty()),
            ),
    {
        meta.enable_equality(Column::Instance(instance));
        meta.enable_equality(Column::Advice(advice[0]));
        meta.enable_equality(Column::Advice(advice[1]));
        let ghost before = meta.polys();
        let ghost draft = ArthConfig {
            advice,
            instance,
            s_mul: Selector { index: 0 },
            s_add: Selector { index: 0 },
            s_cube: Selector { index: 0 },
        };

        // | a0  | a1  | s_mul |
        // | lhs | rhs |   1   |
        // | out |     |       |
        let lhs = Expression::advice(advice[0], Rotation::cur());
        let rhs = Expression::advice(advice[1], Rotation::cur());
        let out = Expression::advice(advice[0], Rotation::next());
        let mul = Expression::difference(Expression::product(lhs, rhs), out);
        proof {
            assert forall|t: Table, row: int| #[trigger]
                mul.eval(t, row) == draft.mul_identity(t, row) by {}
        }
        let mut polys: Vec<Expression> = Vec::new();
        polys.push(mul);
        let s_mul = meta.create_gate("mul", polys);

        let lhs = Expression::advice(advice[0], Rotation::cur());
        let rhs = Expression::advice(advice[1], Rotation::cur());
        let out = Expression::advice(advice[0], Rotation::next());
        let add = Expression::difference(Expression::sum(lhs, rhs), out);
        proof {
            assert forall|t: Table, row: int| #[trigger]
                add.eval(t, row) == draft.add_identity(t, row) by {}
        }
        let mut polys: Vec<Expression> = Vec::new();
        polys.push(add);
        let s_add = meta.create_gate("add", polys);

        let lhs = Expression::advice(advice[0], Rotation::cur());
        let out = Expression::advice(advice[0], Rotation::next());
        let square = Expression::product(lhs.duplicate(), lhs.duplicate());
        let cube = Expression::difference(Expression::product(square, lhs), out);
        proof {
            assert forall|t: Table, row: int| #[trigger]
                cube.eval(t, row) == draft.cube_identity(t, row) by {}
        }
        let mut polys: Vec<Expression> = Vec::new();
        polys.push(cube);
        let s_cube = meta.create_gate("cube", polys);

        let config = ArthConfig { advice, instance, s_mul, s_add, s_cube };
        proof {
            assert(before =~= old(meta).polys());
            let gates = meta.polys();
            assert forall|t: Table, row: int| #[trigger]
                gates[s_mul.index as int][0].eval(t, row) == config.mul_identity(t, row) by {
                assert(draft.mul_identity(t, row) == config.mul_identity(t, row));
            }
            assert forall|t: Table, row: int| #[trigger]
                gates[s_add.index as int][0].eval(t, row) == config.add_identity(t, row) by {
                assert(draft.add_identity(t, row) == config.add_identity(t, row));
            }
            assert forall|t: Table, row: int| #[trigger]
                gates[s_cube.index as int][0].eval(t, row) == config.cube_identity(t, row) by {
                assert(draft.cube_identity(t, row) == config.cube_identity(t, row));
            }
            let t = meta.table(Seq::empty());
            let first = old(meta).equality@.len() as int;
            assert(t.equality[first] == Column::Instance(instance));
            assert(t.equality[first + 1] == Column::Advice(advice[0]));
            assert(t.equality[first + 2] == Column::Advice(advice[1]));
        }
        config
    }
}

impl NumericInstructions for ArthChip {
    open spec fn view(&self) -> ArthConfig {
        self.config
    }

    fn load_private(&self, layouter: &mut Layouter, a: Fe) -> (num: Number)
    {
        let ghost t0 = layouter@;
        layouter.start_region();
        proof {
            layouter.lemma_fresh_row(t0.rows as int);
        }
        let cell = layouter.assign_advice(self.config.advice[0], 0, a);
        proof {
            if t0.satisfied() {
                lemma_satisfied_extends(t0, layouter@);
            }
        }
        Number { value: cell }
    }

    fn load_public(&self, layouter: &mut Layouter, row: usize) -> (num: Number)
    {
        let ghost t0 = layouter@;
        layouter.start_region();
        proof {
            layouter.lemma_fresh_row(t0.rows as int);
        }
        let cell = layouter.assign_advice_from_instance(
            self.config.instance,
            row,
            self.config.advice[0],
            0,
        );
        proof {
            if t0.satisfied() {
                lemma_satisfied_extends(t0, layouter@);
            }
        }
        Number { value: cell }
    }

    fn mul(&self, layouter: &mut Layouter, a: Number, b: Number) -> (c: Number)
    {
        let ghost t0 = layouter@;
        let value = a.value.value.mul(&b.value.value);
        let cell = self.apply(layouter, self.config.s_mul, &a.value, Some(&b.value), value);
        proof {
            let now = layouter@;
            broadcast use Fe::canonical;

            lemma_fsub_zero(value@, value@);
            assert(self@.mul_identity(now, t0.rows as int) == Some(0nat));
            assert(now.gate_holds(self@.s_mul.index as int, t0.rows as int));
            if t0.satisfied() {
                lemma_satisfied_extends(t0, now);
            }
        }
        Number { value: cell }
    }

    fn add(&self, layouter: &mut Layouter, a: Number, b: Number) -> (c: Number)
    {
        let ghost t0 = layouter@;
        let value = a.value.value.add(&b.value.value);
        let cell = self.apply(layouter, self.config.s_add, &a.value, Some(&b.value), value);
        proof {
            let now = layouter@;
            broadcast use Fe::canonical;

            lemma_fsub_zero(value@, value@);
            assert(self@.add_identity(now, t0.rows as int) == Some(0nat));
            assert(now.gate_holds(self@.s_add.index as int, t0.rows as int));
            if t0.satisfied() {
                lemma_satisfied_extends(t0, now);
            }
        }
        Number { value: cell }
    }

    fn cube(&self, layouter: &mut Layouter, a: Number) -> (c: Number)
    {
        let ghost t0 = layouter@;
        let x = a.value.value;
        let value = x.mul(&x).mul(&x);
        let cell = self.apply(layouter, self.config.s_cube, &a.value, None, value);
        proof {
            let now = layouter@;
            lemma_cube_chain(x@);
            broadcast use Fe::canonical;

            lemma_fsub_zero(value@, value@);
            assert(self@.cube_identity(now, t0.rows as int) == Some(0nat));
            assert(now.gate_holds(self@.s_cube.index as int, t0.rows as int));
            if t0.satisfied() {
                lemma_satisfied_extends(t0, now);
            }
        }
        Number { value: cell }
    }

    fn expose_public(&self, layouter: &mut Layouter, num: Number, row: usize)
    {
        let ghost t0 = layouter@;
        layouter.constrain_instance(&num.value, self.config.instance, row);
        proof {
            let now = layouter@;
            assert(now.exposure_holds(t0.exposed.len() as int) <==> num.value.value@
                == t0.instance_at(self@.instance.index as int, row as int));
            if t0.satisfied() && now.exposure_holds(t0.exposed.len() as int) {
                lemma_satisfied_extends(t0, now);
            }
            assert forall|t: Table| #[trigger] t.extends(now) && t.satisfied()
                implies num.value.value@
                == t0.instance_at(self@.instance.index as int, row as int) by {
                assert(t.exposure_holds(t0.exposed.len() as int));
                assert(t.exposed[t0.exposed.len() as int] == now.exposed[t0.exposed.len() as int]);
                assert(t0.advice.contains_key(num.value.key()));
                assert(now.advice.contains_key(num.value.key()));
            }
        }
    }
}

} // verus!
