//! The sponge chip. One permutation is a chain of rows, each holding the state
//! before a round and that round's constants, with a gate that ties it to the
//! state on the next row; absorbing a chunk of input is a region of three rows
//! of its own.

use crate::circuit::{
    advice_indices, advice_row, cell_values, cells_tied, columns_take, columns_within, distinct,
    fixed_indices, fixed_row, grid_values, lemma_rows_extend, lemma_take_extend, row_copies,
    AssignedCell, Layouter,
};
use crate::field::{
    canonical, fadd, fmul, fpow5, lemma_canonical, lemma_fsub_zero, lemma_pow5_chain, modulus,
    values, Fe,
};
use crate::plonk::{
    lemma_constraints_extend, lemma_extends_trans, lemma_gates_extend, lemma_satisfied_extends,
    oadd, omul, osub, Advice, Column, ConstraintSystem, Expression, Fixed, Instance, Rotation,
    Selector, Table,
};
use vstd::arithmetic::div_mod::{lemma_add_mod_noop, lemma_mod_twice};
use vstd::prelude::*;

verus! {

/// The sum of the first `n` products of two vectors' elements.
pub open spec fn sum_products(v: Seq<nat>, w: Seq<nat>, n: int) -> nat
    decreases n,
{
    if n <= 0 {
        0
    } else {
        sum_products(v, w, n - 1) + v[n - 1] * w[n - 1]
    }
}

/// The inner product of two vectors in the field.
pub open spec fn dot(v: Seq<nat>, w: Seq<nat>) -> nat {
    sum_products(v, w, v.len() as int) % modulus()
}

/// The state after mixing: each element is the inner product of the state
/// with a row of the matrix.
pub open spec fn mix_layer(mid: Seq<nat>, mds: Seq<Seq<nat>>) -> Seq<nat> {
    Seq::new(mid.len(), |i: int| dot(mid, mds[i]))
}

/// The state after the constants are added and every element is raised to the
/// fifth power.
pub open spec fn full_sbox(state: Seq<nat>, arc: Seq<nat>) -> Seq<nat> {
    Seq::new(state.len(), |j: int| fpow5(fadd(state[j], arc[j])))
}

/// The state after the constants are added and the first element is raised to
/// the fifth power.
pub open spec fn partial_sbox(state: Seq<nat>, arc: Seq<nat>) -> Seq<nat> {
    Seq::new(
        state.len(),
        |j: int|
            if j == 0 {
                fpow5(fadd(state[j], arc[j]))
            } else {
                fadd(state[j], arc[j])
            },
    )
}

/// A full round.
pub open spec fn full_round(state: Seq<nat>, arc: Seq<nat>, mds: Seq<Seq<nat>>) -> Seq<nat> {
    mix_layer(full_sbox(state, arc), mds)
}

/// A partial round.
pub open spec fn partial_round(state: Seq<nat>, arc: Seq<nat>, mds: Seq<Seq<nat>>) -> Seq<nat> {
    mix_layer(partial_sbox(state, arc), mds)
}

/// Whether round `r` is a full round: the first and the last half of the full
/// rounds are, the partial rounds stand between them.
pub open spec fn is_full_round(r: int, full_rounds: int, partial_rounds: int) -> bool {
    r < full_rounds / 2 || r >= full_rounds / 2 + partial_rounds
}

/// Round `r` of the permutation.
pub open spec fn round(
    state: Seq<nat>,
    r: int,
    arcs: Seq<Seq<nat>>,
    mds: Seq<Seq<nat>>,
    full_rounds: int,
    partial_rounds: int,
) -> Seq<nat> {
    if is_full_round(r, full_rounds, partial_rounds) {
        full_round(state, arcs[r], mds)
    } else {
        partial_round(state, arcs[r], mds)
    }
}

/// The state after the first `n` rounds of the permutation.
pub open spec fn rounds(
    state: Seq<nat>,
    n: int,
    arcs: Seq<Seq<nat>>,
    mds: Seq<Seq<nat>>,
    full_rounds: int,
    partial_rounds: int,
) -> Seq<nat>
    decreases n,
{
    if n <= 0 {
        state
    } else {
        round(
            rounds(state, n - 1, arcs, mds, full_rounds, partial_rounds),
            n - 1,
            arcs,
            mds,
            full_rounds,
            partial_rounds,
        )
    }
}

/// The permutation: all the full and partial rounds.
pub open spec fn permute(
    state: Seq<nat>,
    arcs: Seq<Seq<nat>>,
    mds: Seq<Seq<nat>>,
    full_rounds: int,
    partial_rounds: int,
) -> Seq<nat> {
    rounds(state, full_rounds + partial_rounds, arcs, mds, full_rounds, partial_rounds)
}

/// The state that a sponge starts from: zero in every rate slot and the
/// capacity value in the last slot.
pub open spec fn initial_state(width: int, capacity: nat) -> Seq<nat> {
    Seq::new(
        width as nat,
        |i: int|
            if i == width - 1 {
                capacity
            } else {
                0
            },
    )
}

/// The state after a chunk is absorbed: each input is added to its rate slot,
/// and the capacity slot is passed on.
pub open spec fn absorb(state: Seq<nat>, inputs: Seq<nat>) -> Seq<nat> {
    Seq::new(
        state.len(),
        |i: int|
            if i < state.len() - 1 {
                fadd(state[i], inputs[i])
            } else {
                state[i]
            },
    )
}

/// The rounds keep the width of the state, and after a round every element
/// is below the order.
pub proof fn lemma_rounds(
    state: Seq<nat>,
    n: int,
    arcs: Seq<Seq<nat>>,
    mds: Seq<Seq<nat>>,
    full_rounds: int,
    partial_rounds: int,
)
    ensures
        rounds(state, n, arcs, mds, full_rounds, partial_rounds).len() == state.len(),
        n >= 1 ==> canonical(rounds(state, n, arcs, mds, full_rounds, partial_rounds)),
    decreases n,
{
    if n > 0 {
        lemma_rounds(state, n - 1, arcs, mds, full_rounds, partial_rounds);
    }
}

/// `v^5` as the gates compute it: `(v * v) * (v * v) * v`.
pub open spec fn opow5(v: Option<nat>) -> Option<nat> {
    omul(omul(omul(v, v), omul(v, v)), v)
}

/// The sum of the first `n` products `v[j] * w[j]` as the gates compute it,
/// from the left.
pub open spec fn omix(v: Seq<Option<nat>>, w: Seq<nat>, n: int) -> Option<nat>
    decreases n,
{
    if n <= 1 {
        omul(v[0], Some(w[0]))
    } else {
        oadd(omix(v, w, n - 1), omul(v[n - 1], Some(w[n - 1])))
    }
}

/// The values of polynomials on a row.
pub open spec fn evals(v: Seq<Expression>, t: Table, row: int) -> Seq<Option<nat>> {
    Seq::new(v.len(), |j: int| v[j].eval(t, row))
}

/// The sum of the first `n` products in the field, taken from the left.
pub open spec fn mix(v: Seq<nat>, w: Seq<nat>, n: int) -> nat
    decreases n,
{
    if n <= 1 {
        fmul(v[0], w[0])
    } else {
        fadd(mix(v, w, n - 1), fmul(v[n - 1], w[n - 1]))
    }
}

/// The sum taken from the left, reducing at each step, is the inner product.
pub proof fn lemma_mix_is_dot(v: Seq<nat>, w: Seq<nat>, n: int)
    requires
        1 <= n,
    ensures
        mix(v, w, n) == sum_products(v, w, n) % modulus(),
    decreases n,
{
    reveal(fadd);
    reveal(fmul);
    let p = modulus() as int;
    if n <= 1 {
        assert(sum_products(v, w, 0) == 0);
        assert(sum_products(v, w, 1) == v[0] * w[0]);
    } else {
        lemma_mix_is_dot(v, w, n - 1);
        let a = sum_products(v, w, n - 1) as int;
        let b = (v[n - 1] * w[n - 1]) as int;
        lemma_add_mod_noop(a, b, p);
    }
}

/// Where every value is there, the gates' sum is the sum of the values.
pub proof fn lemma_omix(v: Seq<Option<nat>>, vals: Seq<nat>, w: Seq<nat>, n: int)
    requires
        1 <= n <= v.len(),
        forall|j: int| 0 <= j < n ==> #[trigger] v[j] == Some(vals[j]),
    ensures
        omix(v, w, n) == Some(mix(vals, w, n)),
    decreases n,
{
    if n > 1 {
        lemma_omix(v, vals, w, n - 1);
    }
}

/// Where a value is missing, the gates' sum is missing.
pub proof fn lemma_omix_none(v: Seq<Option<nat>>, w: Seq<nat>, n: int, k: int)
    requires
        0 <= k < n,
        v[k] is None,
    ensures
        omix(v, w, n) is None,
    decreases n,
{
    if n > 1 && k < n - 1 {
        lemma_omix_none(v, w, n - 1, k);
    }
}

/// An assigned cell of the state.
#[derive(Clone, Copy, Debug)]
pub struct Data(pub AssignedCell);

/// The sponge's state: one assigned cell for each element.
#[derive(Debug)]
pub struct States(pub Vec<Data>);

impl Clone for States {
    fn clone(&self) -> Self {
        States(self.0.clone())
    }
}

impl States {
    /// The cells of the state.
    pub open spec fn cells(&self) -> Seq<AssignedCell> {
        self.0@.map_values(|d: Data| d.0)
    }

    /// The values of the state.
    pub open spec fn view(&self) -> Seq<nat> {
        cell_values(self.cells())
    }

    /// The cells of the state stand in the columns, in order, on the row.
    pub open spec fn placed(&self, columns: Seq<Advice>, row: int) -> bool {
        forall|j: int|
            0 <= j < self.0@.len() ==> (#[trigger] self.0@[j]).0.column == columns[j]
                && self.0@[j].0.row == row
    }

    /// The table assigns every cell of the state its value.
    pub open spec fn held_by(&self, t: Table) -> bool {
        forall|j: int| 0 <= j < self.0@.len() ==> (#[trigger] self.0@[j]).0.held_by(t)
    }
}

/// The columns, selectors and constants of the chip.
#[derive(Debug)]
pub struct PoseidonArthConfig {
    /// The columns of the state.
    pub state: Vec<Advice>,
    /// The columns of the round constants.
    pub arc: Vec<Fixed>,
    /// The public inputs.
    pub output: Instance,
    /// Enables the full-round gate.
    pub s_fbox: Selector,
    /// Enables the partial-round gate.
    pub s_pbox: Selector,
    /// Enables the add-inputs gate.
    pub s_add_inputs: Selector,
    /// The constants of each round.
    pub arc_paras: Vec<Vec<Fe>>,
    /// The mixing matrix.
    pub mds: Vec<Vec<Fe>>,
    /// The capacity value.
    pub capacity: u128,
}

impl Clone for PoseidonArthConfig {
    fn clone(&self) -> Self {
        PoseidonArthConfig {
            state: self.state.clone(),
            arc: self.arc.clone(),
            output: self.output,
            s_fbox: self.s_fbox,
            s_pbox: self.s_pbox,
            s_add_inputs: self.s_add_inputs,
            arc_paras: self.arc_paras.clone(),
            mds: self.mds.clone(),
            capacity: self.capacity,
        }
    }
}

/// The columns and the constants fit a state of at least one rate slot and a
/// capacity slot.
pub open spec fn well_shaped(
    state: Seq<Advice>,
    arc: Seq<Fixed>,
    mds: Seq<Vec<Fe>>,
    arc_paras: Seq<Vec<Fe>>,
) -> bool {
    &&& state.len() >= 2
    &&& arc.len() == state.len()
    &&& mds.len() == state.len()
    &&& forall|i: int| 0 <= i < mds.len() ==> (#[trigger] mds[i])@.len() == state.len()
    &&& forall|r: int| 0 <= r < arc_paras.len() ==> (#[trigger] arc_paras[r])@.len() == state.len()
    &&& distinct(advice_indices(state))
    &&& distinct(fixed_indices(arc))
}

impl PoseidonArthConfig {
    /// The width of the state.
    pub open spec fn width(&self) -> int {
        self.state@.len() as int
    }

    /// The columns and the constants fit the state.
    pub open spec fn wf(&self) -> bool {
        well_shaped(self.state@, self.arc@, self.mds@, self.arc_paras@)
    }

    /// The mixing matrix as values.
    pub open spec fn mds_values(&self) -> Seq<Seq<nat>> {
        grid_values(self.mds@)
    }

    /// The round constants as values.
    pub open spec fn arc_values(&self) -> Seq<Seq<nat>> {
        grid_values(self.arc_paras@)
    }

    /// Element `j` of the state on a row.
    pub open spec fn state_at(&self, t: Table, j: int, row: int) -> Option<nat> {
        t.advice_at(self.state@[j].index as int, row)
    }

    /// Constant `j` on a row.
    pub open spec fn arc_at(&self, t: Table, j: int, row: int) -> Option<nat> {
        t.fixed_at(self.arc@[j].index as int, row)
    }

    /// The state of a row after the constants are added and every element is
    /// raised to the fifth power.
    pub open spec fn full_mid(&self, t: Table, row: int) -> Seq<Option<nat>> {
        Seq::new(
            self.state@.len(),
            |j: int| opow5(oadd(self.state_at(t, j, row), self.arc_at(t, j, row))),
        )
    }

    /// The state of a row after the constants are added and the first element
    /// is raised to the fifth power.
    pub open spec fn partial_mid(&self, t: Table, row: int) -> Seq<Option<nat>> {
        Seq::new(
            self.state@.len(),
            |j: int|
                if j == 0 {
                    opow5(oadd(self.state_at(t, j, row), self.arc_at(t, j, row)))
                } else {
                    oadd(self.state_at(t, j, row), self.arc_at(t, j, row))
                },
        )
    }

    /// The value of identity `i` of the full-round gate: element `i` of the
    /// mixed state minus element `i` of the next row.
    pub open spec fn full_identity(&self, t: Table, row: int, i: int) -> Option<nat> {
        osub(
            omix(self.full_mid(t, row), self.mds_values()[i], self.width()),
            self.state_at(t, i, row + 1),
        )
    }

    /// The value of identity `i` of the partial-round gate.
    pub open spec fn partial_identity(&self, t: Table, row: int, i: int) -> Option<nat> {
        osub(
            omix(self.partial_mid(t, row), self.mds_values()[i], self.width()),
            self.state_at(t, i, row + 1),
        )
    }

    /// The value of identity `i` of the add-inputs gate: in a rate
    /// slot, the state of the row above plus the input on the row minus the
    /// state on the row below; in the capacity slot, the state above minus the
    /// state below.
    pub open spec fn add_identity(&self, t: Table, row: int, i: int) -> Option<nat> {
        if i < self.width() - 1 {
            osub(
                oadd(self.state_at(t, i, row - 1), self.state_at(t, i, row)),
                self.state_at(t, i, row + 1),
            )
        } else {
            osub(self.state_at(t, i, row - 1), self.state_at(t, i, row + 1))
        }
    }

    /// The full-round gate holds on the row.
    pub open spec fn full_gate(&self, t: Table, row: int) -> bool {
        forall|i: int| 0 <= i < self.width()
            ==> #[trigger] self.full_identity(t, row, i) == Some(0nat)
    }

    /// The partial-round gate holds on the row.
    pub open spec fn partial_gate(&self, t: Table, row: int) -> bool {
        forall|i: int|
            0 <= i < self.width() ==> #[trigger] self.partial_identity(t, row, i) == Some(0nat)
    }

    /// The add-inputs gate holds on the row.
    pub open spec fn add_gate(&self, t: Table, row: int) -> bool {
        forall|i: int| 0 <= i < self.width()
            ==> #[trigger] self.add_identity(t, row, i) == Some(0nat)
    }

    /// The table has the chip's columns: the state columns take advice, the
    /// columns of the round constants were allocated, and the instance
    /// column takes public inputs.
    pub open spec fn wired(&self, t: Table) -> bool {
        &&& columns_take(t, self.state_columns(), self.width())
        &&& columns_within(self.arc_columns(), self.width(), t.num_fixed as int)
        &&& t.takes_instance(self.output.index as int)
    }

    /// Whether a table has the chip's columns depends on its columns only.
    pub proof fn lemma_shape(&self, a: Table, b: Table)
        requires
            a.num_advice == b.num_advice,
            a.num_fixed == b.num_fixed,
            a.num_instance == b.num_instance,
            a.equality == b.equality,
        ensures
            self.wired(a) == self.wired(b),
    {
        assert forall|c: int| #[trigger] a.takes_advice(c) == b.takes_advice(c) by {}
        if self.wired(a) {
            assert forall|j: int| 0 <= j < self.width() implies b.takes_advice(
                #[trigger] self.state_columns()[j],
            ) by {
                assert(a.takes_advice(self.state_columns()[j]));
            }
        }
        if self.wired(b) {
            assert forall|j: int| 0 <= j < self.width() implies a.takes_advice(
                #[trigger] self.state_columns()[j],
            ) by {
                assert(b.takes_advice(self.state_columns()[j]));
            }
        }
    }

    /// A table that extends one that has the chip's columns has them, and
    /// the cells of a state that stands in the state columns are tied.
    pub proof fn lemma_wired(&self, old: Table, t: Table, states: States, row: int)
        requires
            t.extends(old),
            self.wired(old),
        ensures
            self.wired(t),
            states.placed(self.state@, row) && states.0@.len() <= self.width() ==> cells_tied(
                t,
                states.cells(),
            ),
    {
        lemma_take_extend(old, t, self.state_columns(), self.width());
        crate::plonk::lemma_columns_extend(old, t);
        if states.placed(self.state@, row) && states.0@.len() <= self.width() {
            assert forall|j: int| 0 <= j < states.cells().len() implies t.advice_tied(
                (#[trigger] states.cells()[j]).column.index as int,
            ) by {
                assert(states.0@[j].0.column == self.state@[j]);
                assert(t.takes_advice(self.state_columns()[j]));
            }
        }
    }

    /// The indices of the state columns.
    pub open spec fn state_columns(&self) -> Seq<int> {
        advice_indices(self.state@)
    }

    /// The indices of the columns of the round constants.
    pub open spec fn arc_columns(&self) -> Seq<int> {
        fixed_indices(self.arc@)
    }

    /// On a table with the chip's gates, each of the three holds on a row
    /// exactly when its identities are zero there.
    pub proof fn lemma_gates(&self, t: Table, row: int)
        requires
            self.installed(t.gates),
        ensures
            t.gate_holds(self.s_fbox.index as int, row) <==> self.full_gate(t, row),
            t.gate_holds(self.s_pbox.index as int, row) <==> self.partial_gate(t, row),
            t.gate_holds(self.s_add_inputs.index as int, row) <==> self.add_gate(t, row),
    {
        let fp = t.gates[self.s_fbox.index as int];
        let pp = t.gates[self.s_pbox.index as int];
        let ap = t.gates[self.s_add_inputs.index as int];
        if self.full_gate(t, row) {
            assert forall|k: int| 0 <= k < fp.len() implies (#[trigger] fp[k]).eval(t, row) == Some(
                0nat,
            ) by {
                assert(fp[k].eval(t, row) == self.full_identity(t, row, k));
            }
        }
        if t.gate_holds(self.s_fbox.index as int, row) {
            assert forall|k: int| 0 <= k < self.width() implies #[trigger] self.full_identity(
                t,
                row,
                k,
            ) == Some(0nat) by {
                assert(fp[k].eval(t, row) == self.full_identity(t, row, k));
            }
        }
        if self.partial_gate(t, row) {
            assert forall|k: int| 0 <= k < pp.len() implies (#[trigger] pp[k]).eval(t, row) == Some(
                0nat,
            ) by {
                assert(pp[k].eval(t, row) == self.partial_identity(t, row, k));
            }
        }
        if t.gate_holds(self.s_pbox.index as int, row) {
            assert forall|k: int| 0 <= k < self.width() implies #[trigger] self.partial_identity(
                t,
                row,
                k,
            ) == Some(0nat) by {
                assert(pp[k].eval(t, row) == self.partial_identity(t, row, k));
            }
        }
        if self.add_gate(t, row) {
            assert forall|k: int| 0 <= k < ap.len() implies (#[trigger] ap[k]).eval(t, row) == Some(
                0nat,
            ) by {
                assert(ap[k].eval(t, row) == self.add_identity(t, row, k));
            }
        }
        if t.gate_holds(self.s_add_inputs.index as int, row) {
            assert forall|k: int| 0 <= k < self.width() implies #[trigger] self.add_identity(
                t,
                row,
                k,
            ) == Some(0nat) by {
                assert(ap[k].eval(t, row) == self.add_identity(t, row, k));
            }
        }
    }

    /// On two rows that hold a state and the next, the first with its
    /// constants, the round gate's identity `i` is zero exactly when element
    /// `i` of the next state is that of the mixed state.
    proof fn lemma_round_identity(
        &self,
        t: Table,
        row: int,
        mid: Seq<Option<nat>>,
        vals: Seq<nat>,
        next: Seq<nat>,
        i: int,
    )
        requires
            self.wf(),
            t.wf(),
            0 <= i < self.width(),
            mid.len() == self.width(),
            vals.len() == self.width(),
            next.len() == self.width(),
            forall|j: int| 0 <= j < self.width() ==> #[trigger] mid[j] == Some(vals[j]),
            advice_row(t, self.state_columns(), row + 1, next),
        ensures
            osub(omix(mid, self.mds_values()[i], self.width()), self.state_at(t, i, row + 1))
                == Some(
                0nat,
            ) <==> next[i] == dot(vals, self.mds_values()[i]),
    {
        let w = self.mds_values()[i];
        lemma_omix(mid, vals, w, self.width());
        lemma_mix_is_dot(vals, w, self.width());
        assert(t.advice_at(self.state_columns()[i], row + 1) == Some(next[i]));
        assert(t.advice.contains_key((self.state@[i].index as int, row + 1)));
        lemma_fsub_zero(dot(vals, w), next[i]);
    }

    /// On two rows that hold a state and the next, the first with a round's
    /// constants, the full-round gate holds exactly when the next state is the
    /// state after a full round.
    pub proof fn lemma_full_gate(
        &self,
        t: Table,
        row: int,
        cur: Seq<nat>,
        arc: Seq<nat>,
        next: Seq<nat>,
    )
        requires
            self.wf(),
            t.wf(),
            cur.len() == self.width(),
            arc.len() == self.width(),
            next.len() == self.width(),
            advice_row(t, self.state_columns(), row, cur),
            fixed_row(t, self.arc_columns(), row, arc),
            advice_row(t, self.state_columns(), row + 1, next),
        ensures
            self.full_gate(t, row) <==> next == full_round(cur, arc, self.mds_values()),
    {
        let mid = self.full_mid(t, row);
        let vals = full_sbox(cur, arc);
        let want = full_round(cur, arc, self.mds_values());
        assert forall|j: int| 0 <= j < self.width() implies #[trigger] mid[j] == Some(vals[j]) by {
            assert(t.advice_at(self.state_columns()[j], row) == Some(cur[j]));
            assert(t.fixed_at(self.arc_columns()[j], row) == Some(arc[j]));
            lemma_pow5_chain(fadd(cur[j], arc[j]));
        }
        assert forall|i: int| 0 <= i < self.width() implies (#[trigger] self.full_identity(
            t,
            row,
            i,
        ) == Some(0nat) <==> next[i] == want[i]) by {
            self.lemma_round_identity(t, row, mid, vals, next, i);
        }
        if self.full_gate(t, row) {
            assert forall|i: int| 0 <= i < self.width() implies next[i] == want[i] by {
                assert(self.full_identity(t, row, i) == Some(0nat));
            }
            assert(next =~= want);
        }
    }

    /// On two rows that hold a state and the next, the first with a round's
    /// constants, the partial-round gate holds exactly when the next state is
    /// the state after a partial round.
    pub proof fn lemma_partial_gate(
        &self,
        t: Table,
        row: int,
        cur: Seq<nat>,
        arc: Seq<nat>,
        next: Seq<nat>,
    )
        requires
            self.wf(),
            t.wf(),
            cur.len() == self.width(),
            arc.len() == self.width(),
            next.len() == self.width(),
            advice_row(t, self.state_columns(), row, cur),
            fixed_row(t, self.arc_columns(), row, arc),
            advice_row(t, self.state_columns(), row + 1, next),
        ensures
            self.partial_gate(t, row) <==> next == partial_round(cur, arc, self.mds_values()),
    {
        let mid = self.partial_mid(t, row);
        let vals = partial_sbox(cur, arc);
        let want = partial_round(cur, arc, self.mds_values());
        assert forall|j: int| 0 <= j < self.width() implies #[trigger] mid[j] == Some(vals[j]) by {
            assert(t.advice_at(self.state_columns()[j], row) == Some(cur[j]));
            assert(t.fixed_at(self.arc_columns()[j], row) == Some(arc[j]));
            lemma_pow5_chain(fadd(cur[j], arc[j]));
        }
        assert forall|i: int| 0 <= i < self.width() implies (#[trigger] self.partial_identity(
            t,
            row,
            i,
        ) == Some(0nat) <==> next[i] == want[i]) by {
            self.lemma_round_identity(t, row, mid, vals, next, i);
        }
        if self.partial_gate(t, row) {
            assert forall|i: int| 0 <= i < self.width() implies next[i] == want[i] by {
                assert(self.partial_identity(t, row, i) == Some(0nat));
            }
            assert(next =~= want);
        }
    }

    /// On three rows that hold a state, a chunk of input and a state, the
    /// add-inputs gate holds on the middle row exactly when the last state is
    /// the first with the chunk absorbed.
    pub proof fn lemma_add_gate(
        &self,
        t: Table,
        row: int,
        state: Seq<nat>,
        inputs: Seq<nat>,
        out: Seq<nat>,
    )
        requires
            self.wf(),
            t.wf(),
            state.len() == self.width(),
            inputs.len() == self.width() - 1,
            out.len() == self.width(),
            advice_row(t, self.state_columns(), row - 1, state),
            advice_row(t, self.state_columns(), row, inputs),
            advice_row(t, self.state_columns(), row + 1, out),
        ensures
            self.add_gate(t, row) <==> out == absorb(state, inputs),
    {
        let want = absorb(state, inputs);
        let cols = self.state_columns();
        assert forall|i: int| 0 <= i < self.width() implies (#[trigger] self.add_identity(
            t,
            row,
            i,
        ) == Some(0nat) <==> out[i] == want[i]) by {
            assert(t.advice_at(cols[i], row - 1) == Some(state[i]));
            assert(t.advice_at(cols[i], row + 1) == Some(out[i]));
            assert(t.advice.contains_key((cols[i], row - 1)));
            assert(t.advice.contains_key((cols[i], row + 1)));
            if i < self.width() - 1 {
                assert(t.advice_at(cols[i], row) == Some(inputs[i]));
                lemma_canonical(state[i], inputs[i]);
                lemma_fsub_zero(fadd(state[i], inputs[i]), out[i]);
            } else {
                lemma_fsub_zero(state[i], out[i]);
            }
        }
        if self.add_gate(t, row) {
            assert forall|i: int| 0 <= i < self.width() implies out[i] == want[i] by {
                assert(self.add_identity(t, row, i) == Some(0nat));
            }
            assert(out =~= want);
        }
    }

    /// The values of the state on a row, zero where a cell is not assigned.
    pub open spec fn state_row(&self, t: Table, row: int) -> Seq<nat> {
        Seq::new(
            self.state@.len(),
            |j: int|
                match self.state_at(t, j, row) {
                    Some(v) => v,
                    None => 0,
                },
        )
    }

    /// The values of the constants on a row, zero where a cell is not
    /// assigned.
    pub open spec fn arc_row(&self, t: Table, row: int) -> Seq<nat> {
        Seq::new(
            self.state@.len(),
            |j: int|
                match self.arc_at(t, j, row) {
                    Some(v) => v,
                    None => 0,
                },
        )
    }

    /// Identity `i` of a round gate whose state after the S-box is `mid`.
    pub open spec fn round_identity(
        &self,
        mid: Seq<Option<nat>>,
        t: Table,
        row: int,
        i: int,
    ) -> Option<nat> {
        osub(omix(mid, self.mds_values()[i], self.width()), self.state_at(t, i, row + 1))
    }

    /// Where a round gate's identities are all there, the state of the row,
    /// its constants and the state of the next row are assigned.
    proof fn lemma_round_assigned(&self, t: Table, row: int, mid: Seq<Option<nat>>)
        requires
            self.wf(),
            mid.len() == self.width(),
            forall|j: int|
                0 <= j < self.width() && (#[trigger] mid[j]) is Some ==> self.state_at(t, j, row)
                    is Some && self.arc_at(t, j, row) is Some,
            forall|i: int|
                0 <= i < self.width() ==> (#[trigger] self.round_identity(mid, t, row, i)) is Some,
        ensures
            advice_row(t, self.state_columns(), row, self.state_row(t, row)),
            fixed_row(t, self.arc_columns(), row, self.arc_row(t, row)),
            advice_row(t, self.state_columns(), row + 1, self.state_row(t, row + 1)),
    {
        let w = self.mds_values()[0];
        assert(self.round_identity(mid, t, row, 0) is Some);
        assert(omix(mid, w, self.width()) is Some);
        let cols = self.state_columns();
        assert forall|j: int| 0 <= j < self.width() implies #[trigger] t.advice_at(cols[j], row)
            == Some(self.state_row(t, row)[j]) by {
            if mid[j] is None {
                lemma_omix_none(mid, w, self.width(), j);
            }
            assert(self.state_at(t, j, row) is Some);
        }
        assert forall|j: int| 0 <= j < self.width() implies #[trigger] t.advice_at(
            cols[j],
            row + 1,
        ) == Some(self.state_row(t, row + 1)[j]) by {
            assert(self.round_identity(mid, t, row, j) is Some);
            assert(self.state_at(t, j, row + 1) is Some);
        }
        let arcs = self.arc_columns();
        assert forall|j: int| 0 <= j < self.width() implies #[trigger] t.fixed_at(arcs[j], row)
            == Some(self.arc_row(t, row)[j]) by {
            if mid[j] is None {
                lemma_omix_none(mid, w, self.width(), j);
            }
            assert(self.arc_at(t, j, row) is Some);
        }
    }

    /// On any table, a row on which the full-round gate holds assigns the
    /// state, and the state of the next row is the state after a full round
    /// with the row's constants.
    pub proof fn lemma_full_gate_sound(&self, t: Table, row: int)
        requires
            self.wf(),
            t.wf(),
            self.full_gate(t, row),
        ensures
            advice_row(t, self.state_columns(), row, self.state_row(t, row)),
            fixed_row(t, self.arc_columns(), row, self.arc_row(t, row)),
            advice_row(t, self.state_columns(), row + 1, self.state_row(t, row + 1)),
            self.state_row(t, row + 1) == full_round(
                self.state_row(t, row),
                self.arc_row(t, row),
                self.mds_values(),
            ),
    {
        let mid = self.full_mid(t, row);
        assert forall|i: int| 0 <= i < self.width() implies (#[trigger] self.round_identity(
            mid,
            t,
            row,
            i,
        )) is Some by {
            assert(self.full_identity(t, row, i) == Some(0nat));
        }
        self.lemma_round_assigned(t, row, mid);
        self.lemma_full_gate(
            t,
            row,
            self.state_row(t, row),
            self.arc_row(t, row),
            self.state_row(t, row + 1),
        );
    }

    /// On any table, a row on which the partial-round gate holds assigns the
    /// state, and the state of the next row is the state after a partial
    /// round with the row's constants.
    pub proof fn lemma_partial_gate_sound(&self, t: Table, row: int)
        requires
            self.wf(),
            t.wf(),
            self.partial_gate(t, row),
        ensures
            advice_row(t, self.state_columns(), row, self.state_row(t, row)),
            fixed_row(t, self.arc_columns(), row, self.arc_row(t, row)),
            advice_row(t, self.state_columns(), row + 1, self.state_row(t, row + 1)),
            self.state_row(t, row + 1) == partial_round(
                self.state_row(t, row),
                self.arc_row(t, row),
                self.mds_values(),
            ),
    {
        let mid = self.partial_mid(t, row);
        assert forall|i: int| 0 <= i < self.width() implies (#[trigger] self.round_identity(
            mid,
            t,
            row,
            i,
        )) is Some by {
            assert(self.partial_identity(t, row, i) == Some(0nat));
        }
        self.lemma_round_assigned(t, row, mid);
        self.lemma_partial_gate(
            t,
            row,
            self.state_row(t, row),
            self.arc_row(t, row),
            self.state_row(t, row + 1),
        );
    }

    /// The selector of round `r`: that of the full-round gate or that of the
    /// partial-round gate.
    pub open spec fn round_selector(&self, r: int, full_rounds: int, partial_rounds: int) -> int {
        if is_full_round(r, full_rounds, partial_rounds) {
            self.s_fbox.index as int
        } else {
            self.s_pbox.index as int
        }
    }

    /// Row `s + r` holds round `r` of a permutation: the constants of the
    /// round, and the round's gate, full or partial, holds there.
    pub open spec fn round_laid(
        &self,
        t: Table,
        s: int,
        full_rounds: int,
        partial_rounds: int,
        r: int,
    ) -> bool {
        &&& fixed_row(t, self.arc_columns(), s + r, self.arc_values()[r])
        &&& if is_full_round(r, full_rounds, partial_rounds) {
            self.full_gate(t, s + r)
        } else {
            self.partial_gate(t, s + r)
        }
    }

    /// The rows from `s` on hold the first `n` rounds of a permutation.
    pub open spec fn rounds_laid(
        &self,
        t: Table,
        s: int,
        full_rounds: int,
        partial_rounds: int,
        n: int,
    ) -> bool {
        forall|r: int|
            0 <= r < n ==> #[trigger] self.round_laid(t, s, full_rounds, partial_rounds, r)
    }

    /// The rows from `s` on hold the round gates of a permutation.
    pub open spec fn permutation_gates(
        &self,
        t: Table,
        s: int,
        full_rounds: int,
        partial_rounds: int,
    ) -> bool {
        self.rounds_laid(t, s, full_rounds, partial_rounds, full_rounds + partial_rounds)
    }

    /// Rows that hold the first `n` rounds and round `n` hold the first
    /// `n + 1` rounds.
    pub proof fn lemma_rounds_laid_step(
        &self,
        t: Table,
        s: int,
        full_rounds: int,
        partial_rounds: int,
        n: int,
    )
        requires
            0 <= n,
            self.rounds_laid(t, s, full_rounds, partial_rounds, n),
            self.round_laid(t, s, full_rounds, partial_rounds, n),
        ensures
            self.rounds_laid(t, s, full_rounds, partial_rounds, n + 1),
    {
        assert forall|r: int| 0 <= r < n + 1 implies #[trigger] self.round_laid(
            t,
            s,
            full_rounds,
            partial_rounds,
            r,
        ) by {
            if r < n {
                assert(self.round_laid(t, s, full_rounds, partial_rounds, r));
            }
        }
    }

    /// Where the selectors of the first `n` rounds were enabled since `old`
    /// and then that of round `n`, those of the first `n + 1` rounds were.
    pub proof fn lemma_rounds_enabled_step(
        &self,
        old: Table,
        before: Table,
        t: Table,
        s: int,
        full_rounds: int,
        partial_rounds: int,
        n: int,
    )
        requires
            0 <= n,
            self.rounds_enabled(old, before, s, full_rounds, partial_rounds, n),
            t.enabled == before.enabled.insert(
                (self.round_selector(n, full_rounds, partial_rounds), s + n),
            ),
        ensures
            self.rounds_enabled(old, t, s, full_rounds, partial_rounds, n + 1),
    {
        assert forall|g: int, row: int| #[trigger]
            t.enabled.contains((g, row)) <==> old.enabled.contains((g, row)) || (s <= row < s + n
                + 1 && g == self.round_selector(row - s, full_rounds, partial_rounds)) by {
            assert(before.enabled.contains((g, row)) <==> old.enabled.contains((g, row)) || (s
                <= row < s + n && g == self.round_selector(
                row - s,
                full_rounds,
                partial_rounds,
            )));
        }
    }

    /// The selectors of the rounds are enabled on the rows from `s` on, the
    /// first `n` of them, and no other gate was enabled since `old`.
    pub open spec fn rounds_enabled(
        &self,
        old: Table,
        t: Table,
        s: int,
        full_rounds: int,
        partial_rounds: int,
        n: int,
    ) -> bool {
        forall|g: int, row: int| #[trigger]
            t.enabled.contains((g, row)) <==> old.enabled.contains((g, row)) || (s <= row < s + n
                && g == self.round_selector(row - s, full_rounds, partial_rounds))
    }

    /// Rows that hold the first rounds of a permutation hold them on every
    /// table that extends the table.
    pub proof fn lemma_rounds_laid_extend(
        &self,
        old: Table,
        t: Table,
        s: int,
        full_rounds: int,
        partial_rounds: int,
        n: int,
    )
        requires
            t.extends(old),
            self.installed(old.gates),
            self.rounds_laid(old, s, full_rounds, partial_rounds, n),
        ensures
            self.rounds_laid(t, s, full_rounds, partial_rounds, n),
    {
        lemma_gates_extend(old, t);
        assert forall|r: int| 0 <= r < n implies #[trigger] self.round_laid(
            t,
            s,
            full_rounds,
            partial_rounds,
            r,
        ) by {
            assert(self.round_laid(old, s, full_rounds, partial_rounds, r));
            lemma_rows_extend(old, t, self.arc_columns(), s + r, self.arc_values()[r]);
            self.lemma_gates(old, s + r);
            self.lemma_gates(t, s + r);
            if is_full_round(r, full_rounds, partial_rounds) {
                assert(old.gate_holds(self.s_fbox.index as int, s + r));
            } else {
                assert(old.gate_holds(self.s_pbox.index as int, s + r));
            }
        }
    }

    /// On any table whose rows from `s` on hold the round gates of a
    /// permutation, whatever was assigned, the state `n` rows below row `s` is
    /// the state of row `s` after `n` rounds; after all rounds it is the
    /// permuted state.
    pub proof fn lemma_permutation_sound(
        &self,
        t: Table,
        s: int,
        full_rounds: int,
        partial_rounds: int,
        n: int,
    )
        requires
            self.wf(),
            t.wf(),
            0 <= n <= full_rounds + partial_rounds,
            full_rounds + partial_rounds == self.arc_values().len(),
            self.permutation_gates(t, s, full_rounds, partial_rounds),
        ensures
            self.state_row(t, s + n) == rounds(
                self.state_row(t, s),
                n,
                self.arc_values(),
                self.mds_values(),
                full_rounds,
                partial_rounds,
            ),
        decreases n,
    {
        if n > 0 {
            self.lemma_permutation_sound(t, s, full_rounds, partial_rounds, n - 1);
            let r = n - 1;
            let want = self.arc_values()[r];
            assert(self.round_laid(t, s, full_rounds, partial_rounds, r));
            assert(fixed_row(t, self.arc_columns(), s + r, want));
            assert(want.len() == self.width()) by {
                assert(self.arc_paras@[r]@.len() == self.width());
            }
            if is_full_round(r, full_rounds, partial_rounds) {
                self.lemma_full_gate_sound(t, s + r);
            } else {
                self.lemma_partial_gate_sound(t, s + r);
            }
            assert(self.arc_row(t, s + r) =~= want) by {
                assert forall|j: int| 0 <= j < self.width() implies self.arc_row(t, s + r)[j]
                    == want[j] by {
                    assert(t.fixed_at(self.arc_columns()[j], s + r) == Some(want[j]));
                }
            }
        }
    }

    /// The gates that the selectors enable are the chip's three gates.
    pub open spec fn installed(&self, gates: Seq<Seq<Expression>>) -> bool {
        &&& self.s_fbox.index < gates.len()
        &&& self.s_pbox.index < gates.len()
        &&& self.s_add_inputs.index < gates.len()
        &&& self.s_fbox.index != self.s_pbox.index
        &&& self.s_fbox.index != self.s_add_inputs.index
        &&& self.s_pbox.index != self.s_add_inputs.index
        &&& gates[self.s_fbox.index as int].len() == self.width()
        &&& gates[self.s_pbox.index as int].len() == self.width()
        &&& gates[self.s_add_inputs.index as int].len() == self.width()
        &&& forall|i: int, t: Table, row: int|
            0 <= i < self.width() ==> (#[trigger] gates[self.s_fbox.index as int][i].eval(t, row))
                == self.full_identity(t, row, i)
        &&& forall|i: int, t: Table, row: int|
            0 <= i < self.width() ==> (#[trigger] gates[self.s_pbox.index as int][i].eval(t, row))
                == self.partial_identity(t, row, i)
        &&& forall|i: int, t: Table, row: int|
            0 <= i < self.width() ==> (#[trigger] gates[self.s_add_inputs.index as int][i].eval(
                t,
                row,
            )) == self.add_identity(t, row, i)
    }
}

/// `v^5`.
fn pow_5(v: &Expression) -> (r: Expression)
    ensures
        forall|t: Table, row: int| #[trigger] r.eval(t, row) == opow5(v.eval(t, row)),
{
    let v2 = Expression::product(v.duplicate(), v.duplicate());
    Expression::product(Expression::product(v2.duplicate(), v2), v.duplicate())
}

/// The inner product of the polynomials with a row of the matrix.
fn mix_expr(v: &Vec<Expression>, mds_row: &Vec<Fe>) -> (r: Expression)
    requires
        1 <= v@.len(),
        mds_row@.len() == v@.len(),
    ensures
        forall|t: Table, row: int| #[trigger]
            r.eval(t, row) == omix(evals(v@, t, row), values(mds_row@), v@.len() as int),
{
    let mut acc = Expression::scaled(v[0].duplicate(), mds_row[0]);
    let mut j: usize = 1;
    while j < v.len()
        invariant
            1 <= j <= v@.len(),
            mds_row@.len() == v@.len(),
            forall|t: Table, row: int| #[trigger]
                acc.eval(t, row) == omix(evals(v@, t, row), values(mds_row@), j as int),
        decreases v@.len() - j,
    {
        let ghost prev = acc;
        let term = Expression::scaled(v[j].duplicate(), mds_row[j]);
        acc = Expression::sum(acc, term);
        proof {
            assert forall|t: Table, row: int| #[trigger]
                acc.eval(t, row) == omix(evals(v@, t, row), values(mds_row@), j + 1) by {
                assert(prev.eval(t, row) == omix(evals(v@, t, row), values(mds_row@), j as int));
                assert(term.eval(t, row)
                    == omul(v@[j as int].eval(t, row), Some(mds_row@[j as int]@)));
            }
        }
        j = j + 1;
    }
    acc
}

impl PoseidonArthConfig {
    /// The state columns on the row at the rotation.
    fn query_state(&self, rotation: i32) -> (r: Vec<Expression>)
        ensures
            r@.len() == self.width(),
            forall|j: int, t: Table, row: int|
                0 <= j < self.width() ==> (#[trigger] r@[j].eval(t, row)) == self.state_at(
                    t,
                    j,
                    row + rotation,
                ),
    {
        let mut r: Vec<Expression> = Vec::new();
        let mut j: usize = 0;
        while j < self.state.len()
            invariant
                j <= self.width(),
                r@.len() == j,
                forall|i: int, t: Table, row: int|
                    0 <= i < j ==> (#[trigger] r@[i].eval(t, row)) == self.state_at(
                        t,
                        i,
                        row + rotation,
                    ),
            decreases self.width() - j,
        {
            r.push(Expression::advice(self.state[j], Rotation(rotation)));
            j = j + 1;
        }
        r
    }

    /// The state of the row with the constants added.
    fn query_sums(&self) -> (r: Vec<Expression>)
        requires
            self.wf(),
        ensures
            r@.len() == self.width(),
            forall|j: int, t: Table, row: int|
                0 <= j < self.width() ==> (#[trigger] r@[j].eval(t, row)) == oadd(
                    self.state_at(t, j, row),
                    self.arc_at(t, j, row),
                ),
    {
        let mut r: Vec<Expression> = Vec::new();
        let mut j: usize = 0;
        while j < self.state.len()
            invariant
                j <= self.width(),
                self.wf(),
                r@.len() == j,
                forall|i: int, t: Table, row: int|
                    0 <= i < j ==> (#[trigger] r@[i].eval(t, row)) == oadd(
                        self.state_at(t, i, row),
                        self.arc_at(t, i, row),
                    ),
            decreases self.width() - j,
        {
            let state = Expression::advice(self.state[j], Rotation::cur());
            let arc = Expression::fixed(self.arc[j], Rotation::cur());
            r.push(Expression::sum(state, arc));
            j = j + 1;
        }
        r
    }

    /// The identities of a round gate: each element of the mixed state minus
    /// the element on the next row.
    fn round_polys(&self, mid: &Vec<Expression>) -> (polys: Vec<Expression>)
        requires
            self.wf(),
            mid@.len() == self.width(),
        ensures
            polys@.len() == self.width(),
            forall|i: int, t: Table, row: int|
                0 <= i < self.width() ==> (#[trigger] polys@[i].eval(t, row)) == osub(
                    omix(evals(mid@, t, row), self.mds_values()[i], self.width()),
                    self.state_at(t, i, row + 1),
                ),
    {
        let next_states = self.query_state(1);
        let mut polys: Vec<Expression> = Vec::new();
        let mut i: usize = 0;
        while i < self.state.len()
            invariant
                i <= self.width(),
                self.wf(),
                mid@.len() == self.width(),
                next_states@.len() == self.width(),
                polys@.len() == i,
                forall|j: int, t: Table, row: int|
                    0 <= j < self.width() ==> (#[trigger] next_states@[j].eval(t, row))
                        == self.state_at(t, j, row + 1),
                forall|k: int, t: Table, row: int|
                    0 <= k < i ==> (#[trigger] polys@[k].eval(t, row)) == osub(
                        omix(evals(mid@, t, row), self.mds_values()[k], self.width()),
                        self.state_at(t, k, row + 1),
                    ),
            decreases self.width() - i,
        {
            assert(self.mds@[i as int]@.len() == self.width());
            let mixed = mix_expr(mid, &self.mds[i]);
            let e = Expression::difference(mixed, next_states[i].duplicate());
            proof {
                assert(self.mds_values()[i as int] == values(self.mds@[i as int]@));
                assert forall|t: Table, row: int| #[trigger]
                    e.eval(t, row) == osub(
                        omix(evals(mid@, t, row), self.mds_values()[i as int], self.width()),
                        self.state_at(t, i as int, row + 1),
                    ) by {
                    assert(next_states@[i as int].eval(t, row) == self.state_at(
                        t,
                        i as int,
                        row + 1,
                    ));
                }
            }
            polys.push(e);
            i = i + 1;
        }
        polys
    }

    /// The identities of the full-round gate.
    fn full_polys(&self) -> (polys: Vec<Expression>)
        requires
            self.wf(),
        ensures
            polys@.len() == self.width(),
            forall|i: int, t: Table, row: int|
                0 <= i < self.width() ==> (#[trigger] polys@[i].eval(t, row)) == self.full_identity(
                    t,
                    row,
                    i,
                ),
    {
        let sums = self.query_sums();
        // (s[j] + arc[j])^5
        let mut mid: Vec<Expression> = Vec::new();
        let mut j: usize = 0;
        while j < sums.len()
            invariant
                j <= sums@.len(),
                sums@.len() == self.width(),
                mid@.len() == j,
                forall|i: int, t: Table, row: int|
                    0 <= i < self.width() ==> (#[trigger] sums@[i].eval(t, row)) == oadd(
                        self.state_at(t, i, row),
                        self.arc_at(t, i, row),
                    ),
                forall|i: int, t: Table, row: int|
                    0 <= i < j ==> (#[trigger] mid@[i].eval(t, row)) == opow5(
                        oadd(self.state_at(t, i, row), self.arc_at(t, i, row)),
                    ),
            decreases sums@.len() - j,
        {
            let e = pow_5(&sums[j]);
            proof {
                assert forall|t: Table, row: int| #[trigger]
                    e.eval(t, row) == opow5(
                        oadd(self.state_at(t, j as int, row), self.arc_at(t, j as int, row)),
                    ) by {
                    assert(sums@[j as int].eval(t, row) == oadd(
                        self.state_at(t, j as int, row),
                        self.arc_at(t, j as int, row),
                    ));
                }
            }
            mid.push(e);
            j = j + 1;
        }
        let polys = self.round_polys(&mid);
        proof {
            assert forall|i: int, t: Table, row: int| 0 <= i < self.width() implies (
            #[trigger] polys@[i].eval(t, row)) == self.full_identity(t, row, i) by {
                assert(evals(mid@, t, row) =~= self.full_mid(t, row));
            }
        }
        polys
    }

    /// The identities of the partial-round gate.
    fn partial_polys(&self) -> (polys: Vec<Expression>)
        requires
            self.wf(),
        ensures
            polys@.len() == self.width(),
            forall|i: int, t: Table, row: int|
                0 <= i < self.width() ==> (#[trigger] polys@[i].eval(t, row))
                    == self.partial_identity(t, row, i),
    {
        let sums = self.query_sums();
        let mut mid: Vec<Expression> = Vec::new();
        mid.push(pow_5(&sums[0]));
        let mut j: usize = 1;
        while j < sums.len()
            invariant
                1 <= j <= sums@.len(),
                sums@.len() == self.width(),
                mid@.len() == j,
                forall|i: int, t: Table, row: int|
                    0 <= i < self.width() ==> (#[trigger] sums@[i].eval(t, row)) == oadd(
                        self.state_at(t, i, row),
                        self.arc_at(t, i, row),
                    ),
                forall|t: Table, row: int| #[trigger]
                    mid@[0].eval(t, row) == opow5(
                        oadd(self.state_at(t, 0, row), self.arc_at(t, 0, row)),
                    ),
                forall|i: int, t: Table, row: int|
                    1 <= i < j ==> (#[trigger] mid@[i].eval(t, row)) == oadd(
                        self.state_at(t, i, row),
                        self.arc_at(t, i, row),
                    ),
            decreases sums@.len() - j,
        {
            mid.push(sums[j].duplicate());
            j = j + 1;
        }
        let polys = self.round_polys(&mid);
        proof {
            assert forall|i: int, t: Table, row: int| 0 <= i < self.width() implies (
            #[trigger] polys@[i].eval(t, row)) == self.partial_identity(t, row, i) by {
                assert(evals(mid@, t, row) =~= self.partial_mid(t, row)) by {
                    assert(mid@[0].eval(t, row) == opow5(
                        oadd(self.state_at(t, 0, row), self.arc_at(t, 0, row)),
                    ));
                }
            }
        }
        polys
    }

    /// The identities of the add-inputs gate.
    fn add_polys(&self) -> (polys: Vec<Expression>)
        requires
            self.wf(),
        ensures
            polys@.len() == self.width(),
            forall|i: int, t: Table, row: int|
                0 <= i < self.width() ==> (#[trigger] polys@[i].eval(t, row)) == self.add_identity(
                    t,
                    row,
                    i,
                ),
    {
        let pos = self.state.len() - 1;
        let mut polys: Vec<Expression> = Vec::new();
        let mut idx: usize = 0;
        while idx < pos
            invariant
                idx <= pos,
                pos == self.width() - 1,
                polys@.len() == idx,
                forall|i: int, t: Table, row: int|
                    0 <= i < idx ==> (#[trigger] polys@[i].eval(t, row)) == self.add_identity(
                        t,
                        row,
                        i,
                    ),
            decreases pos - idx,
        {
            let initial_state = Expression::advice(self.state[idx], Rotation::prev());
            let input = Expression::advice(self.state[idx], Rotation::cur());
            let output_state = Expression::advice(self.state[idx], Rotation::next());
            let total = Expression::sum(initial_state, input);
            let e = Expression::difference(total, output_state);
            proof {
                assert forall|t: Table, row: int| #[trigger]
                    e.eval(t, row) == self.add_identity(t, row, idx as int) by {
                    assert(total.eval(t, row) == oadd(
                        initial_state.eval(t, row),
                        input.eval(t, row),
                    ));
                }
            }
            polys.push(e);
            idx = idx + 1;
        }
        // The capacity element is never altered by the input.
        let initial_state_rate = Expression::advice(self.state[pos], Rotation::prev());
        let output_state_rate = Expression::advice(self.state[pos], Rotation::next());
        polys.push(Expression::difference(initial_state_rate, output_state_rate));
        polys
    }
}

impl States {
    /// The cells of the state.
    pub fn to_cells(&self) -> (r: Vec<AssignedCell>)
        ensures
            r@ == self.cells(),
    {
        let mut r: Vec<AssignedCell> = Vec::new();
        let mut j: usize = 0;
        while j < self.0.len()
            invariant
                j <= self.0@.len(),
                r@.len() == j,
                forall|i: int| 0 <= i < j ==> #[trigger] r@[i] == self.0@[i].0,
            decreases self.0@.len() - j,
        {
            r.push(self.0[j].0);
            j = j + 1;
        }
        assert(r@ =~= self.cells());
        r
    }

    /// A copy of the state.
    pub fn duplicate(&self) -> (r: States)
        ensures
            r.0@ == self.0@,
    {
        let mut d: Vec<Data> = Vec::new();
        let mut j: usize = 0;
        while j < self.0.len()
            invariant
                j <= self.0@.len(),
                d@ == self.0@.take(j as int),
            decreases self.0@.len() - j,
        {
            d.push(self.0[j]);
            assert(self.0@.take(j + 1) =~= self.0@.take(j as int).push(self.0@[j as int]));
            j = j + 1;
        }
        assert(self.0@.take(self.0@.len() as int) =~= self.0@);
        States(d)
    }

    /// The state made of the cells.
    pub fn from_cells(cells: &Vec<AssignedCell>) -> (r: States)
        ensures
            r.cells() == cells@,
    {
        let mut d: Vec<Data> = Vec::new();
        let mut j: usize = 0;
        while j < cells.len()
            invariant
                j <= cells@.len(),
                d@.len() == j,
                forall|i: int| 0 <= i < j ==> (#[trigger] d@[i]).0 == cells@[i],
            decreases cells@.len() - j,
        {
            d.push(Data(cells[j]));
            j = j + 1;
        }
        let r = States(d);
        assert(r.cells() =~= cells@);
        r
    }
}

/// The values that the cells record.
fn values_of(cells: &Vec<AssignedCell>) -> (r: Vec<Fe>)
    ensures
        values(r@) == cell_values(cells@),
        r@.len() == cells@.len(),
{
    let mut r: Vec<Fe> = Vec::new();
    let mut j: usize = 0;
    while j < cells.len()
        invariant
            j <= cells@.len(),
            r@.len() == j,
            forall|i: int| 0 <= i < j ==> #[trigger] r@[i] == cells@[i].value,
        decreases cells@.len() - j,
    {
        r.push(cells[j].value);
        j = j + 1;
    }
    assert(values(r@) =~= cell_values(cells@));
    r
}

/// The fifth power.
fn pbox(x: &Fe) -> (r: Fe)
    ensures
        r@ == fpow5(x@),
{
    let r = x.mul(x).mul(x).mul(x).mul(x);
    proof {
        lemma_pow5_chain(x@);
    }
    r
}

/// The state after a round's constants are added and the S-box is applied, to
/// every element in a full round and to the first in a partial round.
pub fn sbox_values(state: &Vec<Fe>, arc: &Vec<Fe>, full: bool) -> (r: Vec<Fe>)
    requires
        arc@.len() == state@.len(),
    ensures
        r@.len() == state@.len(),
        values(r@) == (if full {
            full_sbox(values(state@), values(arc@))
        } else {
            partial_sbox(values(state@), values(arc@))
        }),
{
    let mut temp: Vec<Fe> = Vec::new();
    let mut i: usize = 0;
    while i < state.len()
        invariant
            i <= state@.len(),
            arc@.len() == state@.len(),
            temp@.len() == i,
            forall|j: int|
                0 <= j < i ==> (#[trigger] temp@[j])@ == (if full || j == 0 {
                    fpow5(fadd(state@[j]@, arc@[j]@))
                } else {
                    fadd(state@[j]@, arc@[j]@)
                }),
        decreases state@.len() - i,
    {
        let sum = state[i].add(&arc[i]);
        if full || i == 0 {
            temp.push(pbox(&sum));
        } else {
            temp.push(sum);
        }
        i = i + 1;
    }
    proof {
        if full {
            assert(values(temp@) =~= full_sbox(values(state@), values(arc@)));
        } else {
            assert(values(temp@) =~= partial_sbox(values(state@), values(arc@)));
        }
    }
    temp
}

/// The inner product of two vectors.
pub fn dot_values(v: &Vec<Fe>, w: &Vec<Fe>) -> (r: Fe)
    requires
        w@.len() == v@.len(),
    ensures
        r@ == dot(values(v@), values(w@)),
{
    let mut sum = Fe::zero();
    let mut j: usize = 0;
    while j < v.len()
        invariant
            j <= v@.len(),
            w@.len() == v@.len(),
            sum@ == sum_products(values(v@), values(w@), j as int) % modulus(),
        decreases v@.len() - j,
    {
        let ghost before = sum@;
        sum = sum.add(&v[j].mul(&w[j]));
        proof {
            reveal(fadd);
            reveal(fmul);
            let p = modulus() as int;
            let a = sum_products(values(v@), values(w@), j as int) as int;
            let b = (v@[j as int]@ * w@[j as int]@) as int;
            lemma_add_mod_noop(a, b, p);
            lemma_mod_twice(a, p);
            lemma_mod_twice(b, p);
            lemma_add_mod_noop(a % p, b % p, p);
        }
        j = j + 1;
    }
    sum
}

/// The state after mixing.
pub fn mix_values(temp: &Vec<Fe>, mds: &Vec<Vec<Fe>>) -> (r: Vec<Fe>)
    requires
        mds@.len() == temp@.len(),
        forall|i: int| 0 <= i < mds@.len() ==> (#[trigger] mds@[i])@.len() == temp@.len(),
    ensures
        r@.len() == temp@.len(),
        values(r@) == mix_layer(values(temp@), grid_values(mds@)),
{
    let mut out: Vec<Fe> = Vec::new();
    let mut i: usize = 0;
    while i < temp.len()
        invariant
            i <= temp@.len(),
            mds@.len() == temp@.len(),
            forall|k: int| 0 <= k < mds@.len() ==> (#[trigger] mds@[k])@.len() == temp@.len(),
            out@.len() == i,
            forall|k: int|
                0 <= k < i ==> (#[trigger] out@[k])@ == dot(values(temp@), values(mds@[k]@)),
        decreases temp@.len() - i,
    {
        out.push(dot_values(temp, &mds[i]));
        i = i + 1;
    }
    assert(values(out@) =~= mix_layer(values(temp@), grid_values(mds@)));
    out
}

/// What a sponge chip does: it starts a state, absorbs inputs into it, permutes
/// it and binds its first element to a public input.
pub trait PoseidonInstructions {
    /// The chip's configuration.
    spec fn view(&self) -> PoseidonArthConfig;

    /// Assigns the state that a sponge starts from on a new row: zero in every
    /// rate slot and the capacity value in the last slot.
    fn initiate(&self, layouter: &mut Layouter) -> (states: States)
        requires
            self@.wf(),
            old(layouter)@.rows + 1 < usize::MAX,
        ensures
            states@ == initial_state(self@.width(), self@.capacity as nat),
            states.0@.len() == self@.width(),
            states.held_by(final(layouter)@),
            states.placed(self@.state@, old(layouter)@.rows as int),
            final(layouter)@.extends(old(layouter)@),
            final(layouter)@.rows == old(layouter)@.rows + 1,
            final(layouter)@.enabled == old(layouter)@.enabled,
            final(layouter)@.copies == old(layouter)@.copies,
            final(layouter)@.exposed == old(layouter)@.exposed,
            old(layouter)@.satisfied() ==> final(layouter)@.satisfied(),
            old(layouter)@.supported() && self@.wired(old(layouter)@)
                ==> final(layouter)@.supported(),
    ;

    /// Absorbs a chunk of input on three new rows: a copy of the state, the
    /// inputs in the rate slots, and the state with each input added to its
    /// rate slot and the capacity slot passed on. Returns the new state and the
    /// cells of the inputs.
    fn load_inputs(&self, layouter: &mut Layouter, states: States, inputs: &Vec<Fe>) -> (r: (
        States,
        Vec<Data>,
    ))
        requires
            self@.wf(),
            self@.installed(old(layouter)@.gates),
            states.0@.len() == self@.width(),
            states.held_by(old(layouter)@),
            inputs@.len() == self@.width() - 1,
            old(layouter)@.rows + 3 < usize::MAX,
        ensures
            r.0@ == absorb(states@, values(inputs@)),
            r.0.0@.len() == self@.width(),
            r.0.held_by(final(layouter)@),
            r.0.placed(self@.state@, (old(layouter)@.rows + 2) as int),
            r.1@.len() == inputs@.len(),
            forall|j: int|
                0 <= j < inputs@.len() ==> (#[trigger] r.1@[j]).0.value == inputs@[j]
                    && r.1@[j].0.held_by(final(layouter)@) && r.1@[j].0.column == self@.state@[j]
                    && r.1@[j].0.row == old(layouter)@.rows + 1,
            final(layouter)@.extends(old(layouter)@),
            final(layouter)@.rows == old(layouter)@.rows + 3,
            advice_row(
                final(layouter)@,
                self@.state_columns(),
                old(layouter)@.rows as int,
                states@,
            ),
            final(layouter)@.enabled == old(layouter)@.enabled.insert(
                (self@.s_add_inputs.index as int, (old(layouter)@.rows + 1) as int),
            ),
            final(layouter)@.copies == old(layouter)@.copies + row_copies(
                self@.state_columns(),
                old(layouter)@.rows as int,
                states.cells(),
            ),
            final(layouter)@.exposed == old(layouter)@.exposed,
            self@.add_gate(final(layouter)@, (old(layouter)@.rows + 1) as int),
            old(layouter)@.satisfied() ==> final(layouter)@.satisfied(),
            old(layouter)@.supported() && self@.wired(old(layouter)@)
                && cells_tied(old(layouter)@, states.cells()) ==> final(layouter)@.supported(),
    ;

    /// Lays out one permutation as a chain of rows: a copy of the state, and
    /// below it the state after each round, with the round's constants and its
    /// gate, full or partial, on the row before. Returns the state after the
    /// last round.
    fn permutation(
        &self,
        layouter: &mut Layouter,
        states: States,
        full_round: usize,
        partial_round: usize,
    ) -> (out: States)
        requires
            self@.wf(),
            self@.installed(old(layouter)@.gates),
            states.0@.len() == self@.width(),
            states.held_by(old(layouter)@),
            full_round % 2 == 0,
            full_round + partial_round == self@.arc_paras@.len(),
            1 <= full_round + partial_round,
            old(layouter)@.rows + full_round + partial_round + 1 < usize::MAX,
        ensures
            out@ == permute(
                states@,
                self@.arc_values(),
                self@.mds_values(),
                full_round as int,
                partial_round as int,
            ),
            out.0@.len() == self@.width(),
            out.held_by(final(layouter)@),
            out.placed(self@.state@, (old(layouter)@.rows + full_round + partial_round) as int),
            final(layouter)@.extends(old(layouter)@),
            final(layouter)@.rows == old(layouter)@.rows + full_round + partial_round + 1,
            advice_row(
                final(layouter)@,
                self@.state_columns(),
                old(layouter)@.rows as int,
                states@,
            ),
            self@.permutation_gates(
                final(layouter)@,
                old(layouter)@.rows as int,
                full_round as int,
                partial_round as int,
            ),
            self@.rounds_enabled(
                old(layouter)@,
                final(layouter)@,
                old(layouter)@.rows as int,
                full_round as int,
                partial_round as int,
                full_round + partial_round,
            ),
            final(layouter)@.copies == old(layouter)@.copies + row_copies(
                self@.state_columns(),
                old(layouter)@.rows as int,
                states.cells(),
            ),
            final(layouter)@.exposed == old(layouter)@.exposed,
            old(layouter)@.satisfied() ==> final(layouter)@.satisfied(),
            old(layouter)@.supported() && self@.wired(old(layouter)@)
                && cells_tied(old(layouter)@, states.cells()) ==> final(layouter)@.supported(),
    ;

    /// Binds the first element of the state to the public input on row
    /// `round`. The table stays satisfied exactly when that public input is
    /// the element's value.
    fn expose_public(&self, layouter: &mut Layouter, states: States, round: usize)
        requires
            states.0@.len() >= 1,
            states.held_by(old(layouter)@),
        ensures
            final(layouter)@ == old(layouter)@.constrain_instance(
                states.0@[0].0.key(),
                (self@.output.index as int, round as int),
            ),
            final(layouter)@.extends(old(layouter)@),
            final(layouter)@.rows == old(layouter)@.rows,
            old(layouter)@.satisfied() ==> (final(layouter)@.satisfied() <==> states@[0] == old(
                layouter,
            )@.instance_at(self@.output.index as int, round as int)),
            forall|t: Table| #[trigger]
                t.extends(final(layouter)@) && t.satisfied() ==> states@[0] == old(
                    layouter,
                )@.instance_at(self@.output.index as int, round as int),
            old(layouter)@.supported() && self@.wired(old(layouter)@)
                && cells_tied(old(layouter)@, states.cells()) ==> final(layouter)@.supported(),
    ;
}

/// The chip that absorbs inputs into a sponge and permutes its state.
pub struct PoseidonChip {
    pub config: PoseidonArthConfig,
}

impl PoseidonChip {
    /// The chip for a configuration.
    pub fn new(config: PoseidonArthConfig) -> (r: PoseidonChip)
        ensures
            r@ == config,
    {
        PoseidonChip { config }
    }

    /// The configuration of the chip.
    pub fn config(&self) -> (r: &PoseidonArthConfig)
        ensures
            *r == self@,
    {
        &self.config
    }

    /// What the chip loads at the start of a circuit: nothing.
    pub fn loaded(&self) {
    }

    /// Lets the state columns and the public inputs take part in equality
    /// constraints and declares the chip's three gates over the given columns:
    /// the add-inputs gate, with identities `add_identity`, the
    /// full-round gate, with identities `full_identity`, and the partial-round
    /// gate, with identities `partial_identity`.
    pub fn configure(
        meta: &mut ConstraintSystem,
        state: Vec<Advice>,
        output: Instance,
        arc: Vec<Fixed>,
        mds: Vec<Vec<Fe>>,
        arc_paras: Vec<Vec<Fe>>,
        capacity: u128,
    ) -> (config: PoseidonArthConfig)
        requires
            well_shaped(state@, arc@, mds@, arc_paras@),
        ensures
            config.state == state,
            config.arc == arc,
            config.output == output,
            config.mds == mds,
            config.arc_paras == arc_paras,
            config.capacity == capacity,
            config.wf(),
            config.s_add_inputs.index == old(meta).gates@.len(),
            config.s_fbox.index == old(meta).gates@.len() + 1,
            config.s_pbox.index == old(meta).gates@.len() + 2,
            final(meta).polys().len() == old(meta).polys().len() + 3,
            old(meta).polys().is_prefix_of(final(meta).polys()),
            config.installed(final(meta).polys()),
            final(meta).num_advice == old(meta).num_advice,
            final(meta).num_fixed == old(meta).num_fixed,
            final(meta).num_instance == old(meta).num_instance,
            final(meta).equality@.len() == old(meta).equality@.len() + state@.len() + 1,
            old(meta).equality@.is_prefix_of(final(meta).equality@),
            final(meta).equality@[old(meta).equality@.len() as int] == Column::Instance(output),
            forall|j: int|
                0 <= j < state@.len() ==> #[trigger] final(meta).equality@[old(meta).equality@.len()
                    + 1 + j] == Column::Advice(state@[j]),
            columns_within(
                advice_indices(state@),
                state@.len() as int,
                old(meta).num_advice as int,
            ) && columns_within(fixed_indices(arc@), arc@.len() as int, old(meta).num_fixed as int)
                && output.index < old(meta).num_instance ==> config.wired(
                final(meta).table(Seq::empty()),
            ),
    {
        // equality checks for output and internal states
        meta.enable_equality(Column::Instance(output));
        let width = state.len();
        let mut i: usize = 0;
        while i < width
            invariant
                i <= width,
                width == state@.len(),
                meta.gates == old(meta).gates,
                meta.num_advice == old(meta).num_advice,
                meta.num_fixed == old(meta).num_fixed,
                meta.num_instance == old(meta).num_instance,
                meta.equality@.len() == old(meta).equality@.len() + 1 + i,
                old(meta).equality@.is_prefix_of(meta.equality@),
                meta.equality@[old(meta).equality@.len() as int] == Column::Instance(output),
                forall|j: int|
                    0 <= j < i ==> #[trigger] meta.equality@[old(meta).equality@.len() + 1 + j]
                        == Column::Advice(state@[j]),
            decreases width - i,
        {
            meta.enable_equality(Column::Advice(state[i]));
            i = i + 1;
        }

        let draft = PoseidonArthConfig {
            state,
            arc,
            output,
            s_fbox: Selector { index: 0 },
            s_pbox: Selector { index: 0 },
            s_add_inputs: Selector { index: 0 },
            arc_paras,
            mds,
            capacity,
        };
        let add_polys = draft.add_polys();
        let full_polys = draft.full_polys();
        let partial_polys = draft.partial_polys();
        let ghost before = meta.polys();
        let s_add_inputs = meta.create_gate("add-inputs", add_polys);
        let s_fbox = meta.create_gate("full box", full_polys);
        let s_pbox = meta.create_gate("partial box", partial_polys);
        let config = PoseidonArthConfig { s_fbox, s_pbox, s_add_inputs, ..draft };
        proof {
            assert(before =~= old(meta).polys());
            assert forall|i: int, t: Table, row: int| 0 <= i < config.width() implies (
            #[trigger] meta.polys()[config.s_fbox.index as int][i].eval(t, row))
                == config.full_identity(t, row, i) by {
                assert(draft.full_identity(t, row, i) == config.full_identity(t, row, i)) by {
                    assert(draft.full_mid(t, row) =~= config.full_mid(t, row));
                }
            }
            assert forall|i: int, t: Table, row: int| 0 <= i < config.width() implies (
            #[trigger] meta.polys()[config.s_pbox.index as int][i].eval(t, row))
                == config.partial_identity(t, row, i) by {
                assert(draft.partial_identity(t, row, i) == config.partial_identity(t, row, i)) by {
                    assert(draft.partial_mid(t, row) =~= config.partial_mid(t, row));
                }
            }
            assert forall|i: int, t: Table, row: int| 0 <= i < config.width() implies (
            #[trigger] meta.polys()[config.s_add_inputs.index as int][i].eval(t, row))
                == config.add_identity(t, row, i) by {
                assert(draft.add_identity(t, row, i) == config.add_identity(t, row, i));
            }
            let t = meta.table(Seq::empty());
            let first = old(meta).equality@.len() as int;
            if columns_within(
                config.state_columns(),
                config.width(),
                old(meta).num_advice as int,
            ) && output.index < old(meta).num_instance {
                assert forall|j: int| 0 <= j < config.width() implies t.takes_advice(
                    #[trigger] config.state_columns()[j],
                ) by {
                    assert(t.equality[first + 1 + j] == Column::Advice(config.state@[j]));
                }
                assert(t.equality[first] == Column::Instance(output));
                assert(t.takes_instance(output.index as int));
            }
        }
        config
    }
}

impl PoseidonInstructions for PoseidonChip {
    open spec fn view(&self) -> PoseidonArthConfig {
        self.config
    }

    fn initiate(&self, layouter: &mut Layouter) -> (states: States)
    {
        let config = &self.config;
        let rate = config.state.len() - 1;
        let ghost t0 = layouter@;
        let mut init: Vec<Fe> = Vec::new();
        let mut i: usize = 0;
        while i < rate
            invariant
                i <= rate,
                init@.len() == i,
                forall|j: int| 0 <= j < i ==> (#[trigger] init@[j])@ == 0,
            decreases rate - i,
        {
            init.push(Fe::zero());
            i = i + 1;
        }
        // capacity element
        init.push(Fe::from_u128(config.capacity));
        layouter.start_region();
        proof {
            layouter.lemma_fresh_row(t0.rows as int);
            if config.wired(t0) {
                assert forall|j: int| 0 <= j < init@.len() implies 0
                    <= #[trigger] config.state_columns()[j] < t0.num_advice by {
                    assert(t0.takes_advice(config.state_columns()[j]));
                }
            }
        }
        let cells = layouter.assign_row(&config.state, &init, 0);
        let states = States::from_cells(&cells);
        proof {
            let now = layouter@;
            assert(states@ =~= initial_state(config.width(), config.capacity as nat));
            assert forall|j: int| 0 <= j < states.0@.len()
                implies (#[trigger] states.0@[j]).0.held_by(
                now,
            ) && states.0@[j].0.column == config.state@[j] && states.0@[j].0.row == t0.rows by {
                assert(cells@[j].held_by(now));
            }
            if t0.satisfied() {
                lemma_satisfied_extends(t0, now);
            }
        }
        states
    }

    fn load_inputs(&self, layouter: &mut Layouter, states: States, inputs: &Vec<Fe>) -> (r: (
        States,
        Vec<Data>,
    ))
    {
        let config = &self.config;
        let rate = config.state.len() - 1;
        let ghost t0 = layouter@;
        let ghost s = t0.rows as int;
        let ghost cols = config.state_columns();
        let cells = states.to_cells();
        layouter.start_region();
        proof {
            layouter.lemma_fresh_row(s);
            assert forall|j: int| 0 <= j < cells@.len() implies (#[trigger] cells@[j]).held_by(
                t0,
            ) by {
                assert(states.0@[j].0.held_by(t0));
            }
        }
        layouter.copy_row(&config.state, &cells, 0);
        let ghost t1 = layouter@;
        proof {
            layouter.lemma_fresh_row(s + 1);
            if config.wired(t0) {
                assert forall|j: int| 0 <= j < config.width() implies 0
                    <= #[trigger] config.state_columns()[j] < t0.num_advice by {
                    assert(t0.takes_advice(config.state_columns()[j]));
                }
            }
        }
        let loaded = layouter.assign_row(&config.state, inputs, 1);
        let ghost t2 = layouter@;

        let mut results: Vec<Fe> = Vec::new();
        let mut i: usize = 0;
        while i < rate
            invariant
                i <= rate,
                rate == config.width() - 1,
                cells@.len() == config.width(),
                inputs@.len() == rate,
                results@.len() == i,
                forall|j: int|
                    0 <= j < i ==> (#[trigger] results@[j])@ == fadd(
                        cells@[j].value@,
                        inputs@[j]@,
                    ),
            decreases rate - i,
        {
            results.push(cells[i].value.add(&inputs[i]));
            i = i + 1;
        }
        results.push(cells[rate].value);
        proof {
            layouter.lemma_fresh_row(s + 2);
            assert(values(results@) =~= absorb(states@, values(inputs@)));
        }
        let out = layouter.assign_row(&config.state, &results, 2);
        let ghost t3 = layouter@;
        layouter.enable_selector(config.s_add_inputs, 1);
        let r = States::from_cells(&out);
        let data = States::from_cells(&loaded);
        proof {
            let t4 = layouter@;
            layouter.lemma_view_wf();
            lemma_extends_trans(t0, t1, t2);
            lemma_extends_trans(t0, t2, t3);
            lemma_extends_trans(t0, t3, t4);
            lemma_extends_trans(t1, t2, t3);
            lemma_extends_trans(t1, t3, t4);
            lemma_extends_trans(t2, t3, t4);
            lemma_rows_extend(t1, t4, cols, s, states@);
            lemma_rows_extend(t2, t4, cols, s + 1, values(inputs@));
            lemma_rows_extend(t3, t4, cols, s + 2, values(results@));
            config.lemma_add_gate(t4, s + 1, states@, values(inputs@), values(results@));
            config.lemma_gates(t4, s + 1);
            lemma_constraints_extend(t1, t4);
            assert forall|k: int| t0.copies.len() <= k < t4.copies.len()
                implies #[trigger] t4.copy_holds(
                k,
            ) by {
                assert(t1.copy_holds(k));
            }
            assert(r@ =~= values(results@));
            assert forall|j: int| 0 <= j < r.0@.len() implies (#[trigger] r.0@[j]).0.held_by(
                t4,
            ) && r.0@[j].0.column == config.state@[j] && r.0@[j].0.row == s + 2 by {
                assert(out@[j].held_by(t3));
                assert(t3.advice.contains_key(out@[j].key()));
            }
            assert forall|j: int| 0 <= j < inputs@.len() implies (#[trigger] data.0@[j]).0.value
                == inputs@[j] && data.0@[j].0.held_by(t4) && data.0@[j].0.column
                == config.state@[j] && data.0@[j].0.row == s + 1 by {
                assert(loaded@[j].held_by(t2));
                assert(t2.advice.contains_key(loaded@[j].key()));
            }
            assert(t4.enabled =~= t0.enabled.insert((config.s_add_inputs.index as int, s + 1)));
            if t0.satisfied() {
                lemma_satisfied_extends(t0, t4);
            }
        }
        (r, data.0)
    }

    fn permutation(
        &self,
        layouter: &mut Layouter,
        states: States,
        full_round: usize,
        partial_round: usize,
    ) -> (out: States)
    {
        let config = &self.config;
        // 0 ~ half: full rounds; half ~ mid: partial rounds; mid ~ all: full rounds
        let half_rounds = full_round / 2;
        let mid = half_rounds + partial_round;
        let all = full_round + partial_round;
        let ghost t0 = layouter@;
        let ghost s = t0.rows as int;
        let ghost cols = config.state_columns();
        let ghost arcs = config.arc_values();
        let ghost mds = config.mds_values();
        let cells = states.to_cells();
        layouter.start_region();
        proof {
            layouter.lemma_fresh_row(s);
            assert forall|j: int| 0 <= j < cells@.len() implies (#[trigger] cells@[j]).held_by(
                t0,
            ) by {
                assert(states.0@[j].0.held_by(t0));
            }
        }
        // copy advices from previous state
        layouter.copy_row(&config.state, &cells, 0);
        let ghost copied = layouter@;
        let mut round_output = values_of(&cells);
        let mut outputs: Vec<AssignedCell> = Vec::new();
        proof {
            layouter.lemma_fresh_row(s + 1);
            assert(layouter@.fixed == t0.fixed);
            assert forall|c: int| #[trigger] layouter@.fixed_at(c, s) is None by {
                assert(t0.fixed_at(c, s) is None);
            }
        }
        let mut r: usize = 0;
        while r < all
            invariant
                r <= all,
                1 <= all,
                all == full_round + partial_round,
                all == config.arc_paras@.len(),
                half_rounds == full_round / 2,
                mid == half_rounds + partial_round,
                *config == self@,
                config.wf(),
                config.installed(t0.gates),
                cols == config.state_columns(),
                arcs == config.arc_values(),
                mds == config.mds_values(),
                t0 == old(layouter)@,
                s == t0.rows,
                s + all + 1 < usize::MAX,
                layouter.start() == s,
                layouter@.extends(t0),
                layouter@.rows == s + r + 1,
                round_output@.len() == config.width(),
                values(round_output@) == rounds(
                    states@,
                    r as int,
                    arcs,
                    mds,
                    full_round as int,
                    partial_round as int,
                ),
                advice_row(layouter@, cols, s + r, values(round_output@)),
                copied.extends(t0),
                layouter@.extends(copied),
                t0.supported() && config.wired(t0) && cells_tied(t0, states.cells())
                    ==> layouter@.supported(),
                advice_row(copied, cols, s, states@),
                layouter@.copies == copied.copies,
                config.rounds_laid(
                    layouter@,
                    s,
                    full_round as int,
                    partial_round as int,
                    r as int,
                ),
                config.rounds_enabled(
                    t0,
                    layouter@,
                    s,
                    full_round as int,
                    partial_round as int,
                    r as int,
                ),
                forall|c: int| #[trigger] layouter@.fixed_at(c, s + r) is None,
                forall|g: int, row: int|
                    0 <= g < t0.gates.len() && #[trigger] layouter@.enabled.contains((g, row))
                        && !t0.enabled.contains((g, row)) ==> layouter@.gate_holds(g, row),
                forall|k: int|
                    t0.copies.len() <= k < layouter@.copies.len()
                        ==> #[trigger] layouter@.copy_holds(
                        k,
                    ),
                layouter@.exposed == t0.exposed,
                r >= 1 ==> outputs@.len() == config.width() && cell_values(outputs@) == values(
                    round_output@,
                ) && forall|j: int|
                    0 <= j < outputs@.len() ==> (#[trigger] outputs@[j]).held_by(layouter@)
                        && outputs@[j].column == config.state@[j] && outputs@[j].row == s + r,
            decreases all - r,
        {
            let ghost before = layouter@;
            let ghost cur = values(round_output@);
            let arc = &config.arc_paras[r];
            proof {
                assert(config.arc_paras@[r as int]@.len() == config.width());
                if config.wired(t0) {
                    assert forall|j: int| 0 <= j < config.width() implies 0
                        <= #[trigger] config.state_columns()[j] < t0.num_advice by {
                        assert(t0.takes_advice(config.state_columns()[j]));
                    }
                }
            }
            // fill in fixed column
            layouter.assign_fixed_row(&config.arc, arc, r);
            let ghost ta = layouter@;
            let full = r < half_rounds || r >= mid;
            if full {
                // full rounds
                layouter.enable_selector(config.s_fbox, r);
            } else {
                // partial rounds
                layouter.enable_selector(config.s_pbox, r);
            }
            let ghost tb = layouter@;
            let temp = sbox_values(&round_output, arc, full);
            // apply mds
            let next = mix_values(&temp, &config.mds);
            proof {
                layouter.lemma_fresh_row(s + r + 1);
            }
            // fill in next row
            outputs = layouter.assign_row(&config.state, &next, r + 1);
            round_output = next;
            proof {
                let now = layouter@;
                let arcv = values(arc@);
                let nextv = values(round_output@);
                let sel = if full {
                    config.s_fbox.index as int
                } else {
                    config.s_pbox.index as int
                };
                layouter.lemma_view_wf();
                layouter.lemma_fresh_row(s + r + 2);
                lemma_extends_trans(before, ta, tb);
                lemma_extends_trans(before, tb, now);
                lemma_extends_trans(ta, tb, now);
                lemma_extends_trans(t0, before, now);
                lemma_extends_trans(copied, before, now);
                lemma_gates_extend(before, now);
                lemma_constraints_extend(before, now);
                lemma_rows_extend(before, now, cols, s + r, cur);
                config.lemma_rounds_laid_extend(
                    before,
                    now,
                    s,
                    full_round as int,
                    partial_round as int,
                    r as int,
                );
                lemma_rows_extend(ta, now, config.arc_columns(), s + r, arcv);
                assert(arcs[r as int] == arcv);
                assert(nextv == round(
                    cur,
                    r as int,
                    arcs,
                    mds,
                    full_round as int,
                    partial_round as int,
                ));
                if full {
                    config.lemma_full_gate(now, s + r, cur, arcv, nextv);
                } else {
                    config.lemma_partial_gate(now, s + r, cur, arcv, nextv);
                }
                config.lemma_gates(now, s + r);
                assert(now.gate_holds(sel, s + r));
                assert(fixed_row(now, config.arc_columns(), s + r, arcs[r as int]));
                assert(full == is_full_round(r as int, full_round as int, partial_round as int));
                assert(config.round_laid(
                    now,
                    s,
                    full_round as int,
                    partial_round as int,
                    r as int,
                ));
                config.lemma_rounds_laid_step(
                    now,
                    s,
                    full_round as int,
                    partial_round as int,
                    r as int,
                );
                assert(now.enabled =~= before.enabled.insert((sel, s + r)));
                config.lemma_rounds_enabled_step(
                    t0,
                    before,
                    now,
                    s,
                    full_round as int,
                    partial_round as int,
                    r as int,
                );
                assert forall|g: int, row: int|
                    0 <= g < t0.gates.len() && #[trigger] now.enabled.contains((g, row))
                        && !t0.enabled.contains((g, row)) implies now.gate_holds(g, row) by {
                    if before.enabled.contains((g, row)) {
                        assert(before.gate_holds(g, row));
                    }
                }
                assert forall|k: int| t0.copies.len() <= k < now.copies.len()
                    implies #[trigger] now.copy_holds(
                    k,
                ) by {
                    assert(before.copy_holds(k));
                }
                assert forall|c: int| #[trigger] now.fixed_at(c, s + r + 1) is None by {
                    assert(tb.fixed_at(c, s + r + 1) is None);
                }
                assert(cell_values(outputs@) =~= nextv);
            }
            r = r + 1;
        }
        let out = States::from_cells(&outputs);
        proof {
            let now = layouter@;
            assert(out@ =~= values(round_output@));
            assert forall|j: int| 0 <= j < out.0@.len() implies (#[trigger] out.0@[j]).0.held_by(
                now,
            ) && out.0@[j].0.column == config.state@[j] && out.0@[j].0.row == s + all by {
                assert(outputs@[j].held_by(now));
            }
            lemma_rows_extend(copied, now, cols, s, states@);
            if t0.satisfied() {
                lemma_satisfied_extends(t0, now);
            }
        }
        out
    }

    fn expose_public(&self, layouter: &mut Layouter, states: States, round: usize)
    {
        let config = &self.config;
        let ghost t0 = layouter@;
        layouter.constrain_instance(&states.0[0].0, config.output, round);
        proof {
            let now = layouter@;
            assert(states.0@[0].0.held_by(t0));
            assert(now.exposure_holds(t0.exposed.len() as int) <==> states@[0] == t0.instance_at(
                config.output.index as int,
                round as int,
            ));
            if t0.satisfied() && now.exposure_holds(t0.exposed.len() as int) {
                lemma_satisfied_extends(t0, now);
            }
            assert forall|t: Table| #[trigger] t.extends(now) && t.satisfied() implies states@[0]
                == t0.instance_at(config.output.index as int, round as int) by {
                assert(t.exposure_holds(t0.exposed.len() as int));
                assert(t.exposed[t0.exposed.len() as int] == now.exposed[t0.exposed.len() as int]);
                assert(t0.advice.contains_key(states.0@[0].0.key()));
                assert(now.advice.contains_key(states.0@[0].0.key()));
            }
        }
    }
}

} // verus!
