//! The layouter: the table into which chips assign their regions, row by row,
//! and the check that the finished table satisfies the constraint system.

use crate::field::{values, Fe};
use crate::plonk::{
    lemma_columns_extend, lemma_constraints_extend, lemma_extends_step, lemma_extends_trans,
    lemma_supported_step,
    Advice, ConstraintSystem,
    Expression, Fixed, Instance, Rotation, Selector, Table,
};
use vstd::prelude::*;

verus! {

/// An advice cell that has been assigned, with the value it holds.
#[derive(Clone, Copy, Debug)]
pub struct AssignedCell {
    pub column: Advice,
    pub row: usize,
    pub value: Fe,
}

impl AssignedCell {
    /// The column and row that name the cell.
    pub open spec fn key(&self) -> (int, int) {
        (self.column.index as int, self.row as int)
    }

    /// The table assigns the cell the value that `self` records.
    pub open spec fn held_by(&self, t: Table) -> bool {
        t.advice_at(self.column.index as int, self.row as int) == Some(self.value@)
    }
}

/// The values of public inputs given column by column.
pub open spec fn grid_values(g: Seq<Vec<Fe>>) -> Seq<Seq<nat>> {
    Seq::new(g.len(), |c: int| values(g[c]@))
}

/// The columns differ from one another.
pub open spec fn distinct(columns: Seq<int>) -> bool {
    forall|j: int, k: int|
        0 <= j < columns.len() && 0 <= k < columns.len() && j != k ==> #[trigger] columns[j]
            != #[trigger] columns[k]
}

/// The indices of advice columns.
pub open spec fn advice_indices(columns: Seq<Advice>) -> Seq<int> {
    columns.map_values(|c: Advice| c.index as int)
}

/// The indices of fixed columns.
pub open spec fn fixed_indices(columns: Seq<Fixed>) -> Seq<int> {
    columns.map_values(|c: Fixed| c.index as int)
}

/// The values that assigned cells record.
pub open spec fn cell_values(cells: Seq<AssignedCell>) -> Seq<nat> {
    cells.map_values(|c: AssignedCell| c.value@)
}

/// The row assigns the first of the advice columns the values, in order.
pub open spec fn advice_row(t: Table, columns: Seq<int>, row: int, vals: Seq<nat>) -> bool {
    &&& vals.len() <= columns.len()
    &&& forall|j: int| 0 <= j < vals.len()
        ==> #[trigger] t.advice_at(columns[j], row) == Some(vals[j])
}

/// The row assigns the first of the fixed columns the values, in order.
pub open spec fn fixed_row(t: Table, columns: Seq<int>, row: int, vals: Seq<nat>) -> bool {
    &&& vals.len() <= columns.len()
    &&& forall|j: int| 0 <= j < vals.len()
        ==> #[trigger] t.fixed_at(columns[j], row) == Some(vals[j])
}

/// The equality constraints that tie the cells of a row, one in each of the
/// first columns, to the cells that they copy.
pub open spec fn row_copies(columns: Seq<int>, row: int, cells: Seq<AssignedCell>) -> Seq<
    ((int, int), (int, int)),
> {
    Seq::new(cells.len(), |j: int| ((columns[j], row), cells[j].key()))
}

/// The equality constraints that tie the cells of a row, one in each of the
/// first `count` columns, to the public inputs of a column from row `from`
/// on.
pub open spec fn row_exposures(
    columns: Seq<int>,
    row: int,
    instance: int,
    from: int,
    count: int,
) -> Seq<((int, int), (int, int))> {
    Seq::new(count as nat, |j: int| ((columns[j], row), (instance, from + j)))
}

/// Cells of the first `n` of the advice columns can be assigned and copied.
pub open spec fn columns_take(t: Table, columns: Seq<int>, n: int) -> bool {
    forall|j: int| 0 <= j < n ==> t.takes_advice(#[trigger] columns[j])
}

/// The first `n` of the columns are among the first `count` columns.
pub open spec fn columns_within(columns: Seq<int>, n: int, count: int) -> bool {
    forall|j: int| 0 <= j < n ==> 0 <= #[trigger] columns[j] < count
}

/// The cells lie in columns that take part in equality constraints.
pub open spec fn cells_tied(t: Table, cells: Seq<AssignedCell>) -> bool {
    forall|j: int| 0 <= j < cells.len() ==> t.advice_tied((#[trigger] cells[j]).column.index as int)
}

/// A table that extends another can take what the other can.
pub proof fn lemma_take_extend(old: Table, new: Table, columns: Seq<int>, n: int)
    requires
        new.extends(old),
    ensures
        columns_take(new, columns, n) == columns_take(old, columns, n),
        forall|cells: Seq<AssignedCell>| #[trigger]
            cells_tied(new, cells) == cells_tied(old, cells),
{
    lemma_columns_extend(old, new);
    if columns_take(old, columns, n) {
        assert forall|j: int| 0 <= j < n implies new.takes_advice(#[trigger] columns[j]) by {
            assert(old.takes_advice(columns[j]));
        }
    }
    if columns_take(new, columns, n) {
        assert forall|j: int| 0 <= j < n implies old.takes_advice(#[trigger] columns[j]) by {
            assert(new.takes_advice(columns[j]));
        }
    }
    assert forall|cells: Seq<AssignedCell>| #[trigger]
        cells_tied(new, cells) == cells_tied(old, cells) by {
        if cells_tied(old, cells) {
            assert forall|j: int| 0 <= j < cells.len() implies new.advice_tied(
                (#[trigger] cells[j]).column.index as int,
            ) by {
                assert(old.advice_tied(cells[j].column.index as int));
            }
        }
        if cells_tied(new, cells) {
            assert forall|j: int| 0 <= j < cells.len() implies old.advice_tied(
                (#[trigger] cells[j]).column.index as int,
            ) by {
                assert(new.advice_tied(cells[j].column.index as int));
            }
        }
    }
}

/// The row assigns no advice cell.
pub open spec fn advice_free(t: Table, row: int) -> bool {
    forall|c: int| #[trigger] t.advice_at(c, row) is None
}

/// The row assigns no fixed cell.
pub open spec fn fixed_free(t: Table, row: int) -> bool {
    forall|c: int| #[trigger] t.fixed_at(c, row) is None
}

/// The row assigns no advice cell but in the first `n` of the columns.
pub open spec fn advice_free_but(t: Table, columns: Seq<int>, n: int, row: int) -> bool {
    forall|c: int|
        (forall|j: int| 0 <= j < n ==> c != #[trigger] columns[j])
            ==> #[trigger] t.advice_at(c, row)
            is None
}

/// A row that holds values holds them on every table that extends the table.
pub proof fn lemma_rows_extend(old: Table, new: Table, columns: Seq<int>, row: int, vals: Seq<nat>)
    requires
        new.extends(old),
    ensures
        advice_row(old, columns, row, vals) ==> advice_row(new, columns, row, vals),
        fixed_row(old, columns, row, vals) ==> fixed_row(new, columns, row, vals),
{
    if advice_row(old, columns, row, vals) {
        assert forall|j: int| 0 <= j < vals.len() implies #[trigger] new.advice_at(columns[j], row)
            == Some(vals[j]) by {
            assert(old.advice_at(columns[j], row) == Some(vals[j]));
            assert(old.advice.contains_key((columns[j], row)));
        }
    }
    if fixed_row(old, columns, row, vals) {
        assert forall|j: int| 0 <= j < vals.len() implies #[trigger] new.fixed_at(columns[j], row)
            == Some(vals[j]) by {
            assert(old.fixed_at(columns[j], row) == Some(vals[j]));
            assert(old.fixed.contains_key((columns[j], row)));
        }
    }
}

/// The rows of `k` regions of `per` rows each.
pub open spec fn repeated_rows(k: int, per: int) -> int
    decreases k,
{
    if k <= 0 {
        0
    } else {
        per + repeated_rows(k - 1, per)
    }
}

/// The rows of regions are not negative, one region more takes `per` rows
/// more, and the rows of `j + k` regions add up.
pub proof fn lemma_repeated_rows(j: int, k: int, per: int)
    requires
        per >= 0,
        0 <= j,
        0 <= k,
    ensures
        repeated_rows(k, per) >= 0,
        repeated_rows(k + 1, per) == per + repeated_rows(k, per),
        repeated_rows(j + k, per) == repeated_rows(j, per) + repeated_rows(k, per),
    decreases k,
{
    if k > 0 {
        lemma_repeated_rows(j, k - 1, per);
    }
}

/// The rows of `k` regions of `per` rows each are `k` times `per` rows.
pub proof fn lemma_repeated_rows_product(k: int, per: int)
    requires
        0 <= k,
    ensures
        repeated_rows(k, per) == k * per,
    decreases k,
{
    if k > 0 {
        lemma_repeated_rows_product(k - 1, per);
        assert(k * per == per + (k - 1) * per) by (nonlinear_arith);
    } else {
        assert(0 * per == 0) by (nonlinear_arith);
    }
}

/// `from` and the rows of `times` regions of `per` rows each, if that can be
/// counted.
pub fn add_rows(from: usize, per: usize, times: usize) -> (r: Option<usize>)
    ensures
        match r {
            Some(n) => n == from + repeated_rows(times as int, per as int),
            None => from + repeated_rows(times as int, per as int) > usize::MAX,
        },
{
    proof {
        lemma_repeated_rows_product(times as int, per as int);
    }
    match times.checked_mul(per) {
        Some(rows) => from.checked_add(rows),
        None => None,
    }
}

/// The value of an element that may be missing.
pub open spec fn option_value(v: Option<Fe>) -> Option<nat> {
    match v {
        Some(x) => Some(x@),
        None => None,
    }
}

#[derive(Debug)]
struct Row {
    advice: Vec<Option<Fe>>,
    fixed: Vec<Option<Fe>>,
    enabled: Vec<bool>,
}

impl Clone for Row {
    fn clone(&self) -> Self {
        Row {
            advice: self.advice.clone(),
            fixed: self.fixed.clone(),
            enabled: self.enabled.clone(),
        }
    }
}

spec fn slot(cells: Seq<Option<Fe>>, column: int) -> Option<nat> {
    if 0 <= column < cells.len() {
        option_value(cells[column])
    } else {
        None
    }
}

spec fn flag(flags: Seq<bool>, gate: int) -> bool {
    0 <= gate < flags.len() && flags[gate]
}

spec fn pair_key(p: (usize, usize)) -> (int, int) {
    (p.0 as int, p.1 as int)
}

spec fn pair_keys(p: ((usize, usize), (usize, usize))) -> ((int, int), (int, int)) {
    (pair_key(p.0), pair_key(p.1))
}

/// The table under construction. Chips open a region, assign cells at offsets
/// from its first row, enable gates and constrain cells to be equal; regions
/// follow one another down the table.
#[derive(Debug)]
pub struct Layouter {
    cs: ConstraintSystem,
    rows: Vec<Row>,
    instance: Vec<Vec<Fe>>,
    copies: Vec<((usize, usize), (usize, usize))>,
    exposed: Vec<((usize, usize), (usize, usize))>,
    start: usize,
}

impl Clone for Layouter {
    fn clone(&self) -> Self {
        Layouter {
            cs: self.cs.clone(),
            rows: self.rows.clone(),
            instance: self.instance.clone(),
            copies: self.copies.clone(),
            exposed: self.exposed.clone(),
            start: self.start,
        }
    }
}

impl Layouter {
    spec fn advice_cell(&self, column: int, row: int) -> Option<nat> {
        if 0 <= row < self.rows.len() {
            slot(self.rows[row].advice@, column)
        } else {
            None
        }
    }

    spec fn fixed_cell(&self, column: int, row: int) -> Option<nat> {
        if 0 <= row < self.rows.len() {
            slot(self.rows[row].fixed@, column)
        } else {
            None
        }
    }

    spec fn gate_enabled(&self, gate: int, row: int) -> bool {
        0 <= row < self.rows.len() && flag(self.rows[row].enabled@, gate)
    }

    /// The table as assigned so far.
    pub closed spec fn view(&self) -> Table {
        Table {
            num_advice: self.cs.num_advice as nat,
            num_fixed: self.cs.num_fixed as nat,
            num_instance: self.cs.num_instance as nat,
            equality: self.cs.equality@,
            gates: self.cs.polys(),
            advice: Map::new(
                |k: (int, int)| self.advice_cell(k.0, k.1) is Some,
                |k: (int, int)| self.advice_cell(k.0, k.1)->0,
            ),
            fixed: Map::new(
                |k: (int, int)| self.fixed_cell(k.0, k.1) is Some,
                |k: (int, int)| self.fixed_cell(k.0, k.1)->0,
            ),
            enabled: Set::new(|k: (int, int)| self.gate_enabled(k.0, k.1)),
            instance: grid_values(self.instance@),
            copies: self.copies@.map_values(|p: ((usize, usize), (usize, usize))| pair_keys(p)),
            exposed: self.exposed@.map_values(|p: ((usize, usize), (usize, usize))| pair_keys(p)),
            rows: self.rows.len() as nat,
        }
    }

    /// The first row of the region that is open.
    pub closed spec fn start(&self) -> nat {
        self.start as nat
    }

    /// The table of a layouter is well formed.
    pub proof fn lemma_view_wf(&self)
        ensures
            self@.wf(),
    {
        broadcast use Fe::canonical;

        let t = self@;
        assert forall|c: int, r: int| #[trigger] t.advice.contains_key((c, r)) implies 0 <= r
            < t.rows && t.advice[(c, r)] < crate::field::modulus() by {
            assert(self.advice_cell(c, r) is Some);
        }
        assert forall|c: int, r: int| #[trigger] t.fixed.contains_key((c, r)) implies 0 <= r
            < t.rows && t.fixed[(c, r)] < crate::field::modulus() by {
            assert(self.fixed_cell(c, r) is Some);
        }
        assert forall|g: int, r: int| #[trigger] t.enabled.contains((g, r)) implies 0 <= r
            < t.rows by {
            assert(self.gate_enabled(g, r));
        }
    }

    /// An empty table for the constraint system and the public inputs.
    pub fn new(cs: ConstraintSystem, instance: Vec<Vec<Fe>>) -> (r: Layouter)
        ensures
            r@.num_advice == cs.num_advice,
            r@.num_fixed == cs.num_fixed,
            r@.num_instance == cs.num_instance,
            r@.equality == cs.equality@,
            r@.gates == cs.polys(),
            r@.advice == Map::<(int, int), nat>::empty(),
            r@.fixed == Map::<(int, int), nat>::empty(),
            r@.enabled == Set::<(int, int)>::empty(),
            r@.instance == grid_values(instance@),
            r@.copies == Seq::<((int, int), (int, int))>::empty(),
            r@.exposed == Seq::<((int, int), (int, int))>::empty(),
            r@.rows == 0,
            r.start() == 0,
            r@ == cs.table(grid_values(instance@)),
            r@.supported(),
            r@.satisfied(),
    {
        let r = Layouter {
            cs,
            rows: Vec::new(),
            instance,
            copies: Vec::new(),
            exposed: Vec::new(),
            start: 0,
        };
        proof {
            assert(r@.gates =~= cs.polys());
            assert(r@.advice =~= Map::<(int, int), nat>::empty());
            assert(r@.fixed =~= Map::<(int, int), nat>::empty());
            assert(r@.enabled =~= Set::<(int, int)>::empty());
            assert(r@.copies =~= Seq::<((int, int), (int, int))>::empty());
            assert(r@.exposed =~= Seq::<((int, int), (int, int))>::empty());
        }
        r
    }

    /// Opens a region below everything that has been assigned.
    pub fn start_region(&mut self)
        ensures
            final(self)@ == old(self)@,
            final(self).start() == old(self)@.rows,
    {
        self.start = self.rows.len();
        proof {
            old(self).lemma_view_is(*self, old(self)@);
        }
    }

    /// The table of `now` is `t` if the two agree with `self` and with each
    /// other cell by cell.
    proof fn lemma_view_is(&self, now: Layouter, t: Table)
        requires
            now.cs == self.cs,
            now.instance == self.instance,
            t.num_advice == self@.num_advice,
            t.num_fixed == self@.num_fixed,
            t.num_instance == self@.num_instance,
            t.equality == self@.equality,
            t.gates == self@.gates,
            t.instance == self@.instance,
            t.copies == now.copies@.map_values(|p: ((usize, usize), (usize, usize))| pair_keys(p)),
            t.exposed == now.exposed@.map_values(
                |p: ((usize, usize), (usize, usize))| pair_keys(p),
            ),
            t.rows == now.rows.len(),
            forall|c: int, r: int| #[trigger] now.advice_cell(c, r) == t.advice_at(c, r),
            forall|c: int, r: int| #[trigger] now.fixed_cell(c, r) == t.fixed_at(c, r),
            forall|g: int, r: int| #[trigger] now.gate_enabled(g, r) == t.enabled.contains((g, r)),
        ensures
            now@ == t,
    {
        let a = now@;
        assert forall|k: (int, int)| a.advice.contains_key(k) == t.advice.contains_key(k) && (
        a.advice.contains_key(k) ==> a.advice[k] == t.advice[k]) by {
            assert(now.advice_cell(k.0, k.1) == t.advice_at(k.0, k.1));
        }
        assert forall|k: (int, int)| a.fixed.contains_key(k) == t.fixed.contains_key(k) && (
        a.fixed.contains_key(k) ==> a.fixed[k] == t.fixed[k]) by {
            assert(now.fixed_cell(k.0, k.1) == t.fixed_at(k.0, k.1));
        }
        assert forall|k: (int, int)| a.enabled.contains(k) == t.enabled.contains(k) by {
            assert(now.gate_enabled(k.0, k.1) == t.enabled.contains((k.0, k.1)));
        }
        assert(a.advice =~= t.advice);
        assert(a.fixed =~= t.fixed);
        assert(a.enabled =~= t.enabled);
        assert(a.gates =~= t.gates);
    }

    /// Makes sure that the row exists.
    fn reserve(&mut self, row: usize)
        requires
            row < usize::MAX,
        ensures
            final(self)@ == (Table {
                rows: if row < old(self)@.rows {
                    old(self)@.rows
                } else {
                    (row + 1) as nat
                },
                ..old(self)@
            }),
            final(self).start == old(self).start,
            final(self).copies == old(self).copies,
            final(self).exposed == old(self).exposed,
            final(self).cs == old(self).cs,
            final(self).instance == old(self).instance,
            row < final(self).rows.len(),
    {
        while self.rows.len() <= row
            invariant
                self.start == old(self).start,
                self.cs == old(self).cs,
                self.instance == old(self).instance,
                self.copies == old(self).copies,
                self.exposed == old(self).exposed,
                old(self).rows.len() <= self.rows.len(),
                self.rows.len() <= old(self).rows.len() || self.rows.len() <= row + 1,
                forall|r: int|
                    0 <= r < old(self).rows.len() ==> #[trigger] self.rows[r] == old(self).rows[r],
                forall|r: int|
                    old(self).rows.len() <= r < self.rows.len()
                        ==> (#[trigger] self.rows[r]).advice@.len()
                        == 0 && self.rows[r].fixed@.len() == 0 && self.rows[r].enabled@.len() == 0,
            decreases row + 1 - self.rows.len(),
        {
            self.rows.push(Row { advice: Vec::new(), fixed: Vec::new(), enabled: Vec::new() });
        }
        proof {
            let t = Table {
                rows: if row < old(self)@.rows {
                    old(self)@.rows
                } else {
                    (row + 1) as nat
                },
                ..old(self)@
            };
            assert forall|c: int, r: int| #[trigger]
                self.advice_cell(c, r) == t.advice_at(c, r) by {
                assert(old(self).advice_cell(c, r) == t.advice_at(c, r));
            }
            assert forall|c: int, r: int| #[trigger] self.fixed_cell(c, r) == t.fixed_at(c, r) by {
                assert(old(self).fixed_cell(c, r) == t.fixed_at(c, r));
            }
            assert forall|g: int, r: int| #[trigger]
                self.gate_enabled(g, r) == t.enabled.contains((g, r)) by {
                assert(old(self).gate_enabled(g, r) == t.enabled.contains((g, r)));
            }
            old(self).lemma_view_is(*self, t);
        }
    }

    /// Assigns the advice cell `offset` rows into the open region.
    pub fn assign_advice(&mut self, column: Advice, offset: usize, value: Fe) -> (r: AssignedCell)
        requires
            old(self).start() + offset < usize::MAX,
        ensures
            final(self)@ == old(self)@.assign_advice(
                column.index as int,
                old(self).start() + offset,
                value@,
            ),
            final(self).start() == old(self).start(),
            r == (AssignedCell { column, row: (old(self).start() + offset) as usize, value }),
            old(self)@.advice_at(column.index as int, old(self).start() + offset) is None
                ==> final(self)@.extends(old(self)@),
            old(self)@.supported() && column.index < old(self)@.num_advice
                ==> final(self)@.supported(),
    {
        let row = self.start + offset;
        proof {
            lemma_extends_step(old(self)@, column.index as int, row as int, value@);
            if old(self)@.supported() {
                lemma_supported_step(old(self)@, column.index as int, row as int, value@);
            }
        }
        self.reserve(row);
        let ghost mid = *self;
        put(&mut self.rows[row].advice, column.index, value);
        proof {
            let t = old(self)@.assign_advice(column.index as int, row as int, value@);
            assert forall|c: int, r: int| #[trigger]
                self.advice_cell(c, r) == t.advice_at(c, r) by {
                assert(mid.advice_cell(c, r) == mid@.advice_at(c, r));
            }
            assert forall|c: int, r: int| #[trigger] self.fixed_cell(c, r) == t.fixed_at(c, r) by {
                assert(mid.fixed_cell(c, r) == mid@.fixed_at(c, r));
            }
            assert forall|g: int, r: int| #[trigger]
                self.gate_enabled(g, r) == t.enabled.contains((g, r)) by {
                assert(mid.gate_enabled(g, r) == mid@.enabled.contains((g, r)));
            }
            old(self).lemma_view_is(*self, t);
        }
        AssignedCell { column, row, value }
    }

    /// Assigns the fixed cell `offset` rows into the open region.
    pub fn assign_fixed(&mut self, column: Fixed, offset: usize, value: Fe)
        requires
            old(self).start() + offset < usize::MAX,
        ensures
            final(self)@ == old(self)@.assign_fixed(
                column.index as int,
                old(self).start() + offset,
                value@,
            ),
            final(self).start() == old(self).start(),
            old(self)@.fixed_at(column.index as int, old(self).start() + offset) is None
                ==> final(self)@.extends(old(self)@),
            old(self)@.supported() && column.index < old(self)@.num_fixed
                ==> final(self)@.supported(),
    {
        let row = self.start + offset;
        proof {
            lemma_extends_step(old(self)@, column.index as int, row as int, value@);
            if old(self)@.supported() {
                lemma_supported_step(old(self)@, column.index as int, row as int, value@);
            }
        }
        self.reserve(row);
        let ghost mid = *self;
        put(&mut self.rows[row].fixed, column.index, value);
        proof {
            let t = old(self)@.assign_fixed(column.index as int, row as int, value@);
            assert forall|c: int, r: int| #[trigger]
                self.advice_cell(c, r) == t.advice_at(c, r) by {
                assert(mid.advice_cell(c, r) == mid@.advice_at(c, r));
            }
            assert forall|c: int, r: int| #[trigger] self.fixed_cell(c, r) == t.fixed_at(c, r) by {
                assert(mid.fixed_cell(c, r) == mid@.fixed_at(c, r));
            }
            assert forall|g: int, r: int| #[trigger]
                self.gate_enabled(g, r) == t.enabled.contains((g, r)) by {
                assert(mid.gate_enabled(g, r) == mid@.enabled.contains((g, r)));
            }
            old(self).lemma_view_is(*self, t);
        }
    }

    /// Enables the selector's gate `offset` rows into the open region.
    pub fn enable_selector(&mut self, selector: Selector, offset: usize)
        requires
            old(self).start() + offset < usize::MAX,
        ensures
            final(self)@ == old(self)@.enable(selector.index as int, old(self).start() + offset),
            final(self).start() == old(self).start(),
            final(self)@.extends(old(self)@),
            old(self)@.supported() && selector.index < old(self)@.gates.len()
                ==> final(self)@.supported(),
    {
        let row = self.start + offset;
        proof {
            lemma_extends_step(old(self)@, selector.index as int, row as int, 0);
            if old(self)@.supported() {
                lemma_supported_step(old(self)@, selector.index as int, row as int, 0);
            }
        }
        self.reserve(row);
        let ghost mid = *self;
        switch_on(&mut self.rows[row].enabled, selector.index);
        proof {
            let t = old(self)@.enable(selector.index as int, row as int);
            assert forall|c: int, r: int| #[trigger]
                self.advice_cell(c, r) == t.advice_at(c, r) by {
                assert(mid.advice_cell(c, r) == mid@.advice_at(c, r));
            }
            assert forall|c: int, r: int| #[trigger] self.fixed_cell(c, r) == t.fixed_at(c, r) by {
                assert(mid.fixed_cell(c, r) == mid@.fixed_at(c, r));
            }
            assert forall|g: int, r: int| #[trigger]
                self.gate_enabled(g, r) == t.enabled.contains((g, r)) by {
                assert(mid.gate_enabled(g, r) == mid@.enabled.contains((g, r)));
            }
            old(self).lemma_view_is(*self, t);
        }
    }

    /// Constrains two advice cells to be equal.
    pub fn constrain_equal(&mut self, a: &AssignedCell, b: &AssignedCell)
        ensures
            final(self)@ == old(self)@.constrain_equal(a.key(), b.key()),
            final(self).start() == old(self).start(),
            final(self)@.extends(old(self)@),
            old(self)@.supported() && old(self)@.advice_tied(a.column.index as int) && old(
                self,
            )@.advice_tied(b.column.index as int) ==> final(self)@.supported(),
    {
        proof {
            lemma_extends_step(old(self)@, 0, 0, 0);
            if old(self)@.supported() {
                lemma_supported_step(old(self)@, 0, 0, 0);
            }
        }
        self.copies.push(((a.column.index, a.row), (b.column.index, b.row)));
        proof {
            let t = old(self)@.constrain_equal(a.key(), b.key());
            assert(self@.copies =~= t.copies);
            assert forall|c: int, r: int| #[trigger]
                self.advice_cell(c, r) == t.advice_at(c, r) by {
                assert(old(self).advice_cell(c, r) == old(self)@.advice_at(c, r));
            }
            assert forall|c: int, r: int| #[trigger] self.fixed_cell(c, r) == t.fixed_at(c, r) by {
                assert(old(self).fixed_cell(c, r) == old(self)@.fixed_at(c, r));
            }
            assert forall|g: int, r: int| #[trigger]
                self.gate_enabled(g, r) == t.enabled.contains((g, r)) by {
                assert(old(self).gate_enabled(g, r) == old(self)@.enabled.contains((g, r)));
            }
            old(self).lemma_view_is(*self, t);
        }
    }

    /// Constrains an advice cell to equal a cell of an instance column.
    pub fn constrain_instance(&mut self, cell: &AssignedCell, column: Instance, row: usize)
        ensures
            final(self)@ == old(self)@.constrain_instance(
                cell.key(),
                (column.index as int, row as int),
            ),
            final(self).start() == old(self).start(),
            final(self)@.extends(old(self)@),
            old(self)@.supported() && old(self)@.advice_tied(cell.column.index as int) && old(
                self,
            )@.takes_instance(column.index as int) ==> final(self)@.supported(),
    {
        proof {
            lemma_extends_step(old(self)@, 0, 0, 0);
            if old(self)@.supported() {
                lemma_supported_step(old(self)@, 0, 0, 0);
            }
        }
        self.exposed.push(((cell.column.index, cell.row), (column.index, row)));
        proof {
            let t = old(self)@.constrain_instance(cell.key(), (column.index as int, row as int));
            assert(self@.exposed =~= t.exposed);
            assert forall|c: int, r: int| #[trigger]
                self.advice_cell(c, r) == t.advice_at(c, r) by {
                assert(old(self).advice_cell(c, r) == old(self)@.advice_at(c, r));
            }
            assert forall|c: int, r: int| #[trigger] self.fixed_cell(c, r) == t.fixed_at(c, r) by {
                assert(old(self).fixed_cell(c, r) == old(self)@.fixed_at(c, r));
            }
            assert forall|g: int, r: int| #[trigger]
                self.gate_enabled(g, r) == t.enabled.contains((g, r)) by {
                assert(old(self).gate_enabled(g, r) == old(self)@.enabled.contains((g, r)));
            }
            old(self).lemma_view_is(*self, t);
        }
    }

    /// Assigns the advice cell `offset` rows into the open region the value of
    /// `cell`, and constrains the two to be equal.
    pub fn copy_advice(&mut self, cell: &AssignedCell, column: Advice, offset: usize) -> (r:
        AssignedCell)
        requires
            old(self).start() + offset < usize::MAX,
        ensures
            final(self)@ == old(self)@.assign_advice(
                column.index as int,
                old(self).start() + offset,
                cell.value@,
            ).constrain_equal((column.index as int, old(self).start() + offset), cell.key()),
            final(self).start() == old(self).start(),
            r == (AssignedCell {
                column,
                row: (old(self).start() + offset) as usize,
                value: cell.value,
            }),
            old(self)@.advice_at(column.index as int, old(self).start() + offset) is None
                ==> final(self)@.extends(old(self)@),
            cell.held_by(old(self)@) && (column.index != cell.column.index || old(self).start()
                + offset != cell.row) ==> final(self)@.copy_holds(old(self)@.copies.len() as int),
            old(self)@.supported() && old(self)@.takes_advice(column.index as int) && old(
                self,
            )@.advice_tied(cell.column.index as int) ==> final(self)@.supported(),
    {
        let r = self.assign_advice(column, offset, cell.value);
        let ghost mid = self@;
        self.constrain_equal(&r, cell);
        proof {
            if old(self)@.advice_at(column.index as int, old(self).start() + offset) is None {
                lemma_extends_trans(old(self)@, mid, self@);
            }
        }
        r
    }

    /// A row at or below the rows in use assigns nothing yet.
    pub proof fn lemma_fresh_row(&self, row: int)
        requires
            row >= self@.rows,
        ensures
            advice_free(self@, row),
            fixed_free(self@, row),
    {
        self.lemma_view_wf();
        assert forall|c: int| #[trigger] self@.advice_at(c, row) is None by {
            if self@.advice.contains_key((c, row)) {
            }
        }
        assert forall|c: int| #[trigger] self@.fixed_at(c, row) is None by {
            if self@.fixed.contains_key((c, row)) {
            }
        }
    }

    /// Copies cells onto a row of the open region that assigns no advice cell
    /// yet, one into each of the first columns, and constrains each copy to
    /// equal its source.
    pub fn copy_row(
        &mut self,
        columns: &Vec<Advice>,
        cells: &Vec<AssignedCell>,
        offset: usize,
    ) -> (r: Vec<AssignedCell>)
        requires
            distinct(advice_indices(columns@)),
            1 <= cells@.len() <= columns@.len(),
            old(self).start() + offset < usize::MAX,
            advice_free(old(self)@, old(self).start() + offset),
            forall|j: int| 0 <= j < cells@.len() ==> (#[trigger] cells@[j]).held_by(old(self)@),
        ensures
            final(self).start() == old(self).start(),
            final(self)@.extends(old(self)@),
            final(self)@.rows == (if old(self).start() + offset < old(self)@.rows {
                old(self)@.rows as int
            } else {
                old(self).start() + offset + 1
            }),
            final(self)@.enabled == old(self)@.enabled,
            final(self)@.fixed == old(self)@.fixed,
            final(self)@.exposed == old(self)@.exposed,
            final(self)@.copies == old(self)@.copies + row_copies(
                advice_indices(columns@),
                old(self).start() + offset,
                cells@,
            ),
            forall|k: int|
                old(self)@.copies.len() <= k < final(self)@.copies.len()
                    ==> #[trigger] final(self)@.copy_holds(k),
            advice_row(
                final(self)@,
                advice_indices(columns@),
                old(self).start() + offset,
                cell_values(cells@),
            ),
            advice_free_but(
                final(self)@,
                advice_indices(columns@),
                cells@.len() as int,
                old(self).start() + offset,
            ),
            r@.len() == cells@.len(),
            forall|j: int|
                0 <= j < cells@.len() ==> #[trigger] r@[j] == (AssignedCell {
                    column: columns@[j],
                    row: (old(self).start() + offset) as usize,
                    value: cells@[j].value,
                }) && r@[j].held_by(final(self)@),
            old(self)@.supported() && columns_take(
                old(self)@,
                advice_indices(columns@),
                cells@.len() as int,
            ) && cells_tied(old(self)@, cells@) ==> final(self)@.supported(),
    {
        let size = cells.len();
        let ghost t0 = self@;
        let ghost row = self.start() + offset;
        let ghost cols = advice_indices(columns@);
        let mut out: Vec<AssignedCell> = Vec::new();
        let mut j: usize = 0;
        while j < size
            invariant
                j <= size,
                size == cells@.len(),
                size <= columns@.len(),
                cols == advice_indices(columns@),
                distinct(cols),
                self.start() == old(self).start(),
                row == self.start() + offset,
                row < usize::MAX,
                t0 == old(self)@,
                self@.extends(t0),
                self@.enabled == t0.enabled,
                self@.fixed == t0.fixed,
                self@.exposed == t0.exposed,
                self@.rows == (if j == 0 || row < t0.rows {
                    t0.rows as int
                } else {
                    row + 1
                }),
                self@.copies.len() == t0.copies.len() + j,
                t0.supported() && columns_take(t0, cols, size as int) && cells_tied(t0, cells@)
                    ==> self@.supported(),
                forall|i: int|
                    0 <= i < j ==> #[trigger] self@.copies[t0.copies.len() + i] == (
                        (cols[i], row),
                        cells@[i].key(),
                    ),
                forall|k: int| t0.copies.len() <= k < self@.copies.len()
                    ==> #[trigger] self@.copy_holds(k),
                forall|i: int|
                    0 <= i < j
                        ==> #[trigger] self@.advice_at(cols[i], row) == Some(cells@[i].value@),
                advice_free_but(self@, cols, j as int, row),
                forall|i: int| 0 <= i < cells@.len() ==> (#[trigger] cells@[i]).held_by(t0),
                advice_free(t0, row),
                out@.len() == j,
                forall|i: int|
                    0 <= i < j ==> #[trigger] out@[i] == (AssignedCell {
                        column: columns@[i],
                        row: row as usize,
                        value: cells@[i].value,
                    }),
            decreases size - j,
        {
            let ghost before = self@;
            proof {
                assert(cells@[j as int].held_by(t0));
                assert(t0.advice.contains_key(cells@[j as int].key()));
                assert(t0.advice_at(cells@[j as int].column.index as int, row) is None);
                assert(forall|i: int| 0 <= i < j ==> cols[j as int] != #[trigger] cols[i]);
                assert(before.advice_at(cols[j as int], row) is None);
                assert(cells@[j as int].held_by(before));
                if t0.supported() && columns_take(t0, cols, size as int) && cells_tied(t0, cells@) {
                    assert(t0.takes_advice(cols[j as int]));
                    assert(t0.advice_tied(cells@[j as int].column.index as int));
                    assert(before.takes_advice(cols[j as int]));
                    assert(before.advice_tied(cells@[j as int].column.index as int));
                }
            }
            let cell = self.copy_advice(&cells[j], columns[j], offset);
            out.push(cell);
            proof {
                let now = self@;
                lemma_extends_trans(t0, before, now);
                lemma_constraints_extend(before, now);
                assert forall|k: int| t0.copies.len() <= k < now.copies.len()
                    implies #[trigger] now.copy_holds(
                    k,
                ) by {
                    if k < before.copies.len() {
                        assert(before.copy_holds(k));
                    }
                }
                assert forall|i: int| 0 <= i < j + 1 implies #[trigger] now.copies[t0.copies.len()
                    + i] == ((cols[i], row), cells@[i].key()) by {
                    if i < j {
                        assert(before.copies[t0.copies.len() + i] == (
                            (cols[i], row),
                            cells@[i].key(),
                        ));
                    }
                }
                assert forall|i: int| 0 <= i < j + 1 implies #[trigger] now.advice_at(cols[i], row)
                    == Some(cells@[i].value@) by {
                    if i < j {
                        assert(before.advice_at(cols[i], row) == Some(cells@[i].value@));
                    }
                }
                assert forall|c: int| (forall|i: int| 0 <= i < j + 1 ==> c != #[trigger] cols[i])
                    implies #[trigger] now.advice_at(c, row) is None by {
                    assert(c != cols[j as int]);
                    assert(before.advice_at(c, row) is None);
                }
            }
            j = j + 1;
        }
        proof {
            let now = self@;
            assert forall|i: int| 0 <= i < size implies #[trigger] out@[i].held_by(now) by {
                assert(now.advice_at(cols[i], row) == Some(cells@[i].value@));
            }
            let added = row_copies(cols, row, cells@);
            assert forall|k: int| 0 <= k < now.copies.len() implies now.copies[k] == (t0.copies
                + added)[k] by {
                if k >= t0.copies.len() {
                    assert(now.copies[t0.copies.len() + (k - t0.copies.len())] == added[k
                        - t0.copies.len()]);
                }
            }
            assert(now.copies =~= t0.copies + added);
        }
        out
    }

    /// Assigns values on a row of the open region that assigns no advice cell
    /// yet, one to each of the first columns.
    pub fn assign_row(&mut self, columns: &Vec<Advice>, vals: &Vec<Fe>, offset: usize) -> (r: Vec<
        AssignedCell,
    >)
        requires
            distinct(advice_indices(columns@)),
            1 <= vals@.len() <= columns@.len(),
            old(self).start() + offset < usize::MAX,
            advice_free(old(self)@, old(self).start() + offset),
        ensures
            final(self).start() == old(self).start(),
            final(self)@.extends(old(self)@),
            final(self)@.rows == (if old(self).start() + offset < old(self)@.rows {
                old(self)@.rows as int
            } else {
                old(self).start() + offset + 1
            }),
            final(self)@.enabled == old(self)@.enabled,
            final(self)@.fixed == old(self)@.fixed,
            final(self)@.copies == old(self)@.copies,
            final(self)@.exposed == old(self)@.exposed,
            advice_row(
                final(self)@,
                advice_indices(columns@),
                old(self).start() + offset,
                values(vals@),
            ),
            advice_free_but(
                final(self)@,
                advice_indices(columns@),
                vals@.len() as int,
                old(self).start() + offset,
            ),
            r@.len() == vals@.len(),
            forall|j: int|
                0 <= j < vals@.len() ==> #[trigger] r@[j] == (AssignedCell {
                    column: columns@[j],
                    row: (old(self).start() + offset) as usize,
                    value: vals@[j],
                }) && r@[j].held_by(final(self)@),
            old(self)@.supported() && columns_within(
                advice_indices(columns@),
                vals@.len() as int,
                old(self)@.num_advice as int,
            ) ==> final(self)@.supported(),
    {
        let size = vals.len();
        let ghost t0 = self@;
        let ghost row = self.start() + offset;
        let ghost cols = advice_indices(columns@);
        let mut out: Vec<AssignedCell> = Vec::new();
        let mut j: usize = 0;
        while j < size
            invariant
                j <= size,
                size == vals@.len(),
                size <= columns@.len(),
                cols == advice_indices(columns@),
                distinct(cols),
                self.start() == old(self).start(),
                row == self.start() + offset,
                row < usize::MAX,
                t0 == old(self)@,
                self@.extends(t0),
                self@.enabled == t0.enabled,
                self@.fixed == t0.fixed,
                self@.copies == t0.copies,
                self@.exposed == t0.exposed,
                self@.rows == (if j == 0 || row < t0.rows {
                    t0.rows as int
                } else {
                    row + 1
                }),
                forall|i: int| 0 <= i < j
                    ==> #[trigger] self@.advice_at(cols[i], row) == Some(vals@[i]@),
                t0.supported() && columns_within(cols, size as int, t0.num_advice as int)
                    ==> self@.supported(),
                advice_free_but(self@, cols, j as int, row),
                out@.len() == j,
                forall|i: int|
                    0 <= i < j ==> #[trigger] out@[i] == (AssignedCell {
                        column: columns@[i],
                        row: row as usize,
                        value: vals@[i],
                    }),
            decreases size - j,
        {
            let ghost before = self@;
            proof {
                assert(forall|i: int| 0 <= i < j ==> cols[j as int] != #[trigger] cols[i]);
                assert(before.advice_at(cols[j as int], row) is None);
                if columns_within(cols, size as int, t0.num_advice as int) {
                    assert(0 <= cols[j as int] < t0.num_advice);
                }
            }
            let cell = self.assign_advice(columns[j], offset, vals[j]);
            out.push(cell);
            proof {
                let now = self@;
                lemma_extends_trans(t0, before, now);
                assert forall|i: int| 0 <= i < j + 1 implies #[trigger] now.advice_at(cols[i], row)
                    == Some(vals@[i]@) by {
                    if i < j {
                        assert(before.advice_at(cols[i], row) == Some(vals@[i]@));
                    }
                }
                assert forall|c: int| (forall|i: int| 0 <= i < j + 1 ==> c != #[trigger] cols[i])
                    implies #[trigger] now.advice_at(c, row) is None by {
                    assert(c != cols[j as int]);
                    assert(before.advice_at(c, row) is None);
                }
            }
            j = j + 1;
        }
        proof {
            let now = self@;
            assert forall|i: int| 0 <= i < size implies #[trigger] out@[i].held_by(now) by {
                assert(now.advice_at(cols[i], row) == Some(vals@[i]@));
            }
        }
        out
    }

    /// Assigns constants on a row of the open region that assigns no fixed
    /// cell yet, one to each of the first columns.
    pub fn assign_fixed_row(&mut self, columns: &Vec<Fixed>, vals: &Vec<Fe>, offset: usize)
        requires
            distinct(fixed_indices(columns@)),
            vals@.len() <= columns@.len(),
            old(self).start() + offset < old(self)@.rows,
            fixed_free(old(self)@, old(self).start() + offset),
        ensures
            final(self).start() == old(self).start(),
            final(self)@.extends(old(self)@),
            final(self)@.rows == old(self)@.rows,
            final(self)@.enabled == old(self)@.enabled,
            final(self)@.advice == old(self)@.advice,
            final(self)@.copies == old(self)@.copies,
            final(self)@.exposed == old(self)@.exposed,
            fixed_row(
                final(self)@,
                fixed_indices(columns@),
                old(self).start() + offset,
                values(vals@),
            ),
            forall|c: int, r: int|
                r != old(self).start() + offset ==> #[trigger] final(self)@.fixed_at(c, r) == old(
                    self,
                )@.fixed_at(c, r),
            old(self)@.supported() && columns_within(
                fixed_indices(columns@),
                vals@.len() as int,
                old(self)@.num_fixed as int,
            ) ==> final(self)@.supported(),
    {
        let size = vals.len();
        let ghost t0 = self@;
        let ghost row = self.start() + offset;
        let ghost cols = fixed_indices(columns@);
        proof {
            self.lemma_view_wf();
        }
        let mut j: usize = 0;
        while j < size
            invariant
                j <= size,
                size == vals@.len(),
                size <= columns@.len(),
                cols == fixed_indices(columns@),
                distinct(cols),
                self.start() == old(self).start(),
                row == self.start() + offset,
                row < t0.rows,
                t0.rows <= usize::MAX,
                t0 == old(self)@,
                self@.extends(t0),
                self@.enabled == t0.enabled,
                self@.advice == t0.advice,
                self@.copies == t0.copies,
                self@.exposed == t0.exposed,
                self@.rows == t0.rows,
                forall|i: int| 0 <= i < j
                    ==> #[trigger] self@.fixed_at(cols[i], row) == Some(vals@[i]@),
                t0.supported() && columns_within(cols, size as int, t0.num_fixed as int)
                    ==> self@.supported(),
                forall|c: int|
                    (forall|i: int| 0 <= i < j ==> c != #[trigger] cols[i])
                        ==> #[trigger] self@.fixed_at(
                        c,
                        row,
                    ) is None,
                forall|c: int, r: int| r != row
                    ==> #[trigger] self@.fixed_at(c, r) == t0.fixed_at(c, r),
            decreases size - j,
        {
            let ghost before = self@;
            proof {
                assert(forall|i: int| 0 <= i < j ==> cols[j as int] != #[trigger] cols[i]);
                assert(before.fixed_at(cols[j as int], row) is None);
                if columns_within(cols, size as int, t0.num_fixed as int) {
                    assert(0 <= cols[j as int] < t0.num_fixed);
                }
            }
            self.assign_fixed(columns[j], offset, vals[j]);
            proof {
                let now = self@;
                lemma_extends_trans(t0, before, now);
                assert forall|i: int| 0 <= i < j + 1 implies #[trigger] now.fixed_at(cols[i], row)
                    == Some(vals@[i]@) by {
                    if i < j {
                        assert(before.fixed_at(cols[i], row) == Some(vals@[i]@));
                    }
                }
                assert forall|c: int| (forall|i: int| 0 <= i < j + 1 ==> c != #[trigger] cols[i])
                    implies #[trigger] now.fixed_at(c, row) is None by {
                    assert(c != cols[j as int]);
                    assert(before.fixed_at(c, row) is None);
                }
                assert forall|c: int, r: int| r != row implies #[trigger] now.fixed_at(c, r)
                    == t0.fixed_at(c, r) by {
                    assert(before.fixed_at(c, r) == t0.fixed_at(c, r));
                }
            }
            j = j + 1;
        }
    }

    /// Assigns the public inputs from row `from` on, `count` of them, on a row
    /// of the open region that assigns no advice cell yet, one to each of the
    /// first columns, and constrains each cell to equal its public input.
    pub fn public_row(
        &mut self,
        columns: &Vec<Advice>,
        instance: Instance,
        from: usize,
        count: usize,
        offset: usize,
    ) -> (r: Vec<AssignedCell>)
        requires
            distinct(advice_indices(columns@)),
            1 <= count <= columns@.len(),
            from + count <= usize::MAX,
            old(self).start() + offset < usize::MAX,
            advice_free(old(self)@, old(self).start() + offset),
        ensures
            final(self).start() == old(self).start(),
            final(self)@.extends(old(self)@),
            final(self)@.rows == (if old(self).start() + offset < old(self)@.rows {
                old(self)@.rows as int
            } else {
                old(self).start() + offset + 1
            }),
            final(self)@.enabled == old(self)@.enabled,
            final(self)@.fixed == old(self)@.fixed,
            final(self)@.copies == old(self)@.copies,
            final(self)@.exposed == old(self)@.exposed + row_exposures(
                advice_indices(columns@),
                old(self).start() + offset,
                instance.index as int,
                from as int,
                count as int,
            ),
            forall|k: int|
                old(self)@.exposed.len() <= k < final(self)@.exposed.len()
                    ==> #[trigger] final(self)@.exposure_holds(k),
            advice_row(
                final(self)@,
                advice_indices(columns@),
                old(self).start() + offset,
                old(self)@.public_values(instance.index as int, from as int, count as int),
            ),
            advice_free_but(
                final(self)@,
                advice_indices(columns@),
                count as int,
                old(self).start() + offset,
            ),
            r@.len() == count,
            forall|j: int|
                0 <= j < count ==> (#[trigger] r@[j]).column == columns@[j] && r@[j].row == old(
                    self,
                ).start() + offset && r@[j].value@ == old(self)@.instance_at(
                    instance.index as int,
                    from + j,
                ) && r@[j].held_by(final(self)@),
            old(self)@.supported() && columns_take(
                old(self)@,
                advice_indices(columns@),
                count as int,
            ) && old(self)@.takes_instance(instance.index as int) ==> final(self)@.supported(),
    {
        let ghost t0 = self@;
        let ghost row = self.start() + offset;
        let ghost cols = advice_indices(columns@);
        let mut out: Vec<AssignedCell> = Vec::new();
        let mut j: usize = 0;
        while j < count
            invariant
                j <= count,
                count <= columns@.len(),
                from + count <= usize::MAX,
                cols == advice_indices(columns@),
                distinct(cols),
                self.start() == old(self).start(),
                row == self.start() + offset,
                row < usize::MAX,
                t0 == old(self)@,
                self@.extends(t0),
                self@.enabled == t0.enabled,
                self@.fixed == t0.fixed,
                self@.copies == t0.copies,
                self@.rows == (if j == 0 || row < t0.rows {
                    t0.rows as int
                } else {
                    row + 1
                }),
                self@.exposed.len() == t0.exposed.len() + j,
                t0.supported() && columns_take(t0, cols, count as int) && t0.takes_instance(
                    instance.index as int,
                ) ==> self@.supported(),
                forall|i: int|
                    0 <= i < j ==> #[trigger] self@.exposed[t0.exposed.len() + i] == (
                        (cols[i], row),
                        (instance.index as int, from + i),
                    ),
                forall|k: int|
                    t0.exposed.len() <= k < self@.exposed.len()
                        ==> #[trigger] self@.exposure_holds(k),
                forall|i: int|
                    0 <= i < j ==> #[trigger] self@.advice_at(cols[i], row) == Some(
                        t0.instance_at(instance.index as int, from + i),
                    ),
                advice_free_but(self@, cols, j as int, row),
                out@.len() == j,
                forall|i: int|
                    0 <= i < j ==> (#[trigger] out@[i]).column == columns@[i] && out@[i].row == row
                        && out@[i].value@ == t0.instance_at(instance.index as int, from + i),
            decreases count - j,
        {
            let ghost before = self@;
            proof {
                assert(forall|i: int| 0 <= i < j ==> cols[j as int] != #[trigger] cols[i]);
                assert(before.advice_at(cols[j as int], row) is None);
                if t0.supported() && columns_take(t0, cols, count as int) && t0.takes_instance(
                    instance.index as int,
                ) {
                    assert(t0.takes_advice(cols[j as int]));
                    assert(before.takes_advice(cols[j as int]));
                    assert(before.takes_instance(instance.index as int));
                }
            }
            let cell = self.assign_advice_from_instance(instance, from + j, columns[j], offset);
            out.push(cell);
            proof {
                let now = self@;
                lemma_extends_trans(t0, before, now);
                lemma_constraints_extend(before, now);
                assert forall|k: int|
                    t0.exposed.len() <= k < now.exposed.len() implies #[trigger] now.exposure_holds(
                    k,
                ) by {
                    if k < before.exposed.len() {
                        assert(before.exposure_holds(k));
                    }
                }
                assert forall|i: int| 0 <= i < j + 1 implies #[trigger] now.exposed[t0.exposed.len()
                    + i] == ((cols[i], row), (instance.index as int, from + i)) by {
                    if i < j {
                        assert(before.exposed[t0.exposed.len() + i] == (
                            (cols[i], row),
                            (instance.index as int, from + i),
                        ));
                    }
                }
                assert forall|i: int| 0 <= i < j + 1 implies #[trigger] now.advice_at(cols[i], row)
                    == Some(t0.instance_at(instance.index as int, from + i)) by {
                    if i < j {
                        assert(before.advice_at(cols[i], row) == Some(
                            t0.instance_at(instance.index as int, from + i),
                        ));
                    }
                }
                assert forall|c: int| (forall|i: int| 0 <= i < j + 1 ==> c != #[trigger] cols[i])
                    implies #[trigger] now.advice_at(c, row) is None by {
                    assert(c != cols[j as int]);
                    assert(before.advice_at(c, row) is None);
                }
            }
            j = j + 1;
        }
        proof {
            let now = self@;
            assert forall|i: int| 0 <= i < count implies (#[trigger] out@[i]).held_by(now) by {
                assert(now.advice_at(cols[i], row) == Some(
                    t0.instance_at(instance.index as int, from + i),
                ));
            }
            let added = row_exposures(cols, row, instance.index as int, from as int, count as int);
            assert forall|k: int| 0 <= k < now.exposed.len() implies now.exposed[k] == (t0.exposed
                + added)[k] by {
                if k >= t0.exposed.len() {
                    assert(now.exposed[t0.exposed.len() + (k - t0.exposed.len())] == added[k
                        - t0.exposed.len()]);
                }
            }
            assert(now.exposed =~= t0.exposed + added);
        }
        out
    }

    /// The value of a cell of an instance column: what was given, and zero
    /// beyond that.
    pub fn instance_value(&self, column: Instance, row: usize) -> (r: Fe)
        ensures
            r@ == self@.instance_at(column.index as int, row as int),
    {
        if column.index < self.instance.len() && row < self.instance[column.index].len() {
            self.instance[column.index][row]
        } else {
            Fe::zero()
        }
    }

    /// Assigns the advice cell `offset` rows into the open region the value of
    /// a cell of an instance column, and constrains the two to be equal.
    pub fn assign_advice_from_instance(
        &mut self,
        instance: Instance,
        row: usize,
        advice: Advice,
        offset: usize,
    ) -> (r: AssignedCell)
        requires
            old(self).start() + offset < usize::MAX,
        ensures
            final(self)@ == old(self)@.assign_advice(
                advice.index as int,
                old(self).start() + offset,
                old(self)@.instance_at(instance.index as int, row as int),
            ).constrain_instance(
                (advice.index as int, old(self).start() + offset),
                (instance.index as int, row as int),
            ),
            final(self).start() == old(self).start(),
            r.column == advice,
            r.row == old(self).start() + offset,
            r.value@ == old(self)@.instance_at(instance.index as int, row as int),
            old(self)@.advice_at(advice.index as int, old(self).start() + offset) is None
                ==> final(self)@.extends(old(self)@),
            final(self)@.exposure_holds(old(self)@.exposed.len() as int),
            old(self)@.supported() && old(self)@.takes_advice(advice.index as int) && old(
                self,
            )@.takes_instance(instance.index as int) ==> final(self)@.supported(),
    {
        let value = self.instance_value(instance, row);
        let r = self.assign_advice(advice, offset, value);
        let ghost mid = self@;
        self.constrain_instance(&r, instance, row);
        proof {
            if old(self)@.advice_at(advice.index as int, old(self).start() + offset) is None {
                lemma_extends_trans(old(self)@, mid, self@);
            }
        }
        r
    }

    /// The value that the table assigns to an advice cell, if any.
    pub fn advice_value(&self, column: usize, row: usize) -> (r: Option<Fe>)
        ensures
            option_value(r) == self@.advice_at(column as int, row as int),
    {
        assert(self.advice_cell(column as int, row as int) == self@.advice_at(
            column as int,
            row as int,
        ));
        if row < self.rows.len() && column < self.rows[row].advice.len() {
            self.rows[row].advice[column]
        } else {
            None
        }
    }

    /// The value that the table assigns to a fixed cell, if any.
    pub fn fixed_value(&self, column: usize, row: usize) -> (r: Option<Fe>)
        ensures
            option_value(r) == self@.fixed_at(column as int, row as int),
    {
        assert(self.fixed_cell(column as int, row as int) == self@.fixed_at(
            column as int,
            row as int,
        ));
        if row < self.rows.len() && column < self.rows[row].fixed.len() {
            self.rows[row].fixed[column]
        } else {
            None
        }
    }

    /// Evaluates a polynomial on a row of the table.
    pub fn evaluate(&self, e: &Expression, row: usize) -> (r: Option<Fe>)
        ensures
            option_value(r) == e.eval(self@, row as int),
        decreases e,
    {
        match e {
            Expression::Constant(c) => Some(*c),
            Expression::Fixed { column, rotation } => {
                assert(forall|c: int, r: int| #[trigger]
                    self@.fixed.contains_key((c, r)) ==> 0 <= r <= usize::MAX) by {
                    self.lemma_view_wf();
                }
                match rotated(row, *rotation) {
                    Some(at) => self.fixed_value(column.index, at),
                    None => None,
                }
            },
            Expression::Advice { column, rotation } => {
                assert(forall|c: int, r: int| #[trigger]
                    self@.advice.contains_key((c, r)) ==> 0 <= r <= usize::MAX) by {
                    self.lemma_view_wf();
                }
                match rotated(row, *rotation) {
                    Some(at) => self.advice_value(column.index, at),
                    None => None,
                }
            },
            Expression::Negated(a) => match self.evaluate(a, row) {
                Some(x) => Some(x.neg()),
                None => None,
            },
            Expression::Sum(a, b) => match self.evaluate(a, row) {
                Some(x) => match self.evaluate(b, row) {
                    Some(y) => Some(x.add(&y)),
                    None => None,
                },
                None => None,
            },
            Expression::Product(a, b) => match self.evaluate(a, row) {
                Some(x) => match self.evaluate(b, row) {
                    Some(y) => Some(x.mul(&y)),
                    None => None,
                },
                None => None,
            },
            Expression::Scaled(a, f) => match self.evaluate(a, row) {
                Some(x) => Some(x.mul(f)),
                None => None,
            },
        }
    }

    /// Whether a gate holds on a row.
    pub fn gate_holds(&self, gate: usize, row: usize) -> (r: bool)
        requires
            gate < self@.gates.len(),
        ensures
            r == self@.gate_holds(gate as int, row as int),
    {
        let polys = &self.cs.gates[gate].polys;
        assert(self@.gates[gate as int] == polys@);
        let mut k: usize = 0;
        while k < polys.len()
            invariant
                k <= polys.len(),
                self@.gates[gate as int] == polys@,
                forall|j: int| 0 <= j < k
                    ==> (#[trigger] polys@[j]).eval(self@, row as int) == Some(0nat),
            decreases polys.len() - k,
        {
            match self.evaluate(&polys[k], row) {
                Some(v) => {
                    if !v.is_zero() {
                        return false;
                    }
                },
                None => {
                    return false;
                },
            }
            k = k + 1;
        }
        true
    }

    /// Whether every gate holds on every row on which it is enabled.
    fn gates_hold(&self) -> (r: bool)
        ensures
            r == self@.gates_hold(),
    {
        let mut row: usize = 0;
        while row < self.rows.len()
            invariant
                row <= self.rows.len(),
                forall|g: int, r: int|
                    0 <= g < self@.gates.len() && 0 <= r < row && #[trigger] self@.enabled.contains(
                        (g, r),
                    ) ==> self@.gate_holds(g, r),
            decreases self.rows.len() - row,
        {
            let mut gate: usize = 0;
            while gate < self.rows[row].enabled.len() && gate < self.cs.gates.len()
                invariant
                    row < self.rows.len(),
                    gate <= self.rows[row as int].enabled.len(),
                    gate <= self.cs.gates.len(),
                    forall|g: int, r: int|
                        0 <= g < self@.gates.len() && 0 <= r < row
                            && #[trigger] self@.enabled.contains((g, r)) ==> self@.gate_holds(
                            g,
                            r,
                        ),
                    forall|g: int|
                        0 <= g < gate && #[trigger] self@.enabled.contains((g, row as int))
                            ==> self@.gate_holds(g, row as int),
                decreases self.rows[row as int].enabled.len() - gate,
            {
                if self.rows[row].enabled[gate] {
                    assert(self.gate_enabled(gate as int, row as int));
                    assert(self@.enabled.contains((gate as int, row as int)));
                    if !self.gate_holds(gate, row) {
                        return false;
                    }
                }
                gate = gate + 1;
            }
            proof {
                assert forall|g: int|
                    0 <= g < self@.gates.len() && #[trigger] self@.enabled.contains(
                        (g, row as int),
                    ) implies self@.gate_holds(g, row as int) by {
                    assert(self.gate_enabled(g, row as int));
                }
            }
            row = row + 1;
        }
        proof {
            assert forall|g: int, r: int|
                0 <= g < self@.gates.len() && #[trigger] self@.enabled.contains(
                    (g, r),
                ) implies self@.gate_holds(g, r) by {
                assert(self.gate_enabled(g, r));
            }
        }
        true
    }

    /// Whether every pair of advice cells constrained to be equal is.
    fn copies_hold(&self) -> (r: bool)
        ensures
            r == self@.copies_hold(),
    {
        let mut i: usize = 0;
        while i < self.copies.len()
            invariant
                i <= self.copies.len(),
                self@.copies.len() == self.copies.len(),
                forall|j: int| 0 <= j < i ==> #[trigger] self@.copy_holds(j),
            decreases self.copies.len() - i,
        {
            let (a, b) = self.copies[i];
            assert(self@.copies[i as int] == pair_keys(self.copies@[i as int]));
            let ok = match self.advice_value(a.0, a.1) {
                Some(x) => match self.advice_value(b.0, b.1) {
                    Some(y) => x.eq(&y),
                    None => false,
                },
                None => false,
            };
            if !ok {
                assert(!self@.copy_holds(i as int));
                return false;
            }
            assert(self@.copy_holds(i as int));
            i = i + 1;
        }
        true
    }

    /// Whether every advice cell bound to a public input equals it.
    fn exposed_hold(&self) -> (r: bool)
        ensures
            r == self@.exposed_hold(),
    {
        let mut i: usize = 0;
        while i < self.exposed.len()
            invariant
                i <= self.exposed.len(),
                self@.exposed.len() == self.exposed.len(),
                forall|j: int| 0 <= j < i ==> #[trigger] self@.exposure_holds(j),
            decreases self.exposed.len() - i,
        {
            let (a, b) = self.exposed[i];
            assert(self@.exposed[i as int] == pair_keys(self.exposed@[i as int]));
            let public = self.instance_value(Instance { index: b.0 }, b.1);
            let ok = match self.advice_value(a.0, a.1) {
                Some(x) => x.eq(&public),
                None => false,
            };
            if !ok {
                assert(!self@.exposure_holds(i as int));
                return false;
            }
            assert(self@.exposure_holds(i as int));
            i = i + 1;
        }
        true
    }

    /// Whether the table satisfies the constraint system: every gate holds on
    /// every row on which it is enabled and every equality constraint holds.
    pub fn satisfied(&self) -> (r: bool)
        ensures
            r == self@.satisfied(),
    {
        self.gates_hold() && self.copies_hold() && self.exposed_hold()
    }

    /// Whether every cell of the slots lies in one of the first `width`
    /// columns.
    fn within(cells: &Vec<Option<Fe>>, width: usize) -> (r: bool)
        ensures
            r == forall|c: int| #[trigger] slot(cells@, c) is Some ==> c < width,
    {
        let mut c: usize = width;
        while c < cells.len()
            invariant
                width <= c,
                forall|k: int| width <= k < c ==> #[trigger] slot(cells@, k) is None,
            decreases cells@.len() - c,
        {
            if cells[c].is_some() {
                assert(slot(cells@, c as int) is Some);
                return false;
            }
            c = c + 1;
        }
        true
    }

    /// Whether every flag that is set is one of the first `count`.
    fn flags_within(flags: &Vec<bool>, count: usize) -> (r: bool)
        ensures
            r == forall|g: int| #[trigger] flag(flags@, g) ==> g < count,
    {
        let mut g: usize = count;
        while g < flags.len()
            invariant
                count <= g,
                forall|k: int| count <= k < g ==> !#[trigger] flag(flags@, k),
            decreases flags@.len() - g,
        {
            if flags[g] {
                assert(flag(flags@, g as int));
                return false;
            }
            g = g + 1;
        }
        true
    }

    /// Whether the table keeps to its constraint system.
    pub fn supported(&self) -> (r: bool)
        ensures
            r == self@.supported(),
    {
        let mut row: usize = 0;
        while row < self.rows.len()
            invariant
                row <= self.rows.len(),
                forall|c: int, r: int|
                    0 <= r < row && #[trigger] self@.advice.contains_key((c, r)) ==> 0 <= c
                        < self@.num_advice,
                forall|c: int, r: int|
                    0 <= r < row && #[trigger] self@.fixed.contains_key((c, r)) ==> 0 <= c
                        < self@.num_fixed,
                forall|g: int, r: int|
                    0 <= r < row && #[trigger] self@.enabled.contains((g, r)) ==> 0 <= g
                        < self@.gates.len(),
            decreases self.rows.len() - row,
        {
            if !Self::within(&self.rows[row].advice, self.cs.num_advice) {
                proof {
                    let c = choose|c: int|
                        (#[trigger] slot(self.rows[row as int].advice@, c)) is Some && c
                            >= self.cs.num_advice;
                    assert(self.advice_cell(c, row as int) is Some);
                    assert(self@.advice.contains_key((c, row as int)));
                }
                return false;
            }
            if !Self::within(&self.rows[row].fixed, self.cs.num_fixed) {
                proof {
                    let c = choose|c: int|
                        (#[trigger] slot(self.rows[row as int].fixed@, c)) is Some && c
                            >= self.cs.num_fixed;
                    assert(self.fixed_cell(c, row as int) is Some);
                    assert(self@.fixed.contains_key((c, row as int)));
                }
                return false;
            }
            if !Self::flags_within(&self.rows[row].enabled, self.cs.gates.len()) {
                proof {
                    let g = choose|g: int|
                        #[trigger] flag(self.rows[row as int].enabled@, g) && g
                            >= self.cs.gates.len();
                    assert(self.gate_enabled(g, row as int));
                    assert(self@.enabled.contains((g, row as int)));
                }
                return false;
            }
            proof {
                assert forall|c: int| #[trigger]
                    self@.advice.contains_key((c, row as int)) implies 0 <= c
                    < self@.num_advice by {
                    assert(self.advice_cell(c, row as int) is Some);
                    assert(slot(self.rows[row as int].advice@, c) is Some);
                }
                assert forall|c: int| #[trigger]
                    self@.fixed.contains_key((c, row as int)) implies 0 <= c < self@.num_fixed by {
                    assert(self.fixed_cell(c, row as int) is Some);
                    assert(slot(self.rows[row as int].fixed@, c) is Some);
                }
                assert forall|g: int| #[trigger]
                    self@.enabled.contains((g, row as int)) implies 0 <= g
                    < self@.gates.len() by {
                    assert(self.gate_enabled(g, row as int));
                    assert(flag(self.rows[row as int].enabled@, g));
                }
            }
            row = row + 1;
        }
        proof {
            self.lemma_view_wf();
        }
        let mut i: usize = 0;
        while i < self.copies.len()
            invariant
                i <= self.copies.len(),
                self@.copies.len() == self.copies.len(),
                forall|k: int|
                    0 <= k < i ==> self@.advice_tied((#[trigger] self@.copies[k]).0.0)
                        && self@.advice_tied(self@.copies[k].1.0),
            decreases self.copies.len() - i,
        {
            let (a, b) = self.copies[i];
            assert(self@.copies[i as int] == pair_keys(self.copies@[i as int]));
            if !self.cs.advice_tied(a.0) || !self.cs.advice_tied(b.0) {
                return false;
            }
            i = i + 1;
        }
        let mut i: usize = 0;
        while i < self.exposed.len()
            invariant
                i <= self.exposed.len(),
                self@.exposed.len() == self.exposed.len(),
                forall|k: int|
                    0 <= k < i ==> self@.advice_tied((#[trigger] self@.exposed[k]).0.0)
                        && self@.instance_tied(self@.exposed[k].1.0) && self@.exposed[k].1.0
                        < self@.num_instance,
            decreases self.exposed.len() - i,
        {
            let (a, b) = self.exposed[i];
            assert(self@.exposed[i as int] == pair_keys(self.exposed@[i as int]));
            if !self.cs.advice_tied(a.0) || !self.cs.instance_tied(b.0) || b.0
                >= self.cs.num_instance {
                return false;
            }
            i = i + 1;
        }
        true
    }

    /// The number of rows in use.
    pub fn rows(&self) -> (r: usize)
        ensures
            r == self@.rows,
    {
        self.rows.len()
    }

    /// The constraint system that the table is laid out for.
    pub fn constraint_system(&self) -> (r: &ConstraintSystem)
        ensures
            r.num_advice == self@.num_advice,
            r.num_fixed == self@.num_fixed,
            r.num_instance == self@.num_instance,
            r.equality@ == self@.equality,
            r.polys() == self@.gates,
    {
        &self.cs
    }

    /// Whether a gate is enabled on a row.
    pub fn is_enabled(&self, gate: usize, row: usize) -> (r: bool)
        ensures
            r == self@.enabled.contains((gate as int, row as int)),
    {
        assert(self.gate_enabled(gate as int, row as int) == self@.enabled.contains(
            (gate as int, row as int),
        ));
        row < self.rows.len() && gate < self.rows[row].enabled.len() && self.rows[row].enabled[gate]
    }

    /// The number of pairs of advice cells constrained to be equal.
    pub fn num_copies(&self) -> (r: usize)
        ensures
            r == self@.copies.len(),
    {
        self.copies.len()
    }

    /// The `i`-th pair of advice cells constrained to be equal, each as its
    /// column and row.
    pub fn copy(&self, i: usize) -> (r: ((usize, usize), (usize, usize)))
        requires
            i < self@.copies.len(),
        ensures
            self@.copies[i as int] == (
                (r.0.0 as int, r.0.1 as int),
                (r.1.0 as int, r.1.1 as int),
            ),
    {
        self.copies[i]
    }

    /// The number of advice cells constrained to equal a public input.
    pub fn num_exposed(&self) -> (r: usize)
        ensures
            r == self@.exposed.len(),
    {
        self.exposed.len()
    }

    /// The `i`-th pair of an advice cell and the cell of an instance column
    /// that it is constrained to equal, each as its column and row.
    pub fn exposure(&self, i: usize) -> (r: ((usize, usize), (usize, usize)))
        requires
            i < self@.exposed.len(),
        ensures
            self@.exposed[i as int] == (
                (r.0.0 as int, r.0.1 as int),
                (r.1.0 as int, r.1.1 as int),
            ),
    {
        self.exposed[i]
    }
}

/// The row that a rotation leads to, if there is one.
fn rotated(row: usize, rotation: Rotation) -> (r: Option<usize>)
    ensures
        match r {
            Some(at) => at == row + rotation.0,
            None => row + rotation.0 < 0 || row + rotation.0 > usize::MAX,
        },
{
    if rotation.0 >= 0 {
        let d = rotation.0 as usize;
        if row <= usize::MAX - d {
            Some(row + d)
        } else {
            None
        }
    } else {
        let d = (-(rotation.0 as i64)) as usize;
        if row >= d {
            Some(row - d)
        } else {
            None
        }
    }
}

/// Sets one flag of a row, growing the row if it is too short.
fn switch_on(flags: &mut Vec<bool>, gate: usize)
    ensures
        forall|g: int| #[trigger]
            flag(final(flags)@, g) == (g == gate || flag(old(flags)@, g)),
{
    while flags.len() <= gate
        invariant
            old(flags)@.len() <= flags@.len(),
            forall|g: int| 0 <= g < old(flags)@.len() ==> #[trigger] flags@[g] == old(flags)@[g],
            forall|g: int| old(flags)@.len() <= g < flags@.len() ==> !#[trigger] flags@[g],
        decreases gate + 1 - flags.len(),
    {
        flags.push(false);
    }
    flags.set(gate, true);
}

/// Sets one slot of a row, growing the row if it is too short.
fn put(cells: &mut Vec<Option<Fe>>, column: usize, value: Fe)
    ensures
        forall|c: int| #[trigger]
            slot(final(cells)@, c) == (if c == column {
                Some(value@)
            } else {
                slot(old(cells)@, c)
            }),
{
    while cells.len() <= column
        invariant
            old(cells)@.len() <= cells@.len(),
            forall|c: int| 0 <= c < old(cells)@.len() ==> #[trigger] cells@[c] == old(cells)@[c],
            forall|c: int| old(cells)@.len() <= c < cells@.len() ==> #[trigger] cells@[c] is None,
        decreases column + 1 - cells.len(),
    {
        cells.push(None);
    }
    cells.set(column, Some(value));
}

} // verus!
