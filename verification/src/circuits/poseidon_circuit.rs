//! The sponge hash circuit: absorbs an input element by element and binds the
//! digest to the public inputs.

use crate::chips::poseidon_chip::{PoseidonArthConfig, PoseidonChip, PoseidonInstructions};
use crate::circuit::{
    add_rows, advice_indices, cells_tied, columns_within, distinct, fixed_indices, grid_values,
    lemma_repeated_rows, repeated_rows, Layouter,
};
use crate::circuits::poseidon_circuit::utils::{chunk, Parameters, SpecError};
use crate::field::{values, Fe};
use crate::plonk::{
    lemma_extends_refl, lemma_extends_trans, Advice, ConstraintSystem, Fixed, Table,
};
use vstd::arithmetic::div_mod::{
    lemma_basic_div, lemma_mod_sub_multiples_vanish, lemma_small_mod,
};
use vstd::prelude::*;

pub mod utils;

verus! {

/// The configuration of the circuit: that of its chip.
#[derive(Debug)]
pub struct PoseidonConfig {
    pub arth_config: PoseidonArthConfig,
}

impl Clone for PoseidonConfig {
    fn clone(&self) -> Self {
        PoseidonConfig { arth_config: self.arth_config.clone() }
    }
}

impl PoseidonConfig {
    /// The chip is configured with the parameters.
    pub open spec fn fits(&self, params: &Parameters) -> bool {
        &&& self.arth_config.wf()
        &&& self.arth_config.width() == params.width()
        &&& self.arth_config.mds_values() == params.mds_values()
        &&& self.arth_config.arc_values() == params.arc_values()
        &&& self.arth_config.capacity == params.capacity
    }
}

/// The rows that absorbing an input of `len` field elements takes: for each
/// element, three rows to add it to the state and a row for the state before
/// and after each round.
pub open spec fn absorb_rows(len: int, size: int, rounds: int) -> int
    decreases len,
{
    if size <= 0 || len < size {
        0
    } else {
        rounds + 4 + absorb_rows(len - size, size, rounds)
    }
}

/// The rows that hashing an input of `len` field elements takes.
pub open spec fn hash_rows(params: &Parameters, len: int) -> int {
    let rounds = params.full_rounds + params.partial_rounds;
    1 + absorb_rows(len, params.element_size as int, rounds) + repeated_rows(
        params.element_size - 1,
        rounds + 1,
    )
}

/// The columns that were allocated one after another differ from one another.
pub proof fn lemma_fresh_columns(advice: Seq<Advice>, fixed: Seq<Fixed>, a: int, f: int)
    requires
        0 <= a,
        0 <= f,
        forall|j: int| 0 <= j < advice.len() ==> (#[trigger] advice[j]).index == a + j,
        forall|j: int| 0 <= j < fixed.len() ==> (#[trigger] fixed[j]).index == f + j,
    ensures
        distinct(advice_indices(advice)),
        distinct(fixed_indices(fixed)),
        columns_within(advice_indices(advice), advice.len() as int, a + advice.len()),
        columns_within(fixed_indices(fixed), fixed.len() as int, f + fixed.len()),
{
    let ai = advice_indices(advice);
    assert forall|j: int, k: int| 0 <= j < ai.len() && 0 <= k < ai.len() && j != k
        implies #[trigger] ai[j]
        != #[trigger] ai[k] by {
        assert(advice[j].index == a + j);
        assert(advice[k].index == a + k);
    }
    let fi = fixed_indices(fixed);
    assert forall|j: int, k: int| 0 <= j < fi.len() && 0 <= k < fi.len() && j != k
        implies #[trigger] fi[j]
        != #[trigger] fi[k] by {
        assert(fixed[j].index == f + j);
        assert(fixed[k].index == f + k);
    }
    assert forall|j: int| 0 <= j < advice.len() implies 0 <= #[trigger] ai[j] < a
        + advice.len() by {
        assert(advice[j].index == a + j);
    }
    assert forall|j: int| 0 <= j < fixed.len() implies 0 <= #[trigger] fi[j] < f + fixed.len() by {
        assert(fixed[j].index == f + j);
    }
}

/// Why a circuit cannot be laid out.
#[derive(Clone, Copy, Debug, PartialEq, Eq, Structural)]
pub enum LayoutError {
    /// The parameters do not fit together.
    Parameters(SpecError),
    /// The input is empty or not a whole number of elements.
    Input,
    /// The table would have more rows than can be counted.
    Rows,
}

/// The circuit, with the input to hash.
#[derive(Debug)]
pub struct PoseidonCircuit {
    x: Vec<Fe>,
}

impl Clone for PoseidonCircuit {
    fn clone(&self) -> Self {
        PoseidonCircuit { x: self.x.clone() }
    }
}

impl PoseidonCircuit {
    /// The input as values.
    pub closed spec fn view(&self) -> Seq<nat> {
        values(self.x@)
    }

    /// The circuit for an input.
    pub fn new(input: Vec<Fe>) -> (r: PoseidonCircuit)
        ensures
            r@ == values(input@),
    {
        PoseidonCircuit { x: input }
    }

    /// Allocates an advice column and a fixed column for each element of the
    /// state and an instance column, and configures the chip over them with
    /// the parameters' matrix, round constants and capacity value.
    pub fn configure(meta: &mut ConstraintSystem, params: &Parameters) -> (config: PoseidonConfig)
        requires
            params.valid(),
            old(meta).num_advice + params.width() <= usize::MAX,
            old(meta).num_fixed + params.width() <= usize::MAX,
            old(meta).num_instance < usize::MAX,
        ensures
            config.fits(params),
            config.arth_config.installed(final(meta).polys()),
            config.arth_config.output.index == old(meta).num_instance,
            final(meta).num_advice == old(meta).num_advice + params.width(),
            final(meta).num_fixed == old(meta).num_fixed + params.width(),
            final(meta).num_instance == old(meta).num_instance + 1,
            forall|j: int|
                0 <= j < params.width() ==> (#[trigger] config.arth_config.state@[j]).index == old(
                    meta,
                ).num_advice + j,
            forall|j: int|
                0 <= j < params.width() ==> (#[trigger] config.arth_config.arc@[j]).index == old(
                    meta,
                ).num_fixed + j,
            final(meta).polys().len() == old(meta).polys().len() + 3,
            old(meta).polys().is_prefix_of(final(meta).polys()),
            config.arth_config.wired(final(meta).table(Seq::empty())),
    {
        let width = params.mds.len();
        let states = meta.advice_columns(width);
        let arks = meta.fixed_columns(width);
        // public column for output
        let output = meta.instance_column();
        let mds = params.mds();
        let ark_paras = params.arks();
        proof {
            lemma_fresh_columns(
                states@,
                arks@,
                old(meta).num_advice as int,
                old(meta).num_fixed as int,
            );
            assert(meta.polys() =~= old(meta).polys());
            assert forall|i: int| 0 <= i < mds@.len() implies (#[trigger] mds@[i])@.len()
                == states@.len() by {
                assert(params.mds@[i]@.len() == params.mds@.len());
            }
            assert forall|r: int| 0 <= r < ark_paras@.len()
                implies (#[trigger] ark_paras@[r])@.len()
                == states@.len() by {
                assert(params.arks@[r]@.len() == params.mds@.len());
            }
        }
        let arth_config = PoseidonChip::configure(
            meta,
            states,
            output,
            arks,
            mds,
            ark_paras,
            params.capacity(),
        );
        proof {
            assert(arth_config.mds_values() =~= params.mds_values());
            assert(arth_config.arc_values() =~= params.arc_values());
        }
        PoseidonConfig { arth_config }
    }

    /// The rows that the circuit takes, if they can be counted.
    pub fn rows(&self, params: &Parameters) -> (r: Option<usize>)
        requires
            params.valid(),
        ensures
            match r {
                Some(n) => n == hash_rows(params, self@.len() as int),
                None => hash_rows(params, self@.len() as int) > usize::MAX,
            },
    {
        let size = params.element_size;
        let rounds = params.arks.len();
        let mut total: usize = 1;
        let mut rest = self.x.len();
        proof {
            lemma_repeated_rows(0, size - 1, rounds + 1);
        }
        while rest >= size
            invariant
                rest <= self.x@.len(),
                size == params.element_size,
                size >= 1,
                rounds == params.full_rounds + params.partial_rounds,
                total + absorb_rows(rest as int, size as int, rounds as int) == 1 + absorb_rows(
                    self@.len() as int,
                    size as int,
                    rounds as int,
                ),
                repeated_rows(size - 1, rounds + 1) >= 0,
            decreases rest,
        {
            proof {
                lemma_absorb_rows(rest - size, size as int, rounds as int);
            }
            match total.checked_add(rounds) {
                Some(n) => match n.checked_add(4) {
                    Some(n) => {
                        total = n;
                    },
                    None => {
                        return None;
                    },
                },
                None => {
                    return None;
                },
            }
            rest = rest - size;
        }
        if size == 1 {
            return Some(total);
        }
        match rounds.checked_add(1) {
            Some(per) => add_rows(total, per, size - 1),
            None => {
                proof {
                    lemma_repeated_rows(0, size - 2, rounds + 1);
                }
                None
            },
        }
    }

    /// Lays the circuit out on a new table for the parameters and the public
    /// inputs, if the parameters fit together, the input is a whole number of
    /// elements and not empty, and the rows can be counted. The table is
    /// satisfied exactly when the first public inputs are the digest of the
    /// input.
    pub fn assemble(&self, params: &Parameters, public: Vec<Fe>) -> (r: Result<
        Layouter,
        LayoutError,
    >)
        ensures
            match r {
                Ok(table) => {
                    &&& params.valid()
                    &&& table@.supported()
                    &&& table@.instance == seq![values(public@)]
                    &&& table@.rows == hash_rows(params, self@.len() as int)
                    &&& table@.satisfied() <==> table@.public_values(
                        0,
                        0,
                        params.element_size as int,
                    ) == params.digest(self@)
                },
                Err(LayoutError::Parameters(e)) => first_error_of(params) == Some(e),
                Err(LayoutError::Input) => params.valid() && (self@.len() % (
                params.element_size as nat) != 0 || self@.len() / (params.element_size as nat)
                    == 0),
                Err(LayoutError::Rows) => params.valid() && hash_rows(params, self@.len() as int)
                    >= usize::MAX,
            },
    {
        match params.error() {
            Some(e) => {
                return Err(LayoutError::Parameters(e));
            },
            None => {},
        }
        let size = params.element_size;
        let length = self.x.len();
        if length % size != 0 || length / size == 0 {
            return Err(LayoutError::Input);
        }
        match self.rows(params) {
            Some(n) => {
                if n == usize::MAX {
                    return Err(LayoutError::Rows);
                }
            },
            None => {
                return Err(LayoutError::Rows);
            },
        }
        let width = params.mds.len();
        let mut cs = ConstraintSystem::new();
        assert(cs.num_advice + width <= usize::MAX);
        let config = Self::configure(&mut cs, params);
        let ghost out = config.arth_config.output.index as int;
        let mut instance: Vec<Vec<Fe>> = Vec::new();
        instance.push(public);
        let ghost shape = cs.table(Seq::empty());
        let mut table = Layouter::new(cs, instance);
        proof {
            assert(grid_values(instance@) =~= seq![values(public@)]);
            assert(table@.satisfied());
            lemma_extends_refl(table@);
            config.arth_config.lemma_shape(shape, table@);
        }
        let ghost empty = table@;
        self.synthesize(params, config, &mut table);
        proof {
            assert(table@.instance == empty.instance);
            assert(table@.public_values(0, 0, size as int) =~= empty.public_values(
                out,
                0,
                size as int,
            ));
        }
        Ok(table)
    }

    /// Lays out the hash of the input: the initial state, then for each
    /// element of the input the element absorbed with the pad and the state
    /// permuted, then the first element of the state bound to a public input,
    /// as often as a digest has field elements, with a permutation before each
    /// but the first. The table stays satisfied exactly when the first public
    /// inputs are the digest.
    pub fn synthesize(&self, params: &Parameters, config: PoseidonConfig, layouter: &mut Layouter)
        requires
            params.valid(),
            config.fits(params),
            config.arth_config.installed(old(layouter)@.gates),
            self@.len() % (params.element_size as nat) == 0,
            self@.len() / (params.element_size as nat) > 0,
            old(layouter)@.rows + hash_rows(params, self@.len() as int) < usize::MAX,
        ensures
            final(layouter)@.extends(old(layouter)@),
            final(layouter)@.rows == old(layouter)@.rows + hash_rows(params, self@.len() as int),
            old(layouter)@.satisfied() ==> (final(layouter)@.satisfied() <==> old(
                layouter,
            )@.public_values(
                config.arth_config.output.index as int,
                0,
                params.element_size as int,
            ) == params.digest(self@)),
            forall|t: Table| #[trigger]
                t.extends(final(layouter)@) && t.satisfied() ==> old(layouter)@.public_values(
                    config.arth_config.output.index as int,
                    0,
                    params.element_size as int,
                ) == params.digest(self@),
            old(layouter)@.public_values(
                config.arth_config.output.index as int,
                0,
                params.element_size as int,
            ) != params.digest(self@) ==> !final(layouter)@.satisfied(),
            old(layouter)@.supported() && config.arth_config.wired(old(layouter)@)
                ==> final(layouter)@.supported(),
    {
        let size = params.element_size;
        let chip = PoseidonChip::new(config.arth_config);
        let length = self.x.len();
        let fr = params.full_rounds;
        let pr = params.partial_rounds;
        let ghost t0 = layouter@;
        let ghost rounds = fr + pr;
        let ghost x = self@;
        let ghost out = chip@.output.index as int;
        proof {
            if length < size {
                lemma_small_mod(length as nat, size as nat);
                lemma_basic_div(length as int, size as int);
            }
            lemma_absorb_rows(length as int, size as int, rounds as int);
            lemma_repeated_rows(0, size - 1, rounds + 1);
        }
        let mut state = chip.initiate(layouter);
        proof {
            if chip@.wired(t0) {
                chip@.lemma_wired(t0, layouter@, state, t0.rows as int);
            }
            assert(x.skip(0) =~= x);
            assert(chip@.arc_values().len() == chip@.arc_paras@.len());
            assert(params.arc_values().len() == params.arks@.len());
        }

        // chunks and pad
        let mut pos: usize = 0;
        while pos < length
            invariant
                pos <= length,
                length == self.x@.len(),
                x == self@,
                size == params.element_size,
                fr == params.full_rounds,
                pr == params.partial_rounds,
                rounds == fr + pr,
                rounds == chip@.arc_paras@.len(),
                params.valid(),
                chip@.wf(),
                chip@.width() == params.width(),
                chip@.mds_values() == params.mds_values(),
                chip@.arc_values() == params.arc_values(),
                chip@.installed(t0.gates),
                (length - pos) % (size as int) == 0,
                t0 == old(layouter)@,
                layouter@.extends(t0),
                t0.satisfied() ==> layouter@.satisfied(),
                t0.supported() && chip@.wired(t0) ==> layouter@.supported(),
                chip@.wired(t0) ==> cells_tied(layouter@, state.cells()),
                layouter@.rows + absorb_rows(length - pos, size as int, rounds) + repeated_rows(
                    size - 1,
                    rounds + 1,
                ) == t0.rows + hash_rows(params, length as int),
                t0.rows + hash_rows(params, length as int) < usize::MAX,
                repeated_rows(size - 1, rounds + 1) >= 0,
                state.0@.len() == chip@.width(),
                state.held_by(layouter@),
                params.absorb_all(state@, x.skip(pos as int)) == params.absorb_all(
                    params.initial_state(),
                    x,
                ),
            decreases length - pos,
        {
            let ghost before = layouter@;
            let ghost rest = x.skip(pos as int);
            proof {
                let d = length - pos;
                if d < size {
                    lemma_small_mod(d as nat, size as nat);
                }
                lemma_mod_sub_multiples_vanish(d as int, size as int);
                lemma_absorb_rows(d - size, size as int, rounds as int);
            }
            proof {
                if chip@.wired(t0) {
                    chip@.lemma_wired(t0, before, state, 0);
                }
            }
            let padded = chunk(&self.x, pos, size, &params.pad);
            let (absorbed, _) = chip.load_inputs(layouter, state, &padded);
            let ghost mid = layouter@;
            proof {
                lemma_extends_trans(t0, before, mid);
                if chip@.wired(t0) {
                    chip@.lemma_wired(t0, mid, absorbed, (before.rows + 2) as int);
                }
            }
            state = chip.permutation(layouter, absorbed, fr, pr);
            proof {
                lemma_extends_trans(before, mid, layouter@);
                lemma_extends_trans(t0, before, layouter@);
                if chip@.wired(t0) {
                    chip@.lemma_wired(t0, layouter@, state, (mid.rows + rounds) as int);
                }
                assert(rest.take(size as int) == x.skip(pos as int).take(size as int));
                assert(rest.skip(size as int) =~= x.skip(pos + size));
            }
            pos = pos + size;
        }
        proof {
            assert(x.skip(pos as int).len() == 0);
        }

        // squeeze
        let ghost absorbed = state@;
        let ghost digest = params.digest(x);
        let ghost public = t0.public_values(out, 0, size as int);
        let mut k: usize = 0;
        let ghost loaded = layouter@;
        proof {
            if chip@.wired(t0) {
                chip@.lemma_wired(t0, loaded, state, 0);
            }
        }
        let bound = state.duplicate();
        proof {
            assert(bound.cells() =~= state.cells());
        }
        chip.expose_public(layouter, bound, 0);
        proof {
            let now = layouter@;
            lemma_extends_refl(now);
            lemma_extends_trans(t0, loaded, now);
            if chip@.wired(t0) {
                chip@.lemma_wired(loaded, now, state, 0);
                crate::circuit::lemma_take_extend(loaded, now, chip@.state_columns(), 0);
            }
            assert(loaded.instance == t0.instance);
            assert(digest[0] == params.squeeze(absorbed, 0)[0]);
            assert(public[0] == t0.instance_at(out, 0));
        }
        while k + 1 < size
            invariant
                k < size,
                size == params.element_size,
                fr == params.full_rounds,
                pr == params.partial_rounds,
                rounds == fr + pr,
                rounds == chip@.arc_paras@.len(),
                params.valid(),
                chip@.wf(),
                chip@.width() == params.width(),
                chip@.mds_values() == params.mds_values(),
                chip@.arc_values() == params.arc_values(),
                chip@.installed(t0.gates),
                out == chip@.output.index,
                t0 == old(layouter)@,
                layouter@.extends(t0),
                t0.supported() && chip@.wired(t0) ==> layouter@.supported(),
                chip@.wired(t0) ==> cells_tied(layouter@, state.cells()),
                digest == params.digest(x),
                public == t0.public_values(out, 0, size as int),
                absorbed == params.absorb_all(params.initial_state(), x),
                t0.satisfied() ==> (layouter@.satisfied() <==> forall|j: int|
                    0 <= j <= k ==> #[trigger] public[j] == digest[j]),
                forall|t: Table| #[trigger]
                    t.extends(layouter@) && t.satisfied() ==> forall|j: int|
                        0 <= j <= k ==> #[trigger] public[j] == digest[j],
                layouter@.rows + repeated_rows(size - 1 - k, rounds + 1) == t0.rows + hash_rows(
                    params,
                    self@.len() as int,
                ),
                t0.rows + hash_rows(params, self@.len() as int) < usize::MAX,
                state.0@.len() == chip@.width(),
                state.held_by(layouter@),
                state@ == params.squeeze(absorbed, k as int),
            decreases size - k,
        {
            let ghost before = layouter@;
            proof {
                lemma_repeated_rows(0, size - 2 - k, rounds + 1);
            }
            proof {
                if chip@.wired(t0) {
                    chip@.lemma_wired(t0, before, state, 0);
                }
            }
            state = chip.permutation(layouter, state, fr, pr);
            let ghost mid = layouter@;
            k = k + 1;
            proof {
                lemma_extends_trans(t0, before, mid);
                if chip@.wired(t0) {
                    chip@.lemma_wired(t0, mid, state, (before.rows + rounds) as int);
                }
            }
            let bound = state.duplicate();
            proof {
                assert(bound.cells() =~= state.cells());
            }
            chip.expose_public(layouter, bound, k);
            proof {
                let now = layouter@;
                lemma_extends_trans(before, mid, now);
                lemma_extends_trans(t0, before, now);
                lemma_extends_refl(now);
                if chip@.wired(t0) {
                    crate::circuit::lemma_take_extend(mid, now, chip@.state_columns(), 0);
                }
                assert(digest[k as int] == params.squeeze(absorbed, k as int)[0]);
                assert(public[k as int] == t0.instance_at(out, k as int));
                assert(mid.instance == t0.instance);
                assert forall|t: Table| #[trigger] t.extends(now) && t.satisfied() implies forall|
                    j: int,
                |
                    0 <= j <= k ==> #[trigger] public[j] == digest[j] by {
                    lemma_extends_trans(before, now, t);
                }
            }
        }
        proof {
            assert forall|t: Table| #[trigger] t.extends(layouter@) && t.satisfied() implies public
                == digest by {
                assert(public =~= digest);
            }
            lemma_extends_refl(layouter@);
            if t0.satisfied() {
                if public == digest {
                    assert(layouter@.satisfied());
                }
                if layouter@.satisfied() {
                    assert(public =~= digest);
                }
            }
        }
    }
}

/// The first reason, if any, why parameters do not fit together.
pub open spec fn first_error_of(params: &Parameters) -> Option<SpecError> {
    crate::circuits::poseidon_circuit::utils::first_error(
        params.full_rounds,
        params.partial_rounds,
        params.mds@,
        params.arks@,
        params.pad@,
        params.element_size,
    )
}

/// The rows that absorbing takes are not negative; an input of at least one
/// element takes at least the rows of a permutation and four more.
pub proof fn lemma_absorb_rows(len: int, size: int, rounds: int)
    requires
        rounds >= 0,
    ensures
        absorb_rows(len, size, rounds) >= 0,
        size >= 1 && len >= size ==> absorb_rows(len, size, rounds) >= rounds + 4,
    decreases len,
{
    if size > 0 && len >= size {
        lemma_absorb_rows(len - size, size, rounds);
    }
}

} // verus!
