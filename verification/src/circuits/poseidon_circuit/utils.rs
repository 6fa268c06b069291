//! The parameters of a sponge permutation and the hash that they define.

use crate::chips::poseidon_chip::{
    absorb, initial_state, lemma_rounds, mix_values, permute, rounds, sbox_values,
};
use crate::circuit::grid_values;
use crate::field::{canonical, values, Fe};
use vstd::prelude::*;

verus! {

/// The mixing matrix, row by row.
pub type Mds = Vec<Vec<Fe>>;

/// Why a set of parameters is refused.
#[derive(Clone, Copy, Debug, PartialEq, Eq, Structural)]
pub enum SpecError {
    /// The state has fewer than two elements.
    Width,
    /// A row of the mixing matrix is not as long as the state.
    Matrix,
    /// The number of full rounds is odd.
    OddFullRounds,
    /// There is not one set of round constants for each round, or no round.
    RoundCount,
    /// A set of round constants is not as long as the state.
    Constants,
    /// An element together with the pad does not fill the rate, or an element
    /// is empty.
    ChunkSize,
}

/// A specification for a sponge permutation: where its parameters come from.
/// What an implementation hands out is read once, by `Parameters::from_spec`,
/// and is used only if it fits together.
pub trait Spec {
    /// The number of full rounds for this specification.
    ///
    /// This must be an even number.
    fn full_rounds() -> usize;

    /// The number of partial rounds for this specification.
    fn partial_rounds() -> usize;

    /// The mixing matrix of this specification.
    fn mds() -> Mds;

    /// The round constants of this specification.
    fn arks() -> Vec<Vec<Fe>>;

    /// The capacity value.
    fn capacity() -> u128;

    /// What follows an element in a chunk to fill the rate.
    fn pad() -> Vec<Fe>;

    /// The number of field elements of a hash input or output.
    fn element_size() -> usize;
}

/// The parameters of a sponge permutation over a state of `mds.len()`
/// elements, of which the last is the capacity slot.
#[derive(Debug)]
pub struct Parameters {
    /// The number of full rounds. It is even.
    pub full_rounds: usize,
    /// The number of partial rounds.
    pub partial_rounds: usize,
    /// The mixing matrix.
    pub mds: Mds,
    /// The constants of each round.
    pub arks: Vec<Vec<Fe>>,
    /// The capacity value.
    pub capacity: u128,
    /// What follows an element in a chunk to fill the rate.
    pub pad: Vec<Fe>,
    /// The number of field elements of a hash input or output.
    pub element_size: usize,
}

impl Clone for Parameters {
    fn clone(&self) -> Self {
        Parameters {
            full_rounds: self.full_rounds,
            partial_rounds: self.partial_rounds,
            mds: self.mds.clone(),
            arks: self.arks.clone(),
            capacity: self.capacity,
            pad: self.pad.clone(),
            element_size: self.element_size,
        }
    }
}

/// The first reason, if any, to refuse the parameters.
pub open spec fn first_error(
    full_rounds: usize,
    partial_rounds: usize,
    mds: Seq<Vec<Fe>>,
    arks: Seq<Vec<Fe>>,
    pad: Seq<Fe>,
    element_size: usize,
) -> Option<SpecError> {
    if mds.len() < 2 {
        Some(SpecError::Width)
    } else if exists|i: int| 0 <= i < mds.len() && (#[trigger] mds[i])@.len() != mds.len() {
        Some(SpecError::Matrix)
    } else if full_rounds % 2 != 0 {
        Some(SpecError::OddFullRounds)
    } else if full_rounds + partial_rounds != arks.len() || arks.len() == 0 {
        Some(SpecError::RoundCount)
    } else if exists|r: int| 0 <= r < arks.len() && (#[trigger] arks[r])@.len() != mds.len() {
        Some(SpecError::Constants)
    } else if element_size == 0 || element_size + pad.len() != mds.len() - 1 {
        Some(SpecError::ChunkSize)
    } else {
        None
    }
}

/// The first reason, if any, to refuse the parameters.
fn find_error(
    full_rounds: usize,
    partial_rounds: usize,
    mds: &Mds,
    arks: &Vec<Vec<Fe>>,
    pad: &Vec<Fe>,
    element_size: usize,
) -> (r: Option<SpecError>)
    ensures
        r == first_error(full_rounds, partial_rounds, mds@, arks@, pad@, element_size),
{
    let width = mds.len();
    if width < 2 {
        return Some(SpecError::Width);
    }
    if !rows_are(mds, width) {
        return Some(SpecError::Matrix);
    }
    if full_rounds % 2 != 0 {
        return Some(SpecError::OddFullRounds);
    }
    if arks.len() == 0 || full_rounds > arks.len() || arks.len() - full_rounds != partial_rounds {
        return Some(SpecError::RoundCount);
    }
    if !rows_are(arks, width) {
        return Some(SpecError::Constants);
    }
    if element_size == 0 || element_size > width - 1 || width - 1 - element_size != pad.len() {
        return Some(SpecError::ChunkSize);
    }
    None
}

/// Whether every row is `width` long.
fn rows_are(grid: &Vec<Vec<Fe>>, width: usize) -> (r: bool)
    ensures
        r <==> forall|i: int| 0 <= i < grid@.len() ==> (#[trigger] grid@[i])@.len() == width,
{
    let mut i: usize = 0;
    while i < grid.len()
        invariant
            i <= grid@.len(),
            forall|k: int| 0 <= k < i ==> (#[trigger] grid@[k])@.len() == width,
        decreases grid@.len() - i,
    {
        if grid[i].len() != width {
            return false;
        }
        i = i + 1;
    }
    true
}

impl Parameters {
    /// The width of the state.
    pub open spec fn width(&self) -> int {
        self.mds@.len() as int
    }

    /// The parameters fit together.
    pub open spec fn valid(&self) -> bool {
        first_error(
            self.full_rounds,
            self.partial_rounds,
            self.mds@,
            self.arks@,
            self.pad@,
            self.element_size,
        ) is None
    }

    /// The mixing matrix as values.
    pub open spec fn mds_values(&self) -> Seq<Seq<nat>> {
        grid_values(self.mds@)
    }

    /// The round constants as values.
    pub open spec fn arc_values(&self) -> Seq<Seq<nat>> {
        grid_values(self.arks@)
    }

    /// The permutation.
    pub open spec fn permute(&self, state: Seq<nat>) -> Seq<nat> {
        permute(
            state,
            self.arc_values(),
            self.mds_values(),
            self.full_rounds as int,
            self.partial_rounds as int,
        )
    }

    /// The state that a sponge starts from.
    pub open spec fn initial_state(&self) -> Seq<nat> {
        initial_state(self.width(), self.capacity as nat)
    }

    /// The state after one element, followed by the pad, is absorbed and the
    /// state permuted.
    pub open spec fn absorb_element(&self, state: Seq<nat>, element: Seq<nat>) -> Seq<nat> {
        self.permute(absorb(state, element + values(self.pad@)))
    }

    /// The state after the input is absorbed element by element.
    pub open spec fn absorb_all(&self, state: Seq<nat>, x: Seq<nat>) -> Seq<nat>
        decreases x.len(),
    {
        let size = self.element_size as int;
        if size <= 0 || x.len() < size {
            state
        } else {
            self.absorb_all(self.absorb_element(state, x.take(size)), x.skip(size))
        }
    }

    /// The state after `k` more permutations.
    pub open spec fn squeeze(&self, state: Seq<nat>, k: int) -> Seq<nat>
        decreases k,
    {
        if k <= 0 {
            state
        } else {
            self.permute(self.squeeze(state, k - 1))
        }
    }

    /// The digest of an input: after the input is absorbed, the first element
    /// of the state, and of the state after each further permutation, one
    /// output for each field element of a hash output.
    pub open spec fn digest(&self, x: Seq<nat>) -> Seq<nat> {
        let state = self.absorb_all(self.initial_state(), x);
        Seq::new(self.element_size as nat, |k: int| self.squeeze(state, k)[0])
    }

    /// The state after two tree nodes are absorbed, the left and then the
    /// right.
    pub open spec fn pair_state(&self, left: Seq<nat>, right: Seq<nat>) -> Seq<nat> {
        self.absorb_element(self.absorb_element(self.initial_state(), left), right)
    }

    /// The hash of two tree nodes: as many of the first elements of the state
    /// as a node has.
    pub open spec fn node_hash(&self, left: Seq<nat>, right: Seq<nat>) -> Seq<nat> {
        self.pair_state(left, right).take(self.element_size as int)
    }

    /// The hash of two nodes is as long as a node, and its elements are below
    /// the order of the field.
    pub proof fn lemma_node_hash(&self, left: Seq<nat>, right: Seq<nat>)
        requires
            self.valid(),
        ensures
            self.node_hash(left, right).len() == self.element_size,
            canonical(self.node_hash(left, right)),
    {
        let first = absorb(self.initial_state(), left + values(self.pad@));
        let rounds = self.full_rounds + self.partial_rounds;
        lemma_rounds(
            first,
            rounds,
            self.arc_values(),
            self.mds_values(),
            self.full_rounds as int,
            self.partial_rounds as int,
        );
        let second = absorb(self.absorb_element(self.initial_state(), left),
            right + values(self.pad@));
        lemma_rounds(
            second,
            rounds,
            self.arc_values(),
            self.mds_values(),
            self.full_rounds as int,
            self.partial_rounds as int,
        );
        let state = self.pair_state(left, right);
        assert(state.len() == self.width());
        assert forall|j: int| 0 <= j < self.element_size implies #[trigger] self.node_hash(
            left,
            right,
        )[j] < crate::field::modulus() by {
            assert(self.node_hash(left, right)[j] == state[j]);
        }
    }

    /// The parameters that a specification hands out, if they fit together.
    pub fn from_spec<S: Spec>() -> (r: Result<Parameters, SpecError>)
        ensures
            r matches Ok(params) ==> params.valid(),
    {
        Parameters::new(
            S::full_rounds(),
            S::partial_rounds(),
            S::mds(),
            S::arks(),
            S::capacity(),
            S::pad(),
            S::element_size(),
        )
    }

    /// The parameters, if they fit together; else the first reason why they
    /// do not.
    pub fn new(
        full_rounds: usize,
        partial_rounds: usize,
        mds: Mds,
        arks: Vec<Vec<Fe>>,
        capacity: u128,
        pad: Vec<Fe>,
        element_size: usize,
    ) -> (r: Result<Parameters, SpecError>)
        ensures
            match r {
                Ok(params) => first_error(
                    full_rounds,
                    partial_rounds,
                    mds@,
                    arks@,
                    pad@,
                    element_size,
                ) is None && params.valid() && params.full_rounds == full_rounds
                    && params.partial_rounds == partial_rounds && params.mds == mds
                    && params.arks == arks && params.capacity == capacity && params.pad == pad
                    && params.element_size == element_size,
                Err(e) => first_error(full_rounds, partial_rounds, mds@, arks@, pad@, element_size)
                    == Some(e),
            },
    {
        match find_error(full_rounds, partial_rounds, &mds, &arks, &pad, element_size) {
            Some(e) => {
                return Err(e);
            },
            None => {},
        }
        Ok(Parameters { full_rounds, partial_rounds, mds, arks, capacity, pad, element_size })
    }

    /// The first reason, if any, why the parameters do not fit together.
    pub fn error(&self) -> (r: Option<SpecError>)
        ensures
            r is None <==> self.valid(),
            r == first_error(
                self.full_rounds,
                self.partial_rounds,
                self.mds@,
                self.arks@,
                self.pad@,
                self.element_size,
            ),
    {
        find_error(
            self.full_rounds,
            self.partial_rounds,
            &self.mds,
            &self.arks,
            &self.pad,
            self.element_size,
        )
    }

    /// The permutation of a state, computed outside any circuit.
    pub fn permutation(&self, state: &Vec<Fe>) -> (r: Vec<Fe>)
        requires
            self.valid(),
            state@.len() == self.width(),
        ensures
            r@.len() == self.width(),
            values(r@) == self.permute(values(state@)),
    {
        let all = self.arks.len();
        let half_rounds = self.full_rounds / 2;
        let mid = half_rounds + self.partial_rounds;
        let mut result = copy_row(state);
        let mut i: usize = 0;
        while i < all
            invariant
                i <= all,
                self.valid(),
                all == self.full_rounds + self.partial_rounds,
                half_rounds == self.full_rounds / 2,
                mid == half_rounds + self.partial_rounds,
                result@.len() == self.width(),
                values(result@) == rounds(
                    values(state@),
                    i as int,
                    self.arc_values(),
                    self.mds_values(),
                    self.full_rounds as int,
                    self.partial_rounds as int,
                ),
            decreases all - i,
        {
            let full = i < half_rounds || i >= mid;
            assert(self.arks@[i as int]@.len() == self.width());
            assert(self.arc_values()[i as int] == values(self.arks@[i as int]@));
            let temp = sbox_values(&result, &self.arks[i], full);
            assert forall|k: int| 0 <= k < self.mds@.len() implies (#[trigger] self.mds@[k])@.len()
                == temp@.len() by {}
            result = mix_values(&temp, &self.mds);
            i = i + 1;
        }
        result
    }

    /// The state that a sponge starts from.
    fn start(&self) -> (r: Vec<Fe>)
        requires
            self.valid(),
        ensures
            r@.len() == self.width(),
            values(r@) == self.initial_state(),
    {
        let rate = self.mds.len() - 1;
        let mut r: Vec<Fe> = Vec::new();
        let mut i: usize = 0;
        while i < rate
            invariant
                i <= rate,
                r@.len() == i,
                forall|j: int| 0 <= j < i ==> (#[trigger] r@[j])@ == 0,
            decreases rate - i,
        {
            r.push(Fe::zero());
            i = i + 1;
        }
        r.push(Fe::from_u128(self.capacity));
        assert(values(r@) =~= self.initial_state());
        r
    }

    /// The state with an element absorbed, followed by the pad, and permuted.
    fn absorb(&self, state: &Vec<Fe>, x: &Vec<Fe>, from: usize) -> (r: Vec<Fe>)
        requires
            self.valid(),
            state@.len() == self.width(),
            from + self.element_size <= x@.len(),
        ensures
            r@.len() == self.width(),
            values(r@) == self.absorb_element(
                values(state@),
                values(x@).skip(from as int).take(self.element_size as int),
            ),
    {
        let element = chunk(x, from, self.element_size, &self.pad);
        let mut next: Vec<Fe> = Vec::new();
        let rate = self.mds.len() - 1;
        let mut i: usize = 0;
        while i < rate
            invariant
                i <= rate,
                rate == self.width() - 1,
                state@.len() == self.width(),
                element@.len() == rate,
                next@.len() == i,
                forall|j: int|
                    0 <= j < i ==> (#[trigger] next@[j])@ == crate::field::fadd(
                        state@[j]@,
                        element@[j]@,
                    ),
            decreases rate - i,
        {
            next.push(state[i].add(&element[i]));
            i = i + 1;
        }
        next.push(state[rate]);
        assert(values(next@) =~= absorb(values(state@), values(element@)));
        self.permutation(&next)
    }

    /// The digest of an input, computed outside any circuit.
    pub fn hash(&self, x: &Vec<Fe>) -> (r: Vec<Fe>)
        requires
            self.valid(),
        ensures
            values(r@) == self.digest(values(x@)),
    {
        let size = self.element_size;
        let length = x.len();
        let ghost xs = values(x@);
        let mut state = self.start();
        let mut pos: usize = 0;
        assert(xs.skip(0) =~= xs);
        while size <= length - pos
            invariant
                pos <= length,
                length == x@.len(),
                size == self.element_size,
                xs == values(x@),
                self.valid(),
                state@.len() == self.width(),
                self.absorb_all(values(state@), xs.skip(pos as int)) == self.absorb_all(
                    self.initial_state(),
                    xs,
                ),
            decreases length - pos,
        {
            state = self.absorb(&state, x, pos);
            assert(xs.skip(pos as int).skip(size as int) =~= xs.skip(pos + size));
            pos = pos + size;
        }
        let ghost absorbed = values(state@);
        // squeeze
        let mut out: Vec<Fe> = Vec::new();
        out.push(state[0]);
        let mut k: usize = 1;
        while k < size
            invariant
                1 <= k <= size,
                size == self.element_size,
                self.valid(),
                state@.len() == self.width(),
                values(state@) == self.squeeze(absorbed, k - 1),
                out@.len() == k,
                forall|j: int| 0 <= j < k ==> (#[trigger] out@[j])@ == self.squeeze(absorbed, j)[0],
            decreases size - k,
        {
            state = self.permutation(&state);
            out.push(state[0]);
            k = k + 1;
        }
        assert(values(out@) =~= self.digest(xs));
        out
    }

    /// The hash of two tree nodes, computed outside any circuit.
    pub fn hash_pair(&self, left: &Vec<Fe>, right: &Vec<Fe>) -> (r: Vec<Fe>)
        requires
            self.valid(),
            left@.len() == self.element_size,
            right@.len() == self.element_size,
        ensures
            values(r@) == self.node_hash(values(left@), values(right@)),
    {
        let size = self.element_size;
        let state = self.start();
        let state = self.absorb(&state, left, 0);
        let state = self.absorb(&state, right, 0);
        assert(values(left@).skip(0).take(size as int) =~= values(left@));
        assert(values(right@).skip(0).take(size as int) =~= values(right@));
        let mut out: Vec<Fe> = Vec::new();
        let mut j: usize = 0;
        while j < size
            invariant
                j <= size,
                size <= state@.len(),
                out@.len() == j,
                forall|i: int| 0 <= i < j ==> #[trigger] out@[i] == state@[i],
            decreases size - j,
        {
            out.push(state[j]);
            j = j + 1;
        }
        assert(values(out@) =~= self.node_hash(values(left@), values(right@)));
        out
    }

    /// The number of full rounds.
    pub fn full_rounds(&self) -> (r: usize)
        ensures
            r == self.full_rounds,
    {
        self.full_rounds
    }

    /// The number of partial rounds.
    pub fn partial_rounds(&self) -> (r: usize)
        ensures
            r == self.partial_rounds,
    {
        self.partial_rounds
    }

    /// The mixing matrix.
    pub fn mds(&self) -> (r: Mds)
        ensures
            r@.len() == self.mds@.len(),
            forall|i: int| 0 <= i < r@.len() ==> (#[trigger] r@[i])@ == self.mds@[i]@,
    {
        copy_grid(&self.mds)
    }

    /// The constants of each round.
    pub fn arks(&self) -> (r: Vec<Vec<Fe>>)
        ensures
            r@.len() == self.arks@.len(),
            forall|i: int| 0 <= i < r@.len() ==> (#[trigger] r@[i])@ == self.arks@[i]@,
    {
        copy_grid(&self.arks)
    }

    /// The capacity value.
    pub fn capacity(&self) -> (r: u128)
        ensures
            r == self.capacity,
    {
        self.capacity
    }

    /// What follows an element in a chunk to fill the rate.
    pub fn pad(&self) -> (r: Vec<Fe>)
        ensures
            r@ == self.pad@,
    {
        copy_row(&self.pad)
    }

    /// The number of field elements of a hash input or output.
    pub fn element_size(&self) -> (r: usize)
        ensures
            r == self.element_size,
    {
        self.element_size
    }
}

/// The `size` elements of `x` from `from` on, followed by the pad.
pub fn chunk(x: &Vec<Fe>, from: usize, size: usize, pad: &Vec<Fe>) -> (r: Vec<Fe>)
    requires
        from + size <= x@.len(),
    ensures
        r@.len() == size + pad@.len(),
        values(r@) == values(x@).skip(from as int).take(size as int) + values(pad@),
{
    let n = x.len();
    let mut r: Vec<Fe> = Vec::new();
    let mut j: usize = 0;
    while j < size
        invariant
            j <= size,
            from + size <= n,
            n == x@.len(),
            r@.len() == j,
            forall|i: int| 0 <= i < j ==> #[trigger] r@[i] == x@[from + i],
        decreases size - j,
    {
        r.push(x[from + j]);
        j = j + 1;
    }
    let mut j: usize = 0;
    while j < pad.len()
        invariant
            j <= pad@.len(),
            from + size <= x@.len(),
            r@.len() == size + j,
            forall|i: int| 0 <= i < size ==> #[trigger] r@[i] == x@[from + i],
            forall|i: int| 0 <= i < j ==> #[trigger] r@[size + i] == pad@[i],
        decreases pad@.len() - j,
    {
        r.push(pad[j]);
        j = j + 1;
    }
    proof {
        let want = values(x@).skip(from as int).take(size as int) + values(pad@);
        assert(values(r@).len() == want.len());
        assert forall|i: int| 0 <= i < want.len() implies values(r@)[i] == want[i] by {
            if i < size {
                assert(r@[i] == x@[from + i]);
            } else {
                assert(r@[size + (i - size)] == pad@[i - size]);
            }
        }
        assert(values(r@) =~= want);
    }
    r
}

/// A copy of a vector of elements.
pub fn copy_row(v: &Vec<Fe>) -> (r: Vec<Fe>)
    ensures
        r@ == v@,
{
    let mut r: Vec<Fe> = Vec::new();
    let mut i: usize = 0;
    while i < v.len()
        invariant
            i <= v@.len(),
            r@ == v@.take(i as int),
        decreases v@.len() - i,
    {
        r.push(v[i]);
        assert(v@.take(i + 1) =~= v@.take(i as int).push(v@[i as int]));
        i = i + 1;
    }
    assert(v@.take(v@.len() as int) =~= v@);
    r
}

/// A copy of a vector of vectors of elements.
pub fn copy_grid(g: &Vec<Vec<Fe>>) -> (r: Vec<Vec<Fe>>)
    ensures
        r@.len() == g@.len(),
        forall|i: int| 0 <= i < r@.len() ==> (#[trigger] r@[i])@ == g@[i]@,
{
    let mut r: Vec<Vec<Fe>> = Vec::new();
    let mut i: usize = 0;
    while i < g.len()
        invariant
            i <= g@.len(),
            r@.len() == i,
            forall|k: int| 0 <= k < i ==> (#[trigger] r@[k])@ == g@[k]@,
        decreases g@.len() - i,
    {
        r.push(copy_row(&g[i]));
        i = i + 1;
    }
    r
}

} // verus!
