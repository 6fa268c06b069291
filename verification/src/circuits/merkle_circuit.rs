//! The Merkle path circuit: hashes each level of a path with the sponge chip
//! and hands the nodes and hashes to the Merkle path chip, which checks their
//! placement and binds the chosen leaf and the root to the public inputs.

use crate::chips::merkle_chip::{
    is_bit, leaf_relation, lemma_leaf_meaning, lemma_level_meaning, node_values, nodes_tied,
    path_level, path_relation, side_node, MerklePathChip, MerklePathConfig,
    MerklePathInstruction,
};
use crate::chips::poseidon_chip::{Data, PoseidonArthConfig, PoseidonChip, PoseidonInstructions};
use crate::circuit::{
    add_rows, advice_indices, cell_values, cells_tied, grid_values, lemma_repeated_rows,
    lemma_take_extend, repeated_rows, AssignedCell, Layouter,
};
use crate::circuits::poseidon_circuit::utils::{chunk, Parameters, SpecError};
use crate::circuits::poseidon_circuit::{first_error_of, lemma_fresh_columns};
use crate::field::{canonical, values, Fe};
use crate::plonk::{
    lemma_extends_refl, lemma_extends_trans, Column, ConstraintSystem, Expression, Table,
};
use vstd::prelude::*;

verus! {

/// The configuration of the circuit: those of its two chips.
#[derive(Debug)]
pub struct MerkleConfig {
    pub merkle_config: MerklePathConfig,
    pub poseidon_config: PoseidonArthConfig,
}

impl Clone for MerkleConfig {
    fn clone(&self) -> Self {
        MerkleConfig {
            merkle_config: self.merkle_config.clone(),
            poseidon_config: self.poseidon_config.clone(),
        }
    }
}

impl MerkleConfig {
    /// The chips are configured with the parameters, over one instance
    /// column.
    pub open spec fn fits(&self, params: &Parameters) -> bool {
        &&& self.merkle_config.wf()
        &&& self.merkle_config.size() == params.element_size
        &&& self.merkle_config.public == self.poseidon_config.output
        &&& self.poseidon_config.wf()
        &&& self.poseidon_config.width() == params.width()
        &&& self.poseidon_config.mds_values() == params.mds_values()
        &&& self.poseidon_config.arc_values() == params.arc_values()
        &&& self.poseidon_config.capacity == params.capacity
    }

    /// The table has the columns of both chips.
    pub open spec fn wired(&self, t: Table) -> bool {
        &&& self.merkle_config.wired(t)
        &&& self.poseidon_config.wired(t)
    }

    /// The gates of both chips are in place.
    pub open spec fn installed(&self, gates: Seq<Seq<Expression>>) -> bool {
        &&& self.merkle_config.installed(gates)
        &&& self.poseidon_config.installed(gates)
    }
}

/// The levels of a path up to level `m`: past the last level that is given,
/// that level again.
pub open spec fn padded(levels: Seq<Seq<nat>>, m: int) -> Seq<Seq<nat>> {
    Seq::new(
        (m + 1) as nat,
        |i: int|
            if i < levels.len() - 1 {
                levels[i]
            } else {
                levels[levels.len() - 1]
            },
    )
}

/// The hash of the two nodes of each level below level `m`.
pub open spec fn hashes(
    params: &Parameters,
    left: Seq<Seq<nat>>,
    right: Seq<Seq<nat>>,
    m: int,
) -> Seq<Seq<nat>> {
    Seq::new(m as nat, |i: int| params.node_hash(left[i], right[i]))
}

/// The copy flags of a path of `n` levels laid out up to level `m`: clear on
/// the levels that are hashed, set from level `n` on.
pub open spec fn copy_flags(n: int, m: int) -> Seq<nat> {
    Seq::new(
        (m + 1) as nat,
        |i: int|
            if i < n {
                0nat
            } else {
                1nat
            },
    )
}

/// The rows that hashing the two nodes of a level takes: the initial state,
/// and for each node three rows to absorb it and a row for the state before
/// and after each round.
pub open spec fn pair_rows(params: &Parameters) -> int {
    2 * (params.full_rounds + params.partial_rounds) + 9
}

/// The rows that a path laid out up to level `m` takes.
pub open spec fn path_rows(params: &Parameters, m: int) -> int {
    repeated_rows(m + 1, pair_rows(params)) + 3 * m + 6
}

/// What the circuit asks of a path and the public inputs: the public leaf is
/// the leaf that the first public index points to, every level is in the
/// relation of the placement gate with the level above it, and the public root
/// is the left node of the top level. The public inputs are the leaf, the
/// index flags of levels 0 to `m - 1` and the root.
pub open spec fn statement(
    params: &Parameters,
    left: Seq<Seq<nat>>,
    right: Seq<Seq<nat>>,
    m: int,
    public: Seq<nat>,
) -> bool {
    let size = params.element_size as int;
    let lv = padded(left, m);
    let rv = padded(right, m);
    &&& leaf_relation(public[size], lv[0], rv[0], public.subrange(0, size))
    &&& path_relation(
        lv,
        rv,
        hashes(params, lv, rv, m),
        copy_flags(left.len() - 1, m),
        public.subrange(size, size + m),
        m,
    )
    &&& lv[m] == public.subrange(size + m, size + m + size)
}

/// A path of the right shape: the nodes are as long as a hash and their
/// elements are below the order of the field, the path is not longer than `m`,
/// and there are `m` index flags, each a bit.
pub open spec fn shaped_path(
    params: &Parameters,
    left: Seq<Seq<nat>>,
    right: Seq<Seq<nat>>,
    index: Seq<nat>,
    m: int,
) -> bool {
    let n = left.len() - 1;
    &&& params.valid()
    &&& 1 <= left.len() == right.len()
    &&& n <= m
    &&& 1 <= m
    &&& index.len() == m
    &&& forall|i: int| 0 <= i < m ==> is_bit(#[trigger] index[i])
    &&& forall|i: int|
        0 <= i <= n ==> (#[trigger] left[i]).len() == params.element_size && canonical(left[i])
    &&& forall|i: int|
        0 <= i <= n ==> (#[trigger] right[i]).len() == params.element_size && canonical(right[i])
}

/// A path as the plain construction of a tree gives it, with the sides that
/// the index bits tell: it has the right shape, and the hash of each real
/// level is the node of the level above it that the index bit of that level
/// points to; the hash of level `m - 1`, if it is real, is the left node of
/// level `m`.
pub open spec fn valid_path(
    params: &Parameters,
    left: Seq<Seq<nat>>,
    right: Seq<Seq<nat>>,
    index: Seq<nat>,
    m: int,
) -> bool {
    &&& shaped_path(params, left, right, index, m)
    &&& forall|i: int|
        0 <= i < left.len() - 1 ==> #[trigger] params.node_hash(left[i], right[i]) == side_node(
            if i + 1 < m {
                index[i + 1]
            } else {
                0
            },
            left[i + 1],
            right[i + 1],
        )
}

/// The public inputs of a path: the leaf that the first index bit points to,
/// the index bits, and the root.
pub open spec fn public_inputs(left: Seq<Seq<nat>>, right: Seq<Seq<nat>>, index: Seq<nat>) -> Seq<
    nat,
> {
    side_node(index[0], left[0], right[0]) + index + left[left.len() - 1]
}

/// A path of any real length up to `m`, with any index bits, is accepted with
/// its own leaf and root for public inputs: the path and those public inputs
/// are in `statement`.
pub proof fn lemma_round_trip(
    params: &Parameters,
    left: Seq<Seq<nat>>,
    right: Seq<Seq<nat>>,
    index: Seq<nat>,
    m: int,
)
    requires
        valid_path(params, left, right, index, m),
    ensures
        statement(params, left, right, m, public_inputs(left, right, index)),
{
    let n = left.len() - 1;
    let size = params.element_size as int;
    let public = public_inputs(left, right, index);
    let lv = padded(left, m);
    let rv = padded(right, m);
    let hv = hashes(params, lv, rv, m);
    let cf = copy_flags(n, m);
    let leaf = side_node(index[0], left[0], right[0]);
    assert(left[0].len() == size && right[0].len() == size);
    assert(left[n].len() == size);
    assert(public.subrange(0, size) =~= leaf);
    assert(public.subrange(size, size + m) =~= index);
    assert(public.subrange(size + m, size + m + size) =~= left[n]);
    assert(public[size] == index[0]);
    assert(lv[0] == left[0]);
    assert(rv[0] == right[0]);
    lemma_leaf_meaning(index[0], left[0], right[0], leaf);
    assert forall|k: int| 0 <= k < m implies #[trigger] path_level(lv, rv, hv, cf, index, m, k) by {
        let x = if k + 1 < m {
            index[k + 1]
        } else {
            0
        };
        let next = if k + 1 < m {
            cf[k + 1]
        } else {
            1
        };
        let above = if k + 1 < m {
            rv[k + 1]
        } else {
            lv[m]
        };
        let a = if k < n {
            k
        } else {
            n
        };
        let b = if k + 1 < n {
            k + 1
        } else {
            n
        };
        assert(lv[k] == left[a] && rv[k] == right[a]);
        assert(lv[k + 1] == left[b]);
        assert(k + 1 < m ==> rv[k + 1] == right[b]);
        assert(lv[m] == left[n]);
        assert(left[a].len() == size && canonical(left[a]));
        assert(right[a].len() == size && canonical(right[a]));
        assert(left[b].len() == size && canonical(left[b]));
        assert(right[b].len() == size && canonical(right[b]));
        assert(left[n].len() == size && canonical(left[n]));
        params.lemma_node_hash(lv[k], rv[k]);
        assert(hv[k] == params.node_hash(lv[k], rv[k]));
        if k < n {
            assert(params.node_hash(left[k], right[k]) == side_node(x, left[k + 1], right[k + 1]));
        }
        lemma_level_meaning(cf[k], next, x, lv[k], rv[k], hv[k], lv[k + 1], above);
    }
}

/// With index flags that are bits, what is accepted is a path as the plain
/// construction gives it, with its own leaf and root: a path of the right
/// shape that is in `statement` with a public leaf, the index flags and a
/// public root is a valid path, the public leaf is the leaf that the first
/// index bit points to, and the public root is the left node of the last
/// level.
pub proof fn lemma_accepted_path(
    params: &Parameters,
    left: Seq<Seq<nat>>,
    right: Seq<Seq<nat>>,
    index: Seq<nat>,
    m: int,
    leaf: Seq<nat>,
    root: Seq<nat>,
)
    requires
        shaped_path(params, left, right, index, m),
        leaf.len() == params.element_size,
        root.len() == params.element_size,
        canonical(leaf),
        statement(params, left, right, m, leaf + index + root),
    ensures
        valid_path(params, left, right, index, m),
        leaf == side_node(index[0], left[0], right[0]),
        root == left[left.len() - 1],
{
    let n = left.len() - 1;
    let size = params.element_size as int;
    let public = leaf + index + root;
    let lv = padded(left, m);
    let rv = padded(right, m);
    let hv = hashes(params, lv, rv, m);
    let cf = copy_flags(n, m);
    assert(left[0].len() == size && right[0].len() == size);
    assert(public.subrange(0, size) =~= leaf);
    assert(public.subrange(size, size + m) =~= index);
    assert(public.subrange(size + m, size + m + size) =~= root);
    assert(public[size] == index[0]);
    assert(lv[0] == left[0]);
    assert(rv[0] == right[0]);
    assert(lv[m] == left[n]);
    lemma_leaf_meaning(index[0], left[0], right[0], leaf);
    assert forall|k: int| 0 <= k < n implies #[trigger] params.node_hash(left[k], right[k])
        == side_node(
        if k + 1 < m {
            index[k + 1]
        } else {
            0
        },
        left[k + 1],
        right[k + 1],
    ) by {
        let x = if k + 1 < m {
            index[k + 1]
        } else {
            0
        };
        let next = if k + 1 < m {
            cf[k + 1]
        } else {
            1
        };
        let above = if k + 1 < m {
            rv[k + 1]
        } else {
            lv[m]
        };
        assert(path_level(lv, rv, hv, cf, index, m, k));
        assert(lv[k] == left[k] && rv[k] == right[k]);
        assert(lv[k + 1] == left[k + 1]);
        assert(k + 1 < m ==> rv[k + 1] == right[k + 1]);
        assert(left[k].len() == size && canonical(left[k]));
        assert(right[k].len() == size && canonical(right[k]));
        assert(left[k + 1].len() == size && canonical(left[k + 1]));
        assert(right[k + 1].len() == size && canonical(right[k + 1]));
        assert(left[n].len() == size && canonical(left[n]));
        params.lemma_node_hash(lv[k], rv[k]);
        assert(hv[k] == params.node_hash(lv[k], rv[k]));
        lemma_level_meaning(cf[k], next, x, lv[k], rv[k], hv[k], lv[k + 1], above);
    }
}

/// Where the first public index is a bit, a path that is in `statement` with
/// public inputs has for public leaf the leaf that the index points to, and
/// for public root the left node of its last level.
pub proof fn lemma_statement_binds(
    params: &Parameters,
    left: Seq<Seq<nat>>,
    right: Seq<Seq<nat>>,
    m: int,
    public: Seq<nat>,
)
    requires
        1 <= left.len() == right.len(),
        left.len() - 1 <= m,
        left[0].len() == params.element_size,
        right[0].len() == params.element_size,
        public.len() == m + 2 * params.element_size,
        canonical(left[0]),
        canonical(right[0]),
        canonical(public),
        is_bit(public[params.element_size as int]),
        statement(params, left, right, m, public),
    ensures
        public.subrange(0, params.element_size as int) == side_node(
            public[params.element_size as int],
            left[0],
            right[0],
        ),
        public.subrange(
            params.element_size + m,
            params.element_size + m + params.element_size,
        ) == left[left.len() - 1],
{
    let size = params.element_size as int;
    let lv = padded(left, m);
    let rv = padded(right, m);
    assert(lv[0] == left[0]);
    assert(rv[0] == right[0]);
    assert(lv[m] == left[left.len() - 1]);
    lemma_leaf_meaning(public[size], left[0], right[0], public.subrange(0, size));
}

/// Why a path cannot be laid out.
#[derive(Clone, Copy, Debug, PartialEq, Eq, Structural)]
pub enum PathError {
    /// The parameters do not fit together.
    Parameters(SpecError),
    /// There is no level, or not as many left nodes as right nodes.
    Levels,
    /// The path is longer than the depth to lay it out to, or that depth is
    /// zero.
    Depth,
    /// A node is not as long as a hash.
    Node,
    /// The table would have more rows, columns or public inputs than can be
    /// counted.
    Rows,
}

/// The rows, columns and public inputs of a path laid out up to level `m` can
/// be counted.
pub open spec fn countable(params: &Parameters, m: int) -> bool {
    &&& path_rows(params, m) < usize::MAX
    &&& m + 2 * params.element_size <= usize::MAX
    &&& 2 * params.width() + 4 <= usize::MAX
}

/// Every node is `size` long.
pub open spec fn nodes_are(nodes: Seq<Seq<nat>>, size: int) -> bool {
    forall|i: int| 0 <= i < nodes.len() ==> (#[trigger] nodes[i]).len() == size
}

/// The cells of the table hold the nodes' values.
pub open spec fn nodes_held(nodes: Seq<Vec<AssignedCell>>, t: Table, size: int) -> bool {
    &&& forall|i: int| 0 <= i < nodes.len() ==> (#[trigger] nodes[i]@).len() == size
    &&& forall|i: int, j: int|
        0 <= i < nodes.len() && 0 <= j < size ==> (#[trigger] nodes[i]@[j]).held_by(t)
}

/// Nodes that a table holds, every table that extends it holds.
pub proof fn lemma_nodes_held_extends(
    nodes: Seq<Vec<AssignedCell>>,
    old: Table,
    new: Table,
    size: int,
)
    requires
        new.extends(old),
        nodes_held(nodes, old, size),
    ensures
        nodes_held(nodes, new, size),
{
    assert forall|i: int, j: int| 0 <= i < nodes.len() && 0 <= j < size implies (
    #[trigger] nodes[i]@[j]).held_by(new) by {
        assert(nodes[i]@[j].held_by(old));
        assert(old.advice.contains_key(nodes[i]@[j].key()));
    }
}

/// Nodes whose cells are tied on a table are tied on every table that extends
/// it.
pub proof fn lemma_nodes_tied_extends(nodes: Seq<Vec<AssignedCell>>, old: Table, new: Table)
    requires
        new.extends(old),
        nodes_tied(old, nodes),
    ensures
        nodes_tied(new, nodes),
{
    lemma_take_extend(old, new, Seq::empty(), 0);
    assert forall|i: int| 0 <= i < nodes.len() implies cells_tied(new, (#[trigger] nodes[i])@) by {
        assert(cells_tied(old, nodes[i]@));
    }
}

/// The first `n` cells.
fn first_cells(data: &Vec<Data>, n: usize) -> (r: Vec<AssignedCell>)
    requires
        n <= data@.len(),
    ensures
        r@.len() == n,
        forall|j: int| 0 <= j < n ==> #[trigger] r@[j] == data@[j].0,
{
    let mut r: Vec<AssignedCell> = Vec::new();
    let mut j: usize = 0;
    while j < n
        invariant
            j <= n,
            n <= data@.len(),
            r@.len() == j,
            forall|i: int| 0 <= i < j ==> #[trigger] r@[i] == data@[i].0,
        decreases n - j,
    {
        r.push(data[j].0);
        j = j + 1;
    }
    r
}

/// A copy of the cells.
fn copy_cells(cells: &Vec<AssignedCell>) -> (r: Vec<AssignedCell>)
    ensures
        r@ == cells@,
{
    let mut r: Vec<AssignedCell> = Vec::new();
    let mut j: usize = 0;
    while j < cells.len()
        invariant
            j <= cells@.len(),
            r@ == cells@.take(j as int),
        decreases cells@.len() - j,
    {
        r.push(cells[j]);
        assert(cells@.take(j + 1) =~= cells@.take(j as int).push(cells@[j as int]));
        j = j + 1;
    }
    assert(cells@.take(cells@.len() as int) =~= cells@);
    r
}

/// The circuit, with the two nodes of each level of the path: the leaves
/// first, the root, on both sides, last.
#[derive(Debug)]
pub struct MerklePathCircuit {
    left: Vec<Vec<Fe>>,
    right: Vec<Vec<Fe>>,
}

impl Clone for MerklePathCircuit {
    fn clone(&self) -> Self {
        MerklePathCircuit { left: self.left.clone(), right: self.right.clone() }
    }
}

impl MerklePathCircuit {
    /// The left nodes as values.
    pub closed spec fn left(&self) -> Seq<Seq<nat>> {
        grid_values(self.left@)
    }

    /// The right nodes as values.
    pub closed spec fn right(&self) -> Seq<Seq<nat>> {
        grid_values(self.right@)
    }

    /// The circuit for the real path: the leaves, the nodes of each level
    /// above them, and the root on both sides.
    pub fn new(left: Vec<Vec<Fe>>, right: Vec<Vec<Fe>>) -> (r: MerklePathCircuit)
        requires
            left@.len() == right@.len(),
        ensures
            r.left() == grid_values(left@),
            r.right() == grid_values(right@),
    {
        MerklePathCircuit { left, right }
    }

    /// The rows that a path laid out up to level `m` takes, if they can be
    /// counted.
    pub fn rows(params: &Parameters, m: usize) -> (r: Option<usize>)
        requires
            params.valid(),
        ensures
            match r {
                Some(n) => n == path_rows(params, m as int),
                None => path_rows(params, m as int) > usize::MAX,
            },
    {
        let rounds = params.arks.len();
        proof {
            lemma_repeated_rows(0, m as int, pair_rows(params));
            lemma_repeated_rows(0, m + 1, pair_rows(params));
        }
        let per = match rounds.checked_add(rounds) {
            Some(twice) => match twice.checked_add(9) {
                Some(per) => per,
                None => {
                    return None;
                },
            },
            None => {
                return None;
            },
        };
        let levels = match m.checked_add(1) {
            Some(k) => match add_rows(0, per, k) {
                Some(n) => n,
                None => {
                    return None;
                },
            },
            None => {
                return None;
            },
        };
        let thrice = match m.checked_add(m) {
            Some(twice) => match twice.checked_add(m) {
                Some(n) => n,
                None => {
                    return None;
                },
            },
            None => {
                return None;
            },
        };
        match levels.checked_add(thrice) {
            Some(n) => n.checked_add(6),
            None => None,
        }
    }

    /// Whether every node is `size` long.
    fn nodes_are(nodes: &Vec<Vec<Fe>>, size: usize) -> (r: bool)
        ensures
            r == nodes_are(grid_values(nodes@), size as int),
    {
        let mut i: usize = 0;
        while i < nodes.len()
            invariant
                i <= nodes@.len(),
                forall|k: int| 0 <= k < i ==> (#[trigger] grid_values(nodes@)[k]).len() == size,
            decreases nodes@.len() - i,
        {
            if nodes[i].len() != size {
                assert(grid_values(nodes@)[i as int].len() != size);
                return false;
            }
            assert(grid_values(nodes@)[i as int].len() == size);
            i = i + 1;
        }
        true
    }

    /// Lays the path out up to level `m` on a new table for the parameters
    /// and the public inputs, if the parameters fit together, the path has as
    /// many left nodes as right nodes and at least one level, it is not longer
    /// than `m` and `m` is not zero, every node is as long as a hash, and the
    /// rows can be counted. The table is satisfied exactly when the path and
    /// the public inputs are in `statement`.
    pub fn assemble(&self, params: &Parameters, m: usize, public: Vec<Fe>) -> (r: Result<
        Layouter,
        PathError,
    >)
        ensures
            match r {
                Ok(table) => {
                    &&& params.valid()
                    &&& table@.supported()
                    &&& countable(params, m as int)
                    &&& table@.instance == seq![values(public@)]
                    &&& table@.rows == path_rows(params, m as int)
                    &&& table@.satisfied() <==> statement(
                        params,
                        self.left(),
                        self.right(),
                        m as int,
                        table@.public_values(0, 0, m + 2 * params.element_size),
                    )
                },
                Err(PathError::Parameters(e)) => first_error_of(params) == Some(e),
                Err(PathError::Levels) => params.valid() && !(1 <= self.left().len()
                    == self.right().len()),
                Err(PathError::Depth) => params.valid() && 1 <= self.left().len()
                    == self.right().len() && !(self.left().len() - 1 <= m && 1 <= m),
                Err(PathError::Node) => params.valid() && 1 <= self.left().len()
                    == self.right().len() && self.left().len() - 1 <= m && 1 <= m && !(nodes_are(
                    self.left(),
                    params.element_size as int,
                ) && nodes_are(self.right(), params.element_size as int)),
                Err(PathError::Rows) => params.valid() && 1 <= self.left().len()
                    == self.right().len() && self.left().len() - 1 <= m && 1 <= m && nodes_are(
                    self.left(),
                    params.element_size as int,
                ) && nodes_are(self.right(), params.element_size as int) && !countable(
                    params,
                    m as int,
                ),
            },
    {
        match params.error() {
            Some(e) => {
                return Err(PathError::Parameters(e));
            },
            None => {},
        }
        let size = params.element_size;
        let width = params.mds.len();
        if self.left.len() == 0 || self.left.len() != self.right.len() {
            return Err(PathError::Levels);
        }
        // path length is correct
        if self.left.len() - 1 > m || m == 0 {
            return Err(PathError::Depth);
        }
        if !Self::nodes_are(&self.left, size) || !Self::nodes_are(&self.right, size) {
            return Err(PathError::Node);
        }
        match Self::rows(params, m) {
            Some(n) => {
                if n == usize::MAX {
                    return Err(PathError::Rows);
                }
            },
            None => {
                return Err(PathError::Rows);
            },
        }
        if size > usize::MAX - size || m > usize::MAX - (size + size) {
            return Err(PathError::Rows);
        }
        if width > (usize::MAX - 4) / 2 {
            return Err(PathError::Rows);
        }
        let mut cs = ConstraintSystem::new();
        let config = Self::configure(&mut cs, params);
        let ghost out = config.merkle_config.public.index as int;
        let mut instance: Vec<Vec<Fe>> = Vec::new();
        instance.push(public);
        let ghost shape = cs.table(Seq::empty());
        let mut table = Layouter::new(cs, instance);
        proof {
            assert(grid_values(instance@) =~= seq![values(public@)]);
            assert(table@.satisfied());
            config.poseidon_config.lemma_shape(shape, table@);
            config.merkle_config.lemma_shape(shape, table@);
        }
        let ghost empty = table@;
        self.synthesize(params, m, config, &mut table);
        proof {
            assert(table@.instance == empty.instance);
            assert(table@.public_values(0, 0, m + 2 * size) =~= empty.public_values(
                out,
                0,
                m + 2 * size,
            ));
        }
        Ok(table)
    }

    /// Hashes the two nodes of a level with a sponge of its own: the left
    /// node absorbed and the state permuted, then the right. Returns the
    /// cells of the two nodes and of their hash.
    fn hash_level(
        chip: &PoseidonChip,
        layouter: &mut Layouter,
        params: &Parameters,
        left: &Vec<Fe>,
        right: &Vec<Fe>,
    ) -> (r: (Vec<AssignedCell>, Vec<AssignedCell>, Vec<AssignedCell>))
        requires
            params.valid(),
            chip@.wf(),
            chip@.width() == params.width(),
            chip@.mds_values() == params.mds_values(),
            chip@.arc_values() == params.arc_values(),
            chip@.capacity == params.capacity,
            chip@.installed(old(layouter)@.gates),
            left@.len() == params.element_size,
            right@.len() == params.element_size,
            old(layouter)@.rows + pair_rows(params) < usize::MAX,
        ensures
            r.0@.len() == params.element_size,
            r.1@.len() == params.element_size,
            r.2@.len() == params.element_size,
            cell_values(r.0@) == values(left@),
            cell_values(r.1@) == values(right@),
            cell_values(r.2@) == params.node_hash(values(left@), values(right@)),
            forall|j: int| 0 <= j < r.0@.len() ==> (#[trigger] r.0@[j]).held_by(final(layouter)@),
            forall|j: int| 0 <= j < r.1@.len() ==> (#[trigger] r.1@[j]).held_by(final(layouter)@),
            forall|j: int| 0 <= j < r.2@.len() ==> (#[trigger] r.2@[j]).held_by(final(layouter)@),
            final(layouter)@.extends(old(layouter)@),
            final(layouter)@.rows == old(layouter)@.rows + pair_rows(params),
            old(layouter)@.satisfied() ==> final(layouter)@.satisfied(),
            old(layouter)@.supported() && chip@.wired(old(layouter)@)
                ==> final(layouter)@.supported(),
            chip@.wired(old(layouter)@) ==> cells_tied(final(layouter)@, r.0@) && cells_tied(
                final(layouter)@,
                r.1@,
            ) && cells_tied(final(layouter)@, r.2@),
    {
        let size = params.element_size;
        let fr = params.full_rounds;
        let pr = params.partial_rounds;
        let ghost t0 = layouter@;
        proof {
            assert(chip@.arc_values().len() == chip@.arc_paras@.len());
            assert(params.arc_values().len() == params.arks@.len());
        }
        let padded_left = chunk(left, 0, size, &params.pad);
        let padded_right = chunk(right, 0, size, &params.pad);
        proof {
            assert(values(left@).skip(0).take(size as int) =~= values(left@));
            assert(values(right@).skip(0).take(size as int) =~= values(right@));
        }
        let s = chip.initiate(layouter);
        let ghost t1 = layouter@;
        proof {
            if chip@.wired(t0) {
                chip@.lemma_wired(t0, t1, s, t0.rows as int);
            }
        }
        let (s, l) = chip.load_inputs(layouter, s, &padded_left);
        let ghost t2 = layouter@;
        proof {
            lemma_extends_trans(t0, t1, t2);
            if chip@.wired(t0) {
                chip@.lemma_wired(t0, t2, s, (t1.rows + 2) as int);
            }
        }
        let s = chip.permutation(layouter, s, fr, pr);
        let ghost t3 = layouter@;
        proof {
            lemma_extends_trans(t0, t2, t3);
            if chip@.wired(t0) {
                chip@.lemma_wired(t0, t3, s, (t2.rows + fr + pr) as int);
            }
        }
        let (s, r) = chip.load_inputs(layouter, s, &padded_right);
        let ghost t4 = layouter@;
        proof {
            lemma_extends_trans(t0, t3, t4);
            if chip@.wired(t0) {
                chip@.lemma_wired(t0, t4, s, (t3.rows + 2) as int);
            }
        }
        let h = chip.permutation(layouter, s, fr, pr);
        let left_node = first_cells(&l, size);
        let right_node = first_cells(&r, size);
        let hash_node = first_cells(&h.0, size);
        proof {
            let t5 = layouter@;
            lemma_extends_trans(t0, t1, t2);
            lemma_extends_trans(t0, t2, t3);
            lemma_extends_trans(t0, t3, t4);
            lemma_extends_trans(t0, t4, t5);
            lemma_extends_trans(t2, t3, t4);
            lemma_extends_trans(t2, t4, t5);
            assert(cell_values(left_node@) =~= values(left@)) by {
                assert forall|j: int| 0 <= j < size implies cell_values(left_node@)[j] == values(
                    left@,
                )[j] by {
                    assert(l@[j].0.value == padded_left@[j]);
                    assert(values(padded_left@)[j] == values(left@)[j]);
                }
            }
            assert(cell_values(right_node@) =~= values(right@)) by {
                assert forall|j: int| 0 <= j < size implies cell_values(right_node@)[j] == values(
                    right@,
                )[j] by {
                    assert(r@[j].0.value == padded_right@[j]);
                    assert(values(padded_right@)[j] == values(right@)[j]);
                }
            }
            assert(cell_values(hash_node@) =~= params.node_hash(values(left@), values(right@))) by {
                assert forall|j: int| 0 <= j < size implies cell_values(hash_node@)[j] == h@[j] by {
                    assert(hash_node@[j] == h.0@[j].0);
                }
            }
            assert forall|j: int| 0 <= j < left_node@.len()
                implies (#[trigger] left_node@[j]).held_by(
                t5,
            ) by {
                assert(l@[j].0.held_by(t2));
                assert(t2.advice.contains_key(l@[j].0.key()));
            }
            assert forall|j: int| 0 <= j < right_node@.len() implies (
            #[trigger] right_node@[j]).held_by(t5) by {
                assert(r@[j].0.held_by(t4));
                assert(t4.advice.contains_key(r@[j].0.key()));
            }
            assert forall|j: int| 0 <= j < hash_node@.len()
                implies (#[trigger] hash_node@[j]).held_by(
                t5,
            ) by {
                assert(h.0@[j].0.held_by(t5));
            }
            if chip@.wired(t0) {
                chip@.lemma_wired(t0, t5, s, 0);
                let cols = chip@.state_columns();
                assert forall|j: int| 0 <= j < left_node@.len() implies t5.advice_tied(
                    (#[trigger] left_node@[j]).column.index as int,
                ) by {
                    assert(l@[j].0.column == chip@.state@[j]);
                    assert(t5.takes_advice(cols[j]));
                }
                assert forall|j: int| 0 <= j < right_node@.len() implies t5.advice_tied(
                    (#[trigger] right_node@[j]).column.index as int,
                ) by {
                    assert(r@[j].0.column == chip@.state@[j]);
                    assert(t5.takes_advice(cols[j]));
                }
                assert forall|j: int| 0 <= j < hash_node@.len() implies t5.advice_tied(
                    (#[trigger] hash_node@[j]).column.index as int,
                ) by {
                    assert(h.0@[j].0.column == chip@.state@[j]);
                    assert(t5.takes_advice(cols[j]));
                }
            }
        }
        (left_node, right_node, hash_node)
    }

    /// Allocates an advice column for each element of a node, one for each of
    /// the two flags, an advice column and a fixed column for each element of
    /// the sponge's state, and an instance column, and configures the two
    /// chips over them.
    pub fn configure(meta: &mut ConstraintSystem, params: &Parameters) -> (config: MerkleConfig)
        requires
            params.valid(),
            old(meta).num_advice + 2 * params.width() + 4 <= usize::MAX,
            old(meta).num_fixed + params.width() <= usize::MAX,
            old(meta).num_instance < usize::MAX,
        ensures
            config.fits(params),
            config.installed(final(meta).polys()),
            config.merkle_config.public.index == old(meta).num_instance,
            final(meta).num_advice == old(meta).num_advice + params.element_size + 2
                + params.width(),
            final(meta).num_fixed == old(meta).num_fixed + params.width(),
            final(meta).num_instance == old(meta).num_instance + 1,
            final(meta).polys().len() == old(meta).polys().len() + 5,
            old(meta).polys().is_prefix_of(final(meta).polys()),
            config.wired(final(meta).table(Seq::empty())),
    {
        let width = params.mds.len();
        let value = meta.advice_columns(params.element_size);
        let copy_flag = meta.advice_column();
        let index_flag = meta.advice_column();
        let states = meta.advice_columns(width);
        let arks = meta.fixed_columns(width);
        // public column for output
        let output = meta.instance_column();
        let mds = params.mds();
        let ark_paras = params.arks();
        proof {
            lemma_fresh_columns(
                states@,
                arks@,
                old(meta).num_advice + params.element_size + 2,
                old(meta).num_fixed as int,
            );
            assert(meta.polys() =~= old(meta).polys());
            assert forall|i: int| 0 <= i < mds@.len() implies (#[trigger] mds@[i])@.len()
                == states@.len() by {
                assert(params.mds@[i]@.len() == params.mds@.len());
            }
            assert forall|r: int| 0 <= r < ark_paras@.len()
                implies (#[trigger] ark_paras@[r])@.len()
                == states@.len() by {
                assert(params.arks@[r]@.len() == params.mds@.len());
            }
        }
        proof {
            lemma_fresh_columns(value@, arks@, old(meta).num_advice as int,
                old(meta).num_fixed as int);
        }
        let merkle_config = MerklePathChip::configure(meta, value, copy_flag, index_flag, output);
        let ghost mid = meta.polys();
        let ghost laid = meta.table(Seq::empty());
        let poseidon_config = PoseidonChip::configure(
            meta,
            states,
            output,
            arks,
            mds,
            ark_paras,
            params.capacity(),
        );
        proof {
            assert(poseidon_config.mds_values() =~= params.mds_values());
            assert(poseidon_config.arc_values() =~= params.arc_values());
            let gates = meta.polys();
            assert(gates[merkle_config.s_hash.index as int]
                == mid[merkle_config.s_hash.index as int]);
            assert(gates[merkle_config.s_pub.index as int]
                == mid[merkle_config.s_pub.index as int]);
            assert(merkle_config.installed(gates));
            // the columns that the first chip tied stay tied
            let t = meta.table(Seq::empty());
            let cols = advice_indices(merkle_config.value@);
            assert forall|c: int| laid.advice_tied(c) implies #[trigger] t.advice_tied(c) by {
                let i = choose|i: int|
                    0 <= i < laid.equality.len()
                        && (#[trigger] laid.equality[i] matches Column::Advice(
                        a,
                    ) && a.index == c);
                assert(t.equality[i] == laid.equality[i]);
            }
            assert forall|j: int| 0 <= j < merkle_config.size() implies t.takes_advice(
                #[trigger] cols[j],
            ) by {
                assert(laid.takes_advice(cols[j]));
            }
            assert(laid.takes_advice(merkle_config.index_flag.index as int));
        }
        MerkleConfig { merkle_config, poseidon_config }
    }

    /// Lays out the path up to level `m`: hashes the two nodes of every level
    /// with the sponge chip, the levels past the last that is given being
    /// that level again, lays out the leaves with the chosen leaf, then the
    /// path with the copy flag clear on the levels below the last that is
    /// given and set from there on, and binds the root to the public inputs
    /// that follow the leaf and the `m` index flags.
    ///
    /// The table stays satisfied exactly when the path and the public inputs
    /// are in `statement`.
    pub fn synthesize(
        &self,
        params: &Parameters,
        m: usize,
        config: MerkleConfig,
        layouter: &mut Layouter,
    )
        requires
            params.valid(),
            config.fits(params),
            config.installed(old(layouter)@.gates),
            1 <= self.left().len() == self.right().len(),
            self.left().len() - 1 <= m,
            1 <= m,
            forall|i: int|
                0 <= i < self.left().len() ==> (#[trigger] self.left()[i]).len()
                    == params.element_size,
            forall|i: int|
                0 <= i < self.right().len() ==> (#[trigger] self.right()[i]).len()
                    == params.element_size,
            old(layouter)@.rows + path_rows(params, m as int) < usize::MAX,
            m + 2 * params.element_size <= usize::MAX,
        ensures
            final(layouter)@.extends(old(layouter)@),
            final(layouter)@.rows == old(layouter)@.rows + path_rows(params, m as int),
            old(layouter)@.satisfied() ==> (final(layouter)@.satisfied() <==> statement(
                params,
                self.left(),
                self.right(),
                m as int,
                old(layouter)@.public_values(
                    config.merkle_config.public.index as int,
                    0,
                    m + 2 * params.element_size,
                ),
            )),
            forall|t: Table| #[trigger]
                t.extends(final(layouter)@) && t.satisfied() ==> statement(
                    params,
                    self.left(),
                    self.right(),
                    m as int,
                    old(layouter)@.public_values(
                        config.merkle_config.public.index as int,
                        0,
                        m + 2 * params.element_size,
                    ),
                ),
            !statement(
                params,
                self.left(),
                self.right(),
                m as int,
                old(layouter)@.public_values(
                    config.merkle_config.public.index as int,
                    0,
                    m + 2 * params.element_size,
                ),
            ) ==> !final(layouter)@.satisfied(),
            old(layouter)@.supported() && config.wired(old(layouter)@)
                ==> final(layouter)@.supported(),
    {
        let size = params.element_size;
        // path length is correct
        let n = self.left.len() - 1;
        let poseidon_chip = PoseidonChip::new(config.poseidon_config);
        let merkle_chip = MerklePathChip::new(config.merkle_config);
        let ghost t0 = layouter@;
        let ghost per = pair_rows(params);
        let ghost out = merkle_chip@.public.index as int;
        let ghost public = t0.public_values(out, 0, m + 2 * size);
        let ghost lv = padded(self.left(), m as int);
        let ghost rv = padded(self.right(), m as int);
        let ghost hv = hashes(params, lv, rv, m as int);

        // compute hash
        let mut left_nodes: Vec<Vec<AssignedCell>> = Vec::new();
        let mut right_nodes: Vec<Vec<AssignedCell>> = Vec::new();
        let mut hash_nodes: Vec<Vec<AssignedCell>> = Vec::new();
        let mut level: usize = 0;
        while level <= m
            invariant
                level <= m + 1,
                1 <= m,
                m + 2 * size <= usize::MAX,
                n + 1 == self.left@.len(),
                self.left@.len() == self.right@.len(),
                n <= m,
                size == params.element_size,
                params.valid(),
                forall|i: int|
                    0 <= i < self.left().len() ==> (#[trigger] self.left()[i]).len() == size,
                forall|i: int|
                    0 <= i < self.right().len() ==> (#[trigger] self.right()[i]).len() == size,
                poseidon_chip@.wf(),
                poseidon_chip@.width() == params.width(),
                poseidon_chip@.mds_values() == params.mds_values(),
                poseidon_chip@.arc_values() == params.arc_values(),
                poseidon_chip@.capacity == params.capacity,
                poseidon_chip@.installed(t0.gates),
                per == pair_rows(params),
                lv == padded(self.left(), m as int),
                rv == padded(self.right(), m as int),
                hv == hashes(params, lv, rv, m as int),
                t0 == old(layouter)@,
                layouter@.extends(t0),
                t0.satisfied() ==> layouter@.satisfied(),
                t0.supported() && poseidon_chip@.wired(t0) ==> layouter@.supported(),
                poseidon_chip@.wired(t0) ==> nodes_tied(layouter@, left_nodes@) && nodes_tied(
                    layouter@,
                    right_nodes@,
                ) && nodes_tied(layouter@, hash_nodes@),
                layouter@.rows + repeated_rows(m + 1 - level, per) == t0.rows + repeated_rows(
                    m + 1,
                    per,
                ),
                t0.rows + path_rows(params, m as int) < usize::MAX,
                left_nodes@.len() == level,
                right_nodes@.len() == level,
                hash_nodes@.len() == (if level <= m {
                    level
                } else {
                    m
                }),
                nodes_held(left_nodes@, layouter@, size as int),
                nodes_held(right_nodes@, layouter@, size as int),
                nodes_held(hash_nodes@, layouter@, size as int),
                forall|i: int| 0 <= i < level ==> cell_values(#[trigger] left_nodes@[i]@) == lv[i],
                forall|i: int| 0 <= i < level ==> cell_values(#[trigger] right_nodes@[i]@) == rv[i],
                forall|i: int|
                    0 <= i < hash_nodes@.len() ==> cell_values(#[trigger] hash_nodes@[i]@) == hv[i],
            decreases m + 1 - level,
        {
            let ghost before = layouter@;
            // past the last level that is given, the root again
            let i = if level < n {
                level
            } else {
                n
            };
            proof {
                lemma_repeated_rows(0, m - level, per);
                assert(self.left()[i as int].len() == size);
                assert(self.right()[i as int].len() == size);
                assert(self.left()[i as int] == values(self.left@[i as int]@));
                assert(self.right()[i as int] == values(self.right@[i as int]@));
            }
            proof {
                if poseidon_chip@.wired(t0) {
                    poseidon_chip@.lemma_shape(t0, before);
                }
            }
            let (l, r, h) = Self::hash_level(
                &poseidon_chip,
                layouter,
                params,
                &self.left[i],
                &self.right[i],
            );
            proof {
                let now = layouter@;
                lemma_extends_trans(t0, before, now);
                if poseidon_chip@.wired(t0) {
                    lemma_nodes_tied_extends(left_nodes@, before, now);
                    lemma_nodes_tied_extends(right_nodes@, before, now);
                    lemma_nodes_tied_extends(hash_nodes@, before, now);
                }
                lemma_nodes_held_extends(left_nodes@, before, now, size as int);
                lemma_nodes_held_extends(right_nodes@, before, now, size as int);
                lemma_nodes_held_extends(hash_nodes@, before, now, size as int);
                assert(lv[level as int] == self.left()[i as int]);
                assert(rv[level as int] == self.right()[i as int]);
                if level < m {
                    assert(hv[level as int]
                        == params.node_hash(lv[level as int], rv[level as int]));
                }
            }
            left_nodes.push(l);
            right_nodes.push(r);
            if level < m {
                hash_nodes.push(h);
            }
            level = level + 1;
        }
        proof {
            assert(repeated_rows(0, per) == 0);
        }
        let ghost t1 = layouter@;

        let left_leaf = copy_cells(&left_nodes[0]);
        let right_leaf = copy_cells(&right_nodes[0]);
        proof {
            if config.wired(t0) {
                merkle_chip@.lemma_wired(t0, t1);
                assert(cells_tied(t1, left_nodes@[0]@));
                assert(cells_tied(t1, right_nodes@[0]@));
            }
        }
        merkle_chip.load_leaves(layouter, left_leaf, right_leaf);
        let ghost t2 = layouter@;

        // the levels that are hashed have the copy flag clear
        let mut copy: Vec<Fe> = Vec::new();
        let mut i: usize = 0;
        while i <= m
            invariant
                i <= m + 1,
                m < usize::MAX,
                copy@.len() == i,
                forall|k: int|
                    0 <= k < i ==> (#[trigger] copy@[k])@ == (if k < n {
                        0nat
                    } else {
                        1nat
                    }),
            decreases m + 1 - i,
        {
            if i < n {
                copy.push(Fe::zero());
            } else {
                copy.push(Fe::one());
            }
            i = i + 1;
        }
        proof {
            lemma_extends_trans(t0, t1, t2);
            if config.wired(t0) {
                merkle_chip@.lemma_wired(t0, t2);
                lemma_nodes_tied_extends(left_nodes@, t1, t2);
                lemma_nodes_tied_extends(right_nodes@, t1, t2);
                lemma_nodes_tied_extends(hash_nodes@, t1, t2);
            }
            lemma_nodes_held_extends(left_nodes@, t1, t2, size as int);
            lemma_nodes_held_extends(right_nodes@, t1, t2, size as int);
            lemma_nodes_held_extends(hash_nodes@, t1, t2, size as int);
            assert(values(copy@) =~= copy_flags(n as int, m as int));
            assert(node_values(left_nodes@) =~= lv);
            assert(node_values(right_nodes@) =~= rv);
            assert(node_values(hash_nodes@) =~= hv);
        }
        let root_node = merkle_chip.load_path(
            layouter,
            left_nodes,
            right_nodes,
            hash_nodes,
            &copy,
            m,
            n,
        );
        let ghost t3 = layouter@;
        let ghost root = cell_values(root_node.0@);
        proof {
            lemma_extends_trans(t0, t2, t3);
            if config.wired(t0) {
                merkle_chip@.lemma_wired(t0, t3);
            }
        }
        merkle_chip.expose_public(layouter, root_node, m + size);
        proof {
            let t4 = layouter@;
            lemma_extends_trans(t0, t1, t2);
            lemma_extends_trans(t0, t2, t3);
            lemma_extends_trans(t0, t3, t4);
            lemma_extends_trans(t2, t3, t4);
            lemma_extends_refl(t4);
            let leaf = public.subrange(0, size as int);
            let index = public.subrange(size as int, size + m);
            let top = public.subrange(size + m, size + m + size);
            assert(t1.instance == t0.instance);
            assert(t2.instance == t0.instance);
            assert(t3.instance == t0.instance);
            assert(leaf =~= merkle_chip@.public_values(t1, 0, size as int));
            assert(index =~= merkle_chip@.public_values(t2, size as int, m as int));
            assert(top =~= merkle_chip@.public_values(t3, m + size, size as int));
            assert(public[size as int] == t1.instance_at(out, size as int));
            assert(root =~= lv[m as int]);
            let a = leaf_relation(public[size as int], lv[0], rv[0], leaf);
            let b = path_relation(lv, rv, hv, copy_flags(n as int, m as int), index, m as int);
            let c = lv[m as int] == top;
            assert(statement(params, self.left(), self.right(), m as int, public) == (a && b && c));
            assert forall|t: Table| #[trigger] t.extends(t4) && t.satisfied() implies statement(
                params,
                self.left(),
                self.right(),
                m as int,
                public,
            ) by {
                lemma_extends_trans(t3, t4, t);
                lemma_extends_trans(t2, t3, t);
            }
        }
    }
}

} // verus!
