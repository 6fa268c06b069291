//! The Merkle path chip. It lays a path out three rows per level, the left
//! node, the right node and the hash of the two, and checks the placement of
//! each hash in the level above; it does no hashing itself.

use crate::circuit::{
    advice_indices, cell_values, cells_tied, columns_take, distinct, lemma_take_extend,
    AssignedCell, Layouter,
};
use crate::field::{
    fadd, fmul, fsub, lemma_canonical, lemma_fadd_zero, lemma_fmul_unit, lemma_fsub_bit,
    lemma_fsub_zero, modulus, values, Fe,
};
use crate::field::canonical;
use crate::plonk::{
    lemma_constraints_extend, lemma_extends_refl, lemma_extends_trans, lemma_satisfied_extends,
    oadd, omul, osub,
    Advice, Column, ConstraintSystem, Expression, Instance, Rotation, Selector, Table,
};
use vstd::prelude::*;

verus! {

/// `v * (1 - v)`, which is zero when `v` is a bit.
pub open spec fn bit_poly(v: Option<nat>) -> Option<nat> {
    omul(v, osub(Some(1nat), v))
}

/// `before * (1 - after)`, which is zero unless a flag that was set is
/// cleared.
pub open spec fn flag_poly(before: Option<nat>, after: Option<nat>) -> Option<nat> {
    omul(before, osub(Some(1nat), after))
}

/// `(1 - copy) * (hash - (1 - index) * left - index * right)`: while the copy
/// flag is clear, the hash is the child of the next level that the index
/// points to.
pub open spec fn hash_poly(
    copy: Option<nat>,
    index: Option<nat>,
    hash: Option<nat>,
    left: Option<nat>,
    right: Option<nat>,
) -> Option<nat> {
    omul(
        osub(Some(1nat), copy),
        osub(osub(hash, omul(osub(Some(1nat), index), left)), omul(index, right)),
    )
}

/// `copy * ((1 - index) * (prev_left - left) + index * (prev_right - right))`:
/// once the copy flag is set, the child of the next level that the index
/// points to repeats the one below it.
pub open spec fn copy_poly(
    copy: Option<nat>,
    index: Option<nat>,
    prev_left: Option<nat>,
    left: Option<nat>,
    prev_right: Option<nat>,
    right: Option<nat>,
) -> Option<nat> {
    omul(
        copy,
        oadd(
            omul(osub(Some(1nat), index), osub(prev_left, left)),
            omul(index, osub(prev_right, right)),
        ),
    )
}

/// `(1 - index) * (left - chosen) + index * (right - chosen)`: the chosen
/// value is the child that the index points to.
pub open spec fn select_poly(
    index: Option<nat>,
    left: Option<nat>,
    right: Option<nat>,
    chosen: Option<nat>,
) -> Option<nat> {
    oadd(omul(osub(Some(1nat), index), osub(left, chosen)), omul(index, osub(right, chosen)))
}

/// `v * (1 - v)` on values.
pub open spec fn bit_value(v: nat) -> nat {
    fmul(v, fsub(1, v))
}

/// `before * (1 - after)` on values.
pub open spec fn flag_value(before: nat, after: nat) -> nat {
    fmul(before, fsub(1, after))
}

/// `(1 - copy) * (hash - (1 - index) * left - index * right)` on values.
pub open spec fn hash_value(copy: nat, index: nat, hash: nat, left: nat, right: nat) -> nat {
    fmul(fsub(1, copy), fsub(fsub(hash, fmul(fsub(1, index), left)), fmul(index, right)))
}

/// `copy * ((1 - index) * (prev_left - left) + index * (prev_right - right))`
/// on values.
pub open spec fn copy_value(
    copy: nat,
    index: nat,
    prev_left: nat,
    left: nat,
    prev_right: nat,
    right: nat,
) -> nat {
    fmul(
        copy,
        fadd(fmul(fsub(1, index), fsub(prev_left, left)), fmul(index, fsub(prev_right, right))),
    )
}

/// `(1 - index) * (left - chosen) + index * (right - chosen)` on values.
pub open spec fn select_value(index: nat, left: nat, right: nat, chosen: nat) -> nat {
    fadd(fmul(fsub(1, index), fsub(left, chosen)), fmul(index, fsub(right, chosen)))
}

/// Whether a value is zero or one.
pub open spec fn is_bit(v: nat) -> bool {
    v == 0 || v == 1
}

/// The child that an index bit points to: the right one if it is one, else
/// the left.
pub open spec fn side(index: nat, left: nat, right: nat) -> nat {
    if index == 1 {
        right
    } else {
        left
    }
}

/// A bit satisfies the identity for bits, and a flag that is set and then
/// cleared is all that the identity for flags refuses of two bits.
pub proof fn lemma_bit_value(v: nat, w: nat)
    requires
        is_bit(v),
        is_bit(w),
    ensures
        bit_value(v) == 0,
        flag_value(v, w) == 0 <==> !(v == 1 && w == 0),
{
    lemma_fsub_bit();
    lemma_fmul_unit(0);
    lemma_fmul_unit(1);
}

/// With bits for flags and values below the order, the identity for hashes is
/// zero exactly when the copy flag is set or the hash is the child that the
/// index points to.
pub proof fn lemma_hash_value(copy: nat, index: nat, hash: nat, left: nat, right: nat)
    requires
        is_bit(copy),
        is_bit(index),
        hash < modulus(),
        left < modulus(),
        right < modulus(),
    ensures
        hash_value(copy, index, hash, left, right) == 0 <==> copy == 1 || hash == side(
            index,
            left,
            right,
        ),
{
    lemma_fsub_bit();
    lemma_fmul_unit(left);
    lemma_fmul_unit(right);
    let a = fmul(fsub(1, index), left);
    let b = fmul(index, right);
    lemma_canonical(hash, a);
    lemma_fsub_zero(hash, a);
    lemma_fsub_zero(fsub(hash, a), b);
    let inner = fsub(fsub(hash, a), b);
    lemma_canonical(fsub(hash, a), b);
    lemma_fmul_unit(inner);
}

/// With bits for flags and values below the order, the identity for copies is
/// zero exactly when the copy flag is clear or the child that the index
/// points to repeats the one below it.
pub proof fn lemma_copy_value(
    copy: nat,
    index: nat,
    prev_left: nat,
    left: nat,
    prev_right: nat,
    right: nat,
)
    requires
        is_bit(copy),
        is_bit(index),
        prev_left < modulus(),
        left < modulus(),
        prev_right < modulus(),
        right < modulus(),
    ensures
        copy_value(copy, index, prev_left, left, prev_right, right) == 0 <==> copy == 0 || side(
            index,
            prev_left,
            prev_right,
        ) == side(index, left, right),
{
    lemma_fsub_bit();
    let dl = fsub(prev_left, left);
    let dr = fsub(prev_right, right);
    lemma_canonical(prev_left, left);
    lemma_canonical(prev_right, right);
    lemma_fsub_zero(prev_left, left);
    lemma_fsub_zero(prev_right, right);
    lemma_fmul_unit(dl);
    lemma_fmul_unit(dr);
    lemma_fadd_zero(dl);
    lemma_fadd_zero(dr);
    let inner = fadd(fmul(fsub(1, index), dl), fmul(index, dr));
    lemma_canonical(fmul(fsub(1, index), dl), fmul(index, dr));
    lemma_fmul_unit(inner);
}

/// With a bit for the index and values below the order, the identity for the
/// selection is zero exactly when the chosen value is the child that the index
/// points to.
pub proof fn lemma_select_value(index: nat, left: nat, right: nat, chosen: nat)
    requires
        is_bit(index),
        left < modulus(),
        right < modulus(),
        chosen < modulus(),
    ensures
        select_value(index, left, right, chosen) == 0 <==> chosen == side(index, left, right),
{
    lemma_fsub_bit();
    let dl = fsub(left, chosen);
    let dr = fsub(right, chosen);
    lemma_canonical(left, chosen);
    lemma_canonical(right, chosen);
    lemma_fsub_zero(left, chosen);
    lemma_fsub_zero(right, chosen);
    lemma_fmul_unit(dl);
    lemma_fmul_unit(dr);
    lemma_fadd_zero(dl);
    lemma_fadd_zero(dr);
}

/// What the selection gate asks of the two leaves, the index flag and the
/// chosen leaf.
pub open spec fn leaf_relation(
    index: nat,
    left: Seq<nat>,
    right: Seq<nat>,
    chosen: Seq<nat>,
) -> bool {
    &&& bit_value(index) == 0
    &&& forall|j: int|
        0 <= j < chosen.len() ==> #[trigger] select_value(index, left[j], right[j], chosen[j]) == 0
}

/// What the placement gate asks of one level: of its copy flag and the next
/// level's, its index flag, its two nodes and their hash, and the two nodes of
/// the next level.
pub open spec fn level_relation(
    copy: nat,
    next_copy: nat,
    index: nat,
    prev_left: Seq<nat>,
    prev_right: Seq<nat>,
    hash: Seq<nat>,
    left: Seq<nat>,
    right: Seq<nat>,
) -> bool {
    &&& bit_value(next_copy) == 0
    &&& bit_value(copy) == 0
    &&& flag_value(copy, next_copy) == 0
    &&& bit_value(index) == 0
    &&& forall|j: int|
        0 <= j < hash.len() ==> #[trigger] hash_value(copy, index, hash[j], left[j], right[j]) == 0
    &&& forall|j: int|
        0 <= j < hash.len() ==> #[trigger] copy_value(
            copy,
            index,
            prev_left[j],
            left[j],
            prev_right[j],
            right[j],
        ) == 0
}

/// The cells of every node lie in columns that take part in equality
/// constraints.
pub open spec fn nodes_tied(t: Table, nodes: Seq<Vec<AssignedCell>>) -> bool {
    forall|i: int| 0 <= i < nodes.len() ==> cells_tied(t, (#[trigger] nodes[i])@)
}

/// The values of the cells of a list of nodes.
pub open spec fn node_values(nodes: Seq<Vec<AssignedCell>>) -> Seq<Seq<nat>> {
    nodes.map_values(|n: Vec<AssignedCell>| cell_values(n@))
}

/// What the placement gate asks of level `i` of a path of `m` levels. The
/// level above the last is the root, which stands on both of its rows and has
/// its copy flag set; the last level's hash is the root's left child.
pub open spec fn path_level(
    left: Seq<Seq<nat>>,
    right: Seq<Seq<nat>>,
    hash: Seq<Seq<nat>>,
    copy: Seq<nat>,
    index: Seq<nat>,
    m: int,
    i: int,
) -> bool {
    level_relation(
        copy[i],
        if i + 1 < m {
            copy[i + 1]
        } else {
            1
        },
        if i + 1 < m {
            index[i + 1]
        } else {
            0
        },
        left[i],
        right[i],
        hash[i],
        left[i + 1],
        if i + 1 < m {
            right[i + 1]
        } else {
            left[m]
        },
    )
}

/// What the placement gate asks of a path of `m` levels. `index[i]`, for `i`
/// from 1 on, tells on which side of level `i` the hash of the level below
/// stands.
pub open spec fn path_relation(
    left: Seq<Seq<nat>>,
    right: Seq<Seq<nat>>,
    hash: Seq<Seq<nat>>,
    copy: Seq<nat>,
    index: Seq<nat>,
    m: int,
) -> bool {
    forall|i: int| 0 <= i < m ==> #[trigger] path_level(left, right, hash, copy, index, m, i)
}

/// The node that an index bit points to: the right one if it is one, else the
/// left.
pub open spec fn side_node(index: nat, left: Seq<nat>, right: Seq<nat>) -> Seq<nat> {
    if index == 1 {
        right
    } else {
        left
    }
}

/// What the relation of a level means where the flags are bits: a copy flag
/// that is set stays set; while it is clear, the hash is the node of the next
/// level that the index points to; once it is set, that node repeats the one
/// below it.
pub open spec fn level_accepts(
    copy: nat,
    next_copy: nat,
    index: nat,
    prev_left: Seq<nat>,
    prev_right: Seq<nat>,
    hash: Seq<nat>,
    left: Seq<nat>,
    right: Seq<nat>,
) -> bool {
    &&& !(copy == 1 && next_copy == 0)
    &&& copy == 0 ==> hash == side_node(index, left, right)
    &&& copy == 1 ==> side_node(index, prev_left, prev_right) == side_node(index, left, right)
}

/// With a bit for the index and values below the order, the leaves are in
/// their relation exactly when the chosen leaf is the one that the index
/// points to.
pub proof fn lemma_leaf_meaning(index: nat, left: Seq<nat>, right: Seq<nat>, chosen: Seq<nat>)
    requires
        is_bit(index),
        left.len() == chosen.len(),
        right.len() == chosen.len(),
        canonical(left),
        canonical(right),
        canonical(chosen),
    ensures
        leaf_relation(index, left, right, chosen) <==> chosen == side_node(index, left, right),
{
    lemma_bit_value(index, index);
    assert forall|j: int| 0 <= j < chosen.len() implies (#[trigger] select_value(
        index,
        left[j],
        right[j],
        chosen[j],
    ) == 0 <==> chosen[j] == side_node(index, left, right)[j]) by {
        lemma_select_value(index, left[j], right[j], chosen[j]);
    }
    if leaf_relation(index, left, right, chosen) {
        assert forall|j: int| 0 <= j < chosen.len() implies chosen[j] == side_node(
            index,
            left,
            right,
        )[j] by {
            assert(select_value(index, left[j], right[j], chosen[j]) == 0);
        }
        assert(chosen =~= side_node(index, left, right));
    }
}

/// With bits for the flags and values below the order, a level is in its
/// relation exactly when `level_accepts` holds of it.
pub proof fn lemma_level_meaning(
    copy: nat,
    next_copy: nat,
    index: nat,
    prev_left: Seq<nat>,
    prev_right: Seq<nat>,
    hash: Seq<nat>,
    left: Seq<nat>,
    right: Seq<nat>,
)
    requires
        is_bit(copy),
        is_bit(next_copy),
        is_bit(index),
        prev_left.len() == hash.len(),
        prev_right.len() == hash.len(),
        left.len() == hash.len(),
        right.len() == hash.len(),
        canonical(prev_left),
        canonical(prev_right),
        canonical(hash),
        canonical(left),
        canonical(right),
    ensures
        level_relation(copy, next_copy, index, prev_left, prev_right, hash, left, right)
            <==> level_accepts(copy, next_copy, index, prev_left, prev_right, hash, left, right),
{
    lemma_bit_value(copy, next_copy);
    lemma_bit_value(next_copy, next_copy);
    lemma_bit_value(index, index);
    let chosen = side_node(index, left, right);
    let below = side_node(index, prev_left, prev_right);
    assert forall|j: int| 0 <= j < hash.len() implies (#[trigger] hash_value(
        copy,
        index,
        hash[j],
        left[j],
        right[j],
    ) == 0 <==> copy == 1 || hash[j] == chosen[j]) by {
        lemma_hash_value(copy, index, hash[j], left[j], right[j]);
    }
    assert forall|j: int| 0 <= j < hash.len() implies (#[trigger] copy_value(
        copy,
        index,
        prev_left[j],
        left[j],
        prev_right[j],
        right[j],
    ) == 0 <==> copy == 0 || below[j] == chosen[j]) by {
        lemma_copy_value(copy, index, prev_left[j], left[j], prev_right[j], right[j]);
    }
    if level_relation(copy, next_copy, index, prev_left, prev_right, hash, left, right) {
        if copy == 0 {
            assert forall|j: int| 0 <= j < hash.len() implies hash[j] == chosen[j] by {
                assert(hash_value(copy, index, hash[j], left[j], right[j]) == 0);
            }
            assert(hash =~= chosen);
        } else {
            assert forall|j: int| 0 <= j < hash.len() implies below[j] == chosen[j] by {
                assert(copy_value(copy, index, prev_left[j], left[j], prev_right[j], right[j])
                    == 0);
            }
            assert(below =~= chosen);
        }
    }
}

/// A copy flag that is set on a level and clear on the next is refused: no
/// path with such flags is in the relation of the placement gate.
pub proof fn lemma_copy_flag_monotone(
    left: Seq<Seq<nat>>,
    right: Seq<Seq<nat>>,
    hash: Seq<Seq<nat>>,
    copy: Seq<nat>,
    index: Seq<nat>,
    m: int,
    i: int,
)
    requires
        0 <= i,
        i + 1 < m,
        copy[i] == 1,
        copy[i + 1] == 0,
    ensures
        !path_relation(left, right, hash, copy, index, m),
{
    lemma_bit_value(1, 0);
    if path_relation(left, right, hash, copy, index, m) {
        assert(path_level(left, right, hash, copy, index, m, i));
    }
}

/// A padding level that does not repeat the level below it is refused: where
/// the copy flag of level `i` is set and the node of the next level that the
/// index bit points to differs from the one below it, the path is not in the
/// relation of the placement gate. The index bit of the last level is zero
/// and the node above it on either side is the root.
pub proof fn lemma_padding_must_repeat(
    left: Seq<Seq<nat>>,
    right: Seq<Seq<nat>>,
    hash: Seq<Seq<nat>>,
    copy: Seq<nat>,
    index: Seq<nat>,
    m: int,
    i: int,
)
    requires
        0 <= i < m,
        copy[i] == 1,
        i + 1 < m ==> is_bit(index[i + 1]),
        left[i].len() == hash[i].len(),
        right[i].len() == hash[i].len(),
        left[i + 1].len() == hash[i].len(),
        i + 1 < m ==> right[i + 1].len() == hash[i].len(),
        canonical(left[i]),
        canonical(right[i]),
        canonical(left[i + 1]),
        i + 1 < m ==> canonical(right[i + 1]),
        side_node(
            if i + 1 < m {
                index[i + 1]
            } else {
                0
            },
            left[i],
            right[i],
        ) != side_node(
            if i + 1 < m {
                index[i + 1]
            } else {
                0
            },
            left[i + 1],
            if i + 1 < m {
                right[i + 1]
            } else {
                left[m]
            },
        ),
    ensures
        !path_relation(left, right, hash, copy, index, m),
{
    let x = if i + 1 < m {
        index[i + 1]
    } else {
        0
    };
    let above = if i + 1 < m {
        right[i + 1]
    } else {
        left[m]
    };
    let below = side_node(x, left[i], right[i]);
    let chosen = side_node(x, left[i + 1], above);
    if path_relation(left, right, hash, copy, index, m) {
        assert(path_level(left, right, hash, copy, index, m, i));
        assert forall|j: int| 0 <= j < hash[i].len() implies below[j] == chosen[j] by {
            lemma_copy_value(1, x, left[i][j], left[i + 1][j], right[i][j], above[j]);
            assert(copy_value(1, x, left[i][j], left[i + 1][j], right[i][j], above[j]) == 0);
        }
        assert(below =~= chosen);
    }
}

/// The equality constraints that tie the cells of a node to the public inputs
/// of a column from row `from` on.
pub open spec fn node_exposures(cells: Seq<AssignedCell>, instance: int, from: int) -> Seq<
    ((int, int), (int, int)),
> {
    Seq::new(cells.len(), |j: int| (cells[j].key(), (instance, from + j)))
}

/// A tree node: one assigned cell for each element of its value.
#[derive(Debug)]
pub struct Node(pub Vec<AssignedCell>);

impl Clone for Node {
    fn clone(&self) -> Self {
        Node(self.0.clone())
    }
}

/// The columns and selectors of the chip.
#[derive(Debug)]
pub struct MerklePathConfig {
    /// The columns of a node's elements.
    pub value: Vec<Advice>,
    /// The flag that tells copying from hashing.
    pub copy_flag: Advice,
    /// The flag that tells the left child from the right.
    pub index_flag: Advice,
    /// The public inputs.
    pub public: Instance,
    /// Enables the placement gate on the hash row of a level.
    pub s_hash: Selector,
    /// Enables the selection gate on the row of the chosen leaf.
    pub s_pub: Selector,
}

impl Clone for MerklePathConfig {
    fn clone(&self) -> Self {
        MerklePathConfig {
            value: self.value.clone(),
            copy_flag: self.copy_flag,
            index_flag: self.index_flag,
            public: self.public,
            s_hash: self.s_hash,
            s_pub: self.s_pub,
        }
    }
}

/// The columns differ from one another.
pub open spec fn distinct_columns(
    value: Seq<Advice>,
    copy_flag: Advice,
    index_flag: Advice,
) -> bool {
    &&& forall|j: int, k: int|
        0 <= j < value.len() && 0 <= k < value.len() && j != k ==> (#[trigger] value[j]).index
            != (#[trigger] value[k]).index
    &&& forall|j: int|
        0 <= j < value.len() ==> (#[trigger] value[j]).index != copy_flag.index && value[j].index
            != index_flag.index
    &&& copy_flag.index != index_flag.index
}

impl MerklePathConfig {
    /// The number of elements of a node.
    pub open spec fn size(&self) -> int {
        self.value@.len() as int
    }

    /// A node has an element, and the columns differ from one another.
    pub open spec fn wf(&self) -> bool {
        &&& self.size() >= 1
        &&& distinct_columns(self.value@, self.copy_flag, self.index_flag)
    }

    /// The element `j` of the node on a row.
    pub open spec fn value_at(&self, t: Table, j: int, row: int) -> Option<nat> {
        t.advice_at(self.value@[j].index as int, row)
    }

    /// The copy flag on a row.
    pub open spec fn copy_at(&self, t: Table, row: int) -> Option<nat> {
        t.advice_at(self.copy_flag.index as int, row)
    }

    /// The index flag on a row.
    pub open spec fn index_at(&self, t: Table, row: int) -> Option<nat> {
        t.advice_at(self.index_flag.index as int, row)
    }

    /// The value of identity `k` of the placement gate on the hash row `row` of
    /// a level. The level's left and right nodes stand on the two rows above,
    /// those of the next level on the two rows below, and the next level's copy
    /// flag three rows below.
    pub open spec fn hash_identity(&self, t: Table, row: int, k: int) -> Option<nat> {
        let copy = self.copy_at(t, row);
        let next = self.copy_at(t, row + 3);
        let index = self.index_at(t, row);
        if k == 0 {
            bit_poly(next)
        } else if k == 1 {
            bit_poly(copy)
        } else if k == 2 {
            flag_poly(copy, next)
        } else if k == 3 {
            bit_poly(index)
        } else if k < 4 + self.size() {
            let j = k - 4;
            hash_poly(
                copy,
                index,
                self.value_at(t, j, row),
                self.value_at(t, j, row + 1),
                self.value_at(t, j, row + 2),
            )
        } else {
            let j = k - 4 - self.size();
            copy_poly(
                copy,
                index,
                self.value_at(t, j, row - 2),
                self.value_at(t, j, row + 1),
                self.value_at(t, j, row - 1),
                self.value_at(t, j, row + 2),
            )
        }
    }

    /// The placement gate holds on the hash row `row` of a level.
    pub open spec fn hash_gate(&self, t: Table, row: int) -> bool {
        forall|k: int|
            0 <= k < 4 + 2 * self.size() ==> #[trigger] self.hash_identity(t, row, k) == Some(0nat)
    }

    /// The value of identity `k` of the selection gate on the row `row` of the
    /// chosen leaf, below the rows of the left and the right leaf.
    pub open spec fn pub_identity(&self, t: Table, row: int, k: int) -> Option<nat> {
        let index = self.index_at(t, row);
        if k == 0 {
            bit_poly(index)
        } else if k == 1 {
            self.copy_at(t, row)
        } else {
            let j = k - 2;
            select_poly(
                index,
                self.value_at(t, j, row - 2),
                self.value_at(t, j, row - 1),
                self.value_at(t, j, row),
            )
        }
    }

    /// The selection gate holds on the row `row` of the chosen leaf.
    pub open spec fn pub_gate(&self, t: Table, row: int) -> bool {
        forall|k: int| 0 <= k < 2 + self.size()
            ==> #[trigger] self.pub_identity(t, row, k) == Some(0nat)
    }

    /// The public inputs from row `from` on, `len` of them.
    pub open spec fn public_values(&self, t: Table, from: int, len: int) -> Seq<nat> {
        Seq::new(len as nat, |i: int| t.instance_at(self.public.index as int, from + i))
    }

    /// The rows `row - 2` to `row + 2` hold the two nodes of a level, their
    /// hash on `row`, and the two nodes of the next level, and the flags of
    /// the level stand on `row`, the next copy flag three rows below.
    pub open spec fn level_loaded(
        &self,
        t: Table,
        row: int,
        copy: nat,
        next_copy: nat,
        index: nat,
        prev_left: Seq<nat>,
        prev_right: Seq<nat>,
        hash: Seq<nat>,
        left: Seq<nat>,
        right: Seq<nat>,
    ) -> bool {
        &&& self.copy_at(t, row) == Some(copy)
        &&& self.copy_at(t, row + 3) == Some(next_copy)
        &&& self.index_at(t, row) == Some(index)
        &&& self.node_loaded(t, row - 2, prev_left)
        &&& self.node_loaded(t, row - 1, prev_right)
        &&& self.node_loaded(t, row, hash)
        &&& self.node_loaded(t, row + 1, left)
        &&& self.node_loaded(t, row + 2, right)
    }

    /// The three rows from `row` on hold the left node, the right node and
    /// their hash, and the third of them the level's flags.
    pub open spec fn rows_loaded(
        &self,
        t: Table,
        row: int,
        left: Seq<nat>,
        right: Seq<nat>,
        hash: Seq<nat>,
        copy: nat,
        index: nat,
    ) -> bool {
        &&& self.node_loaded(t, row, left)
        &&& self.node_loaded(t, row + 1, right)
        &&& self.node_loaded(t, row + 2, hash)
        &&& self.copy_at(t, row + 2) == Some(copy)
        &&& self.index_at(t, row + 2) == Some(index)
    }

    /// The three rows of level `k` of a path laid out from row `s` on hold the
    /// level, and the placement gate is enabled on the third of them.
    pub open spec fn path_rows_loaded(
        &self,
        t: Table,
        s: int,
        left: Seq<Seq<nat>>,
        right: Seq<Seq<nat>>,
        hash: Seq<Seq<nat>>,
        copy: Seq<nat>,
        index: Seq<nat>,
        m: int,
        k: int,
    ) -> bool {
        &&& self.rows_loaded(
            t,
            s + 3 * k,
            left[k],
            right[k],
            hash[k],
            copy[k],
            if k + 1 < m {
                index[k + 1]
            } else {
                0
            },
        )
        &&& t.enabled.contains((self.s_hash.index as int, s + 3 * k + 2))
    }

    /// The row holds the elements of the node.
    pub open spec fn node_loaded(&self, t: Table, row: int, node: Seq<nat>) -> bool {
        &&& node.len() == self.size()
        &&& forall|j: int| 0 <= j < self.size()
            ==> #[trigger] self.value_at(t, j, row) == Some(node[j])
    }

    /// On rows that hold a level and the next, the placement gate holds exactly
    /// when the values are in the level's relation.
    pub proof fn lemma_hash_gate(
        &self,
        t: Table,
        row: int,
        copy: nat,
        next_copy: nat,
        index: nat,
        prev_left: Seq<nat>,
        prev_right: Seq<nat>,
        hash: Seq<nat>,
        left: Seq<nat>,
        right: Seq<nat>,
    )
        requires
            self.level_loaded(
                t,
                row,
                copy,
                next_copy,
                index,
                prev_left,
                prev_right,
                hash,
                left,
                right,
            ),
        ensures
            self.hash_gate(t, row) <==> level_relation(
                copy,
                next_copy,
                index,
                prev_left,
                prev_right,
                hash,
                left,
                right,
            ),
    {
        let n = self.size();
        if self.hash_gate(t, row) {
            assert(self.hash_identity(t, row, 0) == Some(0nat));
            assert(self.hash_identity(t, row, 1) == Some(0nat));
            assert(self.hash_identity(t, row, 2) == Some(0nat));
            assert(self.hash_identity(t, row, 3) == Some(0nat));
            assert forall|j: int| 0 <= j < hash.len() implies #[trigger] hash_value(
                copy,
                index,
                hash[j],
                left[j],
                right[j],
            ) == 0 by {
                assert(self.hash_identity(t, row, 4 + j) == Some(0nat));
                assert(self.value_at(t, j, row) == Some(hash[j]));
                assert(self.value_at(t, j, row + 1) == Some(left[j]));
                assert(self.value_at(t, j, row + 2) == Some(right[j]));
            }
            assert forall|j: int| 0 <= j < hash.len() implies #[trigger] copy_value(
                copy,
                index,
                prev_left[j],
                left[j],
                prev_right[j],
                right[j],
            ) == 0 by {
                assert(self.hash_identity(t, row, 4 + n + j) == Some(0nat));
                assert(self.value_at(t, j, row - 2) == Some(prev_left[j]));
                assert(self.value_at(t, j, row - 1) == Some(prev_right[j]));
                assert(self.value_at(t, j, row + 1) == Some(left[j]));
                assert(self.value_at(t, j, row + 2) == Some(right[j]));
            }
        }
        if level_relation(copy, next_copy, index, prev_left, prev_right, hash, left, right) {
            assert forall|k: int| 0 <= k < 4 + 2 * n implies #[trigger] self.hash_identity(
                t,
                row,
                k,
            ) == Some(0nat) by {
                if 4 <= k < 4 + n {
                    let j = k - 4;
                    assert(hash_value(copy, index, hash[j], left[j], right[j]) == 0);
                    assert(self.value_at(t, j, row) == Some(hash[j]));
                    assert(self.value_at(t, j, row + 1) == Some(left[j]));
                    assert(self.value_at(t, j, row + 2) == Some(right[j]));
                } else if 4 + n <= k {
                    let j = k - 4 - n;
                    assert(copy_value(
                        copy,
                        index,
                        prev_left[j],
                        left[j],
                        prev_right[j],
                        right[j],
                    ) == 0);
                    assert(self.value_at(t, j, row - 2) == Some(prev_left[j]));
                    assert(self.value_at(t, j, row - 1) == Some(prev_right[j]));
                    assert(self.value_at(t, j, row + 1) == Some(left[j]));
                    assert(self.value_at(t, j, row + 2) == Some(right[j]));
                }
            }
        }
    }

    /// On rows that hold the two leaves and the chosen one, with the copy flag
    /// clear, the selection gate holds exactly when the values are in the
    /// leaves' relation.
    pub proof fn lemma_pub_gate(
        &self,
        t: Table,
        row: int,
        index: nat,
        left: Seq<nat>,
        right: Seq<nat>,
        chosen: Seq<nat>,
    )
        requires
            self.copy_at(t, row) == Some(0nat),
            self.index_at(t, row) == Some(index),
            self.node_loaded(t, row - 2, left),
            self.node_loaded(t, row - 1, right),
            self.node_loaded(t, row, chosen),
        ensures
            self.pub_gate(t, row) <==> leaf_relation(index, left, right, chosen),
    {
        let n = self.size();
        if self.pub_gate(t, row) {
            assert(self.pub_identity(t, row, 0) == Some(0nat));
            assert forall|j: int| 0 <= j < chosen.len() implies #[trigger] select_value(
                index,
                left[j],
                right[j],
                chosen[j],
            ) == 0 by {
                assert(self.pub_identity(t, row, 2 + j) == Some(0nat));
                assert(self.value_at(t, j, row - 2) == Some(left[j]));
                assert(self.value_at(t, j, row - 1) == Some(right[j]));
                assert(self.value_at(t, j, row) == Some(chosen[j]));
            }
        }
        if leaf_relation(index, left, right, chosen) {
            assert forall|k: int| 0 <= k < 2 + n implies #[trigger] self.pub_identity(t, row, k)
                == Some(0nat) by {
                if 2 <= k {
                    let j = k - 2;
                    assert(select_value(index, left[j], right[j], chosen[j]) == 0);
                    assert(self.value_at(t, j, row - 2) == Some(left[j]));
                    assert(self.value_at(t, j, row - 1) == Some(right[j]));
                    assert(self.value_at(t, j, row) == Some(chosen[j]));
                }
            }
        }
    }

    /// The table has the chip's columns: the value columns and the column of
    /// the index flag take advice, the column of the copy flag was allocated,
    /// and the instance column takes public inputs.
    pub open spec fn wired(&self, t: Table) -> bool {
        &&& columns_take(t, advice_indices(self.value@), self.size())
        &&& t.takes_advice(self.index_flag.index as int)
        &&& self.copy_flag.index < t.num_advice
        &&& t.takes_instance(self.public.index as int)
    }

    /// Whether a table has the chip's columns depends on its columns only.
    pub proof fn lemma_shape(&self, a: Table, b: Table)
        requires
            a.num_advice == b.num_advice,
            a.num_fixed == b.num_fixed,
            a.num_instance == b.num_instance,
            a.equality == b.equality,
        ensures
            self.wired(a) == self.wired(b),
    {
        let cols = advice_indices(self.value@);
        assert forall|c: int| #[trigger] a.takes_advice(c) == b.takes_advice(c) by {}
        if self.wired(a) {
            assert forall|j: int| 0 <= j < self.size()
                implies b.takes_advice(#[trigger] cols[j]) by {
                assert(a.takes_advice(cols[j]));
            }
        }
        if self.wired(b) {
            assert forall|j: int| 0 <= j < self.size()
                implies a.takes_advice(#[trigger] cols[j]) by {
                assert(b.takes_advice(cols[j]));
            }
        }
    }

    /// A table that extends one that has the chip's columns has them.
    pub proof fn lemma_wired(&self, old: Table, t: Table)
        requires
            t.extends(old),
            self.wired(old),
        ensures
            self.wired(t),
    {
        lemma_take_extend(old, t, advice_indices(self.value@), self.size());
        crate::plonk::lemma_columns_extend(old, t);
    }

    /// The indices of the value columns differ from one another.
    pub proof fn lemma_columns(&self)
        requires
            self.wf(),
        ensures
            distinct(advice_indices(self.value@)),
    {
        let cols = advice_indices(self.value@);
        assert forall|j: int, k: int|
            0 <= j < cols.len() && 0 <= k < cols.len() && j != k implies #[trigger] cols[j]
            != #[trigger] cols[k] by {
            assert(self.value@[j].index != self.value@[k].index);
        }
    }

    /// On a table with the chip's gates, each of the two holds on a row
    /// exactly when its identities are zero there.
    pub proof fn lemma_gates(&self, t: Table, row: int)
        requires
            self.installed(t.gates),
        ensures
            t.gate_holds(self.s_hash.index as int, row) <==> self.hash_gate(t, row),
            t.gate_holds(self.s_pub.index as int, row) <==> self.pub_gate(t, row),
    {
        let hp = t.gates[self.s_hash.index as int];
        let pp = t.gates[self.s_pub.index as int];
        if self.hash_gate(t, row) {
            assert forall|k: int| 0 <= k < hp.len() implies (#[trigger] hp[k]).eval(t, row) == Some(
                0nat,
            ) by {
                assert(hp[k].eval(t, row) == self.hash_identity(t, row, k));
            }
        }
        if t.gate_holds(self.s_hash.index as int, row) {
            assert forall|k: int| 0 <= k < 4 + 2 * self.size()
                implies #[trigger] self.hash_identity(
                t,
                row,
                k,
            ) == Some(0nat) by {
                assert(hp[k].eval(t, row) == self.hash_identity(t, row, k));
            }
        }
        if self.pub_gate(t, row) {
            assert forall|k: int| 0 <= k < pp.len() implies (#[trigger] pp[k]).eval(t, row) == Some(
                0nat,
            ) by {
                assert(pp[k].eval(t, row) == self.pub_identity(t, row, k));
            }
        }
        if t.gate_holds(self.s_pub.index as int, row) {
            assert forall|k: int| 0 <= k < 2 + self.size() implies #[trigger] self.pub_identity(
                t,
                row,
                k,
            ) == Some(0nat) by {
                assert(pp[k].eval(t, row) == self.pub_identity(t, row, k));
            }
        }
    }

    /// A row that holds a node holds it on every table that extends the table.
    pub proof fn lemma_node_loaded_extends(&self, old: Table, new: Table, row: int, node: Seq<nat>)
        requires
            new.extends(old),
            self.node_loaded(old, row, node),
        ensures
            self.node_loaded(new, row, node),
    {
        assert forall|j: int| 0 <= j < self.size() implies #[trigger] self.value_at(new, j, row)
            == Some(node[j]) by {
            assert(self.value_at(old, j, row) == Some(node[j]));
            assert(old.advice.contains_key((self.value@[j].index as int, row)));
        }
    }

    /// Rows that hold a level hold it on every table that extends the table.
    pub proof fn lemma_rows_loaded_extends(
        &self,
        old: Table,
        new: Table,
        row: int,
        left: Seq<nat>,
        right: Seq<nat>,
        hash: Seq<nat>,
        copy: nat,
        index: nat,
    )
        requires
            new.extends(old),
            self.rows_loaded(old, row, left, right, hash, copy, index),
        ensures
            self.rows_loaded(new, row, left, right, hash, copy, index),
    {
        self.lemma_node_loaded_extends(old, new, row, left);
        self.lemma_node_loaded_extends(old, new, row + 1, right);
        self.lemma_node_loaded_extends(old, new, row + 2, hash);
        assert(old.advice.contains_key((self.copy_flag.index as int, row + 2)));
        assert(old.advice.contains_key((self.index_flag.index as int, row + 2)));
    }

    /// The rows around the hash row of level `k` of a path laid out from row
    /// `s` on hold the level and the next, with their flags.
    pub open spec fn path_level_loaded(
        &self,
        t: Table,
        s: int,
        left: Seq<Seq<nat>>,
        right: Seq<Seq<nat>>,
        hash: Seq<Seq<nat>>,
        copy: Seq<nat>,
        index: Seq<nat>,
        m: int,
        k: int,
    ) -> bool {
        &&& t.enabled.contains((self.s_hash.index as int, s + 3 * k + 2))
        &&& self.level_loaded(
            t,
            s + 3 * k + 2,
            copy[k],
            if k + 1 < m {
                copy[k + 1]
            } else {
                1
            },
            if k + 1 < m {
                index[k + 1]
            } else {
                0
            },
            left[k],
            right[k],
            hash[k],
            left[k + 1],
            if k + 1 < m {
                right[k + 1]
            } else {
                left[m]
            },
        )
    }

    /// Rows that hold a level and the next hold them on every table that
    /// extends the table, and there the placement gate holds on the level's
    /// hash row exactly when the level is in its relation.
    pub proof fn lemma_path_level(
        &self,
        old: Table,
        t: Table,
        s: int,
        left: Seq<Seq<nat>>,
        right: Seq<Seq<nat>>,
        hash: Seq<Seq<nat>>,
        copy: Seq<nat>,
        index: Seq<nat>,
        m: int,
        k: int,
    )
        requires
            t.extends(old),
            self.installed(old.gates),
            self.path_level_loaded(old, s, left, right, hash, copy, index, m, k),
        ensures
            self.path_level_loaded(t, s, left, right, hash, copy, index, m, k),
            t.gate_holds(self.s_hash.index as int, s + 3 * k + 2) <==> path_level(
                left,
                right,
                hash,
                copy,
                index,
                m,
                k,
            ),
    {
        let row = s + 3 * k + 2;
        let above = if k + 1 < m {
            right[k + 1]
        } else {
            left[m]
        };
        let next = if k + 1 < m {
            copy[k + 1]
        } else {
            1
        };
        let x = if k + 1 < m {
            index[k + 1]
        } else {
            0
        };
        self.lemma_node_loaded_extends(old, t, row - 2, left[k]);
        self.lemma_node_loaded_extends(old, t, row - 1, right[k]);
        self.lemma_node_loaded_extends(old, t, row, hash[k]);
        self.lemma_node_loaded_extends(old, t, row + 1, left[k + 1]);
        self.lemma_node_loaded_extends(old, t, row + 2, above);
        assert(old.advice.contains_key((self.copy_flag.index as int, row)));
        assert(old.advice.contains_key((self.copy_flag.index as int, row + 3)));
        assert(old.advice.contains_key((self.index_flag.index as int, row)));
        self.lemma_hash_gate(t, row, copy[k], next, x, left[k], right[k], hash[k], left[k + 1],
            above);
        self.lemma_gates(t, row);
    }

    /// On every table that extends one whose rows hold the two leaves and the
    /// chosen one, with the copy flag clear, the selection gate holds exactly
    /// when the values are in the leaves' relation.
    pub proof fn lemma_leaves(
        &self,
        old: Table,
        t: Table,
        row: int,
        index: nat,
        left: Seq<nat>,
        right: Seq<nat>,
        chosen: Seq<nat>,
    )
        requires
            t.extends(old),
            self.installed(old.gates),
            self.copy_at(old, row) == Some(0nat),
            self.index_at(old, row) == Some(index),
            self.node_loaded(old, row - 2, left),
            self.node_loaded(old, row - 1, right),
            self.node_loaded(old, row, chosen),
        ensures
            t.gate_holds(self.s_pub.index as int, row) <==> leaf_relation(
                index,
                left,
                right,
                chosen,
            ),
    {
        self.lemma_node_loaded_extends(old, t, row - 2, left);
        self.lemma_node_loaded_extends(old, t, row - 1, right);
        self.lemma_node_loaded_extends(old, t, row, chosen);
        assert(old.advice.contains_key((self.copy_flag.index as int, row)));
        assert(old.advice.contains_key((self.index_flag.index as int, row)));
        self.lemma_pub_gate(t, row, index, left, right, chosen);
        self.lemma_gates(t, row);
    }

    /// The gates that the selectors enable are the chip's two gates.
    pub open spec fn installed(&self, gates: Seq<Seq<Expression>>) -> bool {
        &&& self.s_hash.index < gates.len()
        &&& self.s_pub.index < gates.len()
        &&& self.s_hash.index != self.s_pub.index
        &&& gates[self.s_hash.index as int].len() == 4 + 2 * self.size()
        &&& gates[self.s_pub.index as int].len() == 2 + self.size()
        &&& forall|k: int, t: Table, row: int|
            0 <= k < 4 + 2 * self.size() ==> (#[trigger] gates[self.s_hash.index as int][k].eval(
                t,
                row,
            )) == self.hash_identity(t, row, k)
        &&& forall|k: int, t: Table, row: int|
            0 <= k < 2 + self.size() ==> (#[trigger] gates[self.s_pub.index as int][k].eval(t, row))
                == self.pub_identity(t, row, k)
    }
}

/// `v * (1 - v)`.
fn bool_constraint(v: &Expression) -> (r: Expression)
    ensures
        forall|t: Table, row: int| #[trigger] r.eval(t, row) == bit_poly(v.eval(t, row)),
{
    let one = Expression::constant(Fe::one());
    Expression::product(v.duplicate(), Expression::difference(one, v.duplicate()))
}

/// `before * (1 - after)`.
fn copy_flag_constraint(before: &Expression, after: &Expression) -> (r: Expression)
    ensures
        forall|t: Table, row: int| #[trigger]
            r.eval(t, row) == flag_poly(before.eval(t, row), after.eval(t, row)),
{
    let one = Expression::constant(Fe::one());
    Expression::product(before.duplicate(), Expression::difference(one, after.duplicate()))
}

/// `1 - v`.
fn complement(v: &Expression) -> (r: Expression)
    ensures
        forall|t: Table, row: int| #[trigger] r.eval(t, row) == osub(Some(1nat), v.eval(t, row)),
{
    let one = Expression::constant(Fe::one());
    Expression::difference(one, v.duplicate())
}

/// The columns of a node on the row at the rotation.
fn query_values(value: &Vec<Advice>, rotation: i32) -> (r: Vec<Expression>)
    ensures
        r@.len() == value@.len(),
        forall|j: int, t: Table, row: int|
            0 <= j < r@.len() ==> (#[trigger] r@[j].eval(t, row)) == t.advice_at(
                value@[j].index as int,
                row + rotation,
            ),
{
    let mut r: Vec<Expression> = Vec::new();
    let mut j: usize = 0;
    while j < value.len()
        invariant
            j <= value@.len(),
            r@.len() == j,
            forall|i: int, t: Table, row: int|
                0 <= i < r@.len() ==> (#[trigger] r@[i].eval(t, row)) == t.advice_at(
                    value@[i].index as int,
                    row + rotation,
                ),
        decreases value@.len() - j,
    {
        r.push(Expression::advice(value[j], Rotation(rotation)));
        j = j + 1;
    }
    r
}

/// What a Merkle path chip does: it lays out a path, the leaves with the
/// chosen one, and binds a node to the public inputs.
pub trait MerklePathInstruction {
    /// The chip's configuration.
    spec fn view(&self) -> MerklePathConfig;

    /// Lays out a path of `m` levels, three rows for each, and the root on two
    /// rows below them, and enables the placement gate on the hash row of each
    /// level. The index flags of the levels above the leaves are the public
    /// inputs that follow the public leaf and its index flag; the hash of the
    /// last level stands on the left of the root. Returns the root's cells.
    ///
    /// The table stays satisfied exactly when the path is in `path_relation`.
    /// `n`, the number of levels that are not padding, does not change what
    /// is laid out: which levels copy is what `copy` says.
    fn load_path(
        &self,
        layouter: &mut Layouter,
        left: Vec<Vec<AssignedCell>>,
        right: Vec<Vec<AssignedCell>>,
        hash: Vec<Vec<AssignedCell>>,
        copy: &Vec<Fe>,
        m: usize,
        n: usize,
    ) -> (root: Node)
        requires
            self@.wf(),
            self@.installed(old(layouter)@.gates),
            m + 1 == right@.len(),
            m + 1 == left@.len(),
            m + 1 == copy@.len(),
            m == hash@.len(),
            n <= m,
            1 <= m,
            forall|a: int| 0 <= a <= m ==> (#[trigger] left@[a]@).len() == self@.size(),
            forall|a: int, j: int|
                0 <= a <= m && 0 <= j < self@.size()
                    ==> (#[trigger] left@[a]@[j]).held_by(old(layouter)@),
            forall|a: int| 0 <= a <= m ==> (#[trigger] right@[a]@).len() == self@.size(),
            forall|a: int, j: int|
                0 <= a <= m && 0 <= j < self@.size()
                    ==> (#[trigger] right@[a]@[j]).held_by(old(layouter)@),
            forall|a: int| 0 <= a < m ==> (#[trigger] hash@[a]@).len() == self@.size(),
            forall|a: int, j: int|
                0 <= a < m && 0 <= j < self@.size()
                    ==> (#[trigger] hash@[a]@[j]).held_by(old(layouter)@),
            old(layouter)@.rows + 3 * m + 3 < usize::MAX,
            self@.size() + m <= usize::MAX,
        ensures
            root.0@.len() == self@.size(),
            forall|j: int|
                0 <= j < self@.size() ==> #[trigger] root.0@[j] == (AssignedCell {
                    column: self@.value@[j],
                    row: (old(layouter)@.rows + 3 * m) as usize,
                    value: left@[m as int]@[j].value,
                }) && root.0@[j].held_by(final(layouter)@),
            final(layouter)@.extends(old(layouter)@),
            final(layouter)@.rows == old(layouter)@.rows + 3 * m + 3,
            forall|k: int|
                0 <= k < m ==> #[trigger] self@.path_level_loaded(
                    final(layouter)@,
                    old(layouter)@.rows as int,
                    node_values(left@),
                    node_values(right@),
                    node_values(hash@),
                    values(copy@),
                    self@.public_values(old(layouter)@, self@.size(), m as int),
                    m as int,
                    k,
                ),
            forall|g: int, r: int| #[trigger]
                final(layouter)@.enabled.contains((g, r)) && !old(layouter)@.enabled.contains(
                    (g, r),
                ) ==> g == self@.s_hash.index && old(layouter)@.rows <= r < old(layouter)@.rows + 3
                    * m && (r - old(layouter)@.rows) % 3 == 2,
            old(layouter)@.satisfied() ==> (final(layouter)@.satisfied() <==> path_relation(
                node_values(left@),
                node_values(right@),
                node_values(hash@),
                values(copy@),
                self@.public_values(old(layouter)@, self@.size(), m as int),
                m as int,
            )),
            forall|t: Table| #[trigger]
                t.extends(final(layouter)@) && t.satisfied() ==> path_relation(
                    node_values(left@),
                    node_values(right@),
                    node_values(hash@),
                    values(copy@),
                    self@.public_values(old(layouter)@, self@.size(), m as int),
                    m as int,
                ),
            old(layouter)@.supported() && self@.wired(old(layouter)@)
                && nodes_tied(old(layouter)@, left@) && nodes_tied(old(layouter)@, right@)
                && nodes_tied(old(layouter)@, hash@) ==> final(layouter)@.supported(),
            self@.wired(old(layouter)@) ==> cells_tied(final(layouter)@, root.0@),
    ;

    /// Lays out the two leaves and, below them, the chosen leaf taken from the
    /// first public inputs, with the index flag taken from the public input
    /// that follows them, and enables the selection gate on the chosen leaf's
    /// row. The table stays satisfied exactly when the public leaf is the one
    /// of the two that the public index points to.
    fn load_leaves(
        &self,
        layouter: &mut Layouter,
        left: Vec<AssignedCell>,
        right: Vec<AssignedCell>,
    )
        requires
            self@.wf(),
            self@.installed(old(layouter)@.gates),
            left@.len() == self@.size(),
            right@.len() == self@.size(),
            forall|j: int| 0 <= j < left@.len() ==> (#[trigger] left@[j]).held_by(old(layouter)@),
            forall|j: int| 0 <= j < right@.len() ==> (#[trigger] right@[j]).held_by(old(layouter)@),
            old(layouter)@.rows + 3 <= usize::MAX,
        ensures
            final(layouter)@.extends(old(layouter)@),
            final(layouter)@.rows == old(layouter)@.rows + 3,
            final(layouter)@.enabled == old(layouter)@.enabled.insert(
                (self@.s_pub.index as int, (old(layouter)@.rows + 2) as int),
            ),
            self@.node_loaded(final(layouter)@, old(layouter)@.rows as int, cell_values(left@)),
            self@.node_loaded(
                final(layouter)@,
                (old(layouter)@.rows + 1) as int,
                cell_values(right@),
            ),
            self@.node_loaded(
                final(layouter)@,
                (old(layouter)@.rows + 2) as int,
                self@.public_values(old(layouter)@, 0, self@.size()),
            ),
            self@.index_at(final(layouter)@, (old(layouter)@.rows + 2) as int) == Some(
                old(layouter)@.instance_at(self@.public.index as int, self@.size()),
            ),
            self@.copy_at(final(layouter)@, (old(layouter)@.rows + 2) as int) == Some(0nat),
            old(layouter)@.satisfied() ==> (final(layouter)@.satisfied() <==> leaf_relation(
                old(layouter)@.instance_at(self@.public.index as int, self@.size()),
                cell_values(left@),
                cell_values(right@),
                self@.public_values(old(layouter)@, 0, self@.size()),
            )),
            forall|t: Table| #[trigger]
                t.extends(final(layouter)@) && t.satisfied() ==> leaf_relation(
                    old(layouter)@.instance_at(self@.public.index as int, self@.size()),
                    cell_values(left@),
                    cell_values(right@),
                    self@.public_values(old(layouter)@, 0, self@.size()),
                ),
            old(layouter)@.supported() && self@.wired(old(layouter)@)
                && cells_tied(old(layouter)@, left@) && cells_tied(old(layouter)@, right@)
                ==> final(layouter)@.supported(),
    ;

    /// Binds the cells of a node to the public inputs from `row` on. The table
    /// stays satisfied exactly when those public inputs are the node's values.
    fn expose_public(&self, layouter: &mut Layouter, num: Node, row: usize)
        requires
            row + num.0@.len() <= usize::MAX,
            forall|j: int| 0 <= j < num.0@.len() ==> (#[trigger] num.0@[j]).held_by(old(layouter)@),
        ensures
            final(layouter)@ == (Table {
                exposed: old(layouter)@.exposed + node_exposures(
                    num.0@,
                    self@.public.index as int,
                    row as int,
                ),
                ..old(layouter)@
            }),
            final(layouter)@.extends(old(layouter)@),
            final(layouter)@.rows == old(layouter)@.rows,
            old(layouter)@.satisfied() ==> (final(layouter)@.satisfied() <==> cell_values(num.0@)
                == self@.public_values(old(layouter)@, row as int, num.0@.len() as int)),
            forall|t: Table| #[trigger]
                t.extends(final(layouter)@) && t.satisfied() ==> cell_values(num.0@)
                    == self@.public_values(old(layouter)@, row as int, num.0@.len() as int),
            old(layouter)@.supported() && self@.wired(old(layouter)@)
                && cells_tied(old(layouter)@, num.0@) ==> final(layouter)@.supported(),
    ;
}

/// The chip that checks a Merkle path.
pub struct MerklePathChip {
    pub config: MerklePathConfig,
}

impl MerklePathChip {
    /// The chip for a configuration.
    pub fn new(config: MerklePathConfig) -> (r: MerklePathChip)
        ensures
            r@ == config,
    {
        MerklePathChip { config }
    }

    /// The configuration of the chip.
    pub fn config(&self) -> (r: &MerklePathConfig)
        ensures
            *r == self@,
    {
        &self.config
    }

    /// What the chip loads at the start of a circuit: nothing.
    pub fn loaded(&self) {
    }

    /// Declares the chip's two gates over the given columns: the placement
    /// gate with identities `hash_identity`, and the selection gate with
    /// identities `pub_identity`.
    pub fn configure(
        meta: &mut ConstraintSystem,
        value: Vec<Advice>,
        copy_flag: Advice,
        index_flag: Advice,
        public: Instance,
    ) -> (config: MerklePathConfig)
        requires
            value@.len() + value@.len() + 4 <= usize::MAX,
        ensures
            config.value == value,
            config.copy_flag == copy_flag,
            config.index_flag == index_flag,
            config.public == public,
            config.s_hash.index == old(meta).gates@.len(),
            config.s_pub.index == old(meta).gates@.len() + 1,
            final(meta).polys().len() == old(meta).polys().len() + 2,
            old(meta).polys().is_prefix_of(final(meta).polys()),
            config.installed(final(meta).polys()),
            final(meta).num_advice == old(meta).num_advice,
            final(meta).num_fixed == old(meta).num_fixed,
            final(meta).num_instance == old(meta).num_instance,
            final(meta).equality@.len() == old(meta).equality@.len() + value@.len() + 1,
            old(meta).equality@.is_prefix_of(final(meta).equality@),
            forall|j: int|
                0 <= j < value@.len() ==> #[trigger] final(meta).equality@[old(meta).equality@.len()
                    + j] == Column::Advice(value@[j]),
            final(meta).equality@[(old(meta).equality@.len() + value@.len()) as int]
                == Column::Advice(
                index_flag,
            ),
            crate::circuit::columns_within(
                advice_indices(value@),
                value@.len() as int,
                old(meta).num_advice as int,
            ) && index_flag.index < old(meta).num_advice ==> columns_take(
                final(meta).table(Seq::empty()),
                advice_indices(value@),
                value@.len() as int,
            ) && final(meta).table(Seq::empty()).takes_advice(index_flag.index as int),
    {
        let size = value.len();
        let mut i: usize = 0;
        while i < size
            invariant
                i <= size,
                size == value@.len(),
                meta.gates == old(meta).gates,
                meta.num_advice == old(meta).num_advice,
                meta.num_fixed == old(meta).num_fixed,
                meta.num_instance == old(meta).num_instance,
                meta.equality@.len() == old(meta).equality@.len() + i,
                old(meta).equality@.is_prefix_of(meta.equality@),
                forall|j: int|
                    0 <= j < i ==> #[trigger] meta.equality@[old(meta).equality@.len() + j]
                        == Column::Advice(value@[j]),
            decreases size - i,
        {
            meta.enable_equality(Column::Advice(value[i]));
            i = i + 1;
        }
        meta.enable_equality(Column::Advice(index_flag));

        let draft = MerklePathConfig {
            value,
            copy_flag,
            index_flag,
            public,
            s_hash: Selector { index: 0 },
            s_pub: Selector { index: 0 },
        };
        let hash_polys = draft.hash_polys();
        let pub_polys = draft.pub_polys();
        let ghost before = meta.polys();
        let s_hash = meta.create_gate("Copy_Hash", hash_polys);
        let s_pub = meta.create_gate("PUB_SELECT", pub_polys);
        let config = MerklePathConfig { s_hash, s_pub, ..draft };
        proof {
            assert(before =~= old(meta).polys());
            assert forall|k: int, t: Table, row: int| 0 <= k < 4 + 2 * config.size() implies (
            #[trigger] meta.polys()[config.s_hash.index as int][k].eval(t, row))
                == config.hash_identity(t, row, k) by {
                assert(draft.hash_identity(t, row, k) == config.hash_identity(t, row, k));
            }
            assert forall|k: int, t: Table, row: int| 0 <= k < 2 + config.size() implies (
            #[trigger] meta.polys()[config.s_pub.index as int][k].eval(t, row))
                == config.pub_identity(t, row, k) by {
                assert(draft.pub_identity(t, row, k) == config.pub_identity(t, row, k));
            }
            let t = meta.table(Seq::empty());
            let first = old(meta).equality@.len() as int;
            let cols = advice_indices(config.value@);
            if crate::circuit::columns_within(cols, config.size(), old(meta).num_advice as int)
                && index_flag.index < old(meta).num_advice {
                assert forall|j: int| 0 <= j < config.size() implies t.takes_advice(
                    #[trigger] cols[j],
                ) by {
                    assert(t.equality[first + j] == Column::Advice(config.value@[j]));
                }
                assert(t.equality[first + config.size()] == Column::Advice(index_flag));
                assert(t.takes_advice(index_flag.index as int));
            }
        }
        config
    }
}

impl MerklePathInstruction for MerklePathChip {
    open spec fn view(&self) -> MerklePathConfig {
        self.config
    }

    fn load_path(
        &self,
        layouter: &mut Layouter,
        left: Vec<Vec<AssignedCell>>,
        right: Vec<Vec<AssignedCell>>,
        hash: Vec<Vec<AssignedCell>>,
        copy: &Vec<Fe>,
        m: usize,
        n: usize,
    ) -> (root: Node)
    {
        let config = &self.config;
        let size = config.value.len();
        let ghost t0 = layouter@;
        let ghost s = t0.rows as int;
        let ghost lv = node_values(left@);
        let ghost rv = node_values(right@);
        let ghost hv = node_values(hash@);
        let ghost cv = values(copy@);
        let ghost xv = config.public_values(t0, config.size(), m as int);
        layouter.start_region();
        let mut i: usize = 0;
        while i < m
            invariant
                i <= m,
                1 <= m,
                *config == self@,
                size == config.size(),
                config.wf(),
                m + 1 == right@.len(),
                m + 1 == left@.len(),
                m + 1 == copy@.len(),
                m == hash@.len(),
                forall|a: int| 0 <= a <= m ==> (#[trigger] left@[a]@).len() == config.size(),
            forall|a: int, j: int|
                0 <= a <= m && 0 <= j < config.size() ==> (#[trigger] left@[a]@[j]).held_by(t0),
                forall|a: int| 0 <= a <= m ==> (#[trigger] right@[a]@).len() == config.size(),
            forall|a: int, j: int|
                0 <= a <= m && 0 <= j < config.size() ==> (#[trigger] right@[a]@[j]).held_by(t0),
                forall|a: int| 0 <= a < m ==> (#[trigger] hash@[a]@).len() == config.size(),
            forall|a: int, j: int|
                0 <= a < m && 0 <= j < config.size() ==> (#[trigger] hash@[a]@[j]).held_by(t0),
                s + 3 * m + 3 < usize::MAX,
                size + m <= usize::MAX,
                t0 == old(layouter)@,
                s == t0.rows,
                lv == node_values(left@),
                rv == node_values(right@),
                hv == node_values(hash@),
                cv == values(copy@),
                xv == config.public_values(t0, config.size(), m as int),
                layouter.start() == s,
                layouter@.extends(t0),
                layouter@.rows == s + 3 * i,
                config.installed(t0.gates),
                t0.supported() && config.wired(t0) && nodes_tied(t0, left@) && nodes_tied(
                    t0,
                    right@,
                ) && nodes_tied(t0, hash@) ==> layouter@.supported(),
                forall|k: int|
                    0 <= k < i ==> #[trigger] config.path_rows_loaded(
                        layouter@,
                        s,
                        lv,
                        rv,
                        hv,
                        cv,
                        xv,
                        m as int,
                        k,
                    ),
                forall|g: int, r: int| #[trigger]
                    layouter@.enabled.contains((g, r)) && !t0.enabled.contains((g, r)) ==> g
                        == config.s_hash.index && s <= r < s + 3 * i && (r - s) % 3 == 2,
                forall|k: int|
                    t0.copies.len() <= k < layouter@.copies.len()
                        ==> #[trigger] layouter@.copy_holds(
                        k,
                    ),
                forall|k: int|
                    t0.exposed.len() <= k < layouter@.exposed.len()
                        ==> #[trigger] layouter@.exposure_holds(k),
            decreases m - i,
        {
            let ghost before = layouter@;
            let cur_pos = i * 3;
            let index = if i + 1 < m {
                Some(size + i + 1)
            } else {
                None
            };
            proof {
                assert(left@[i as int]@.len() == config.size());
                assert(right@[i as int]@.len() == config.size());
                assert(hash@[i as int]@.len() == config.size());
                assert forall|j: int| 0 <= j < left@[i as int]@.len() implies (
                #[trigger] left@[i as int]@[j]).held_by(before) by {
                    assert(left@[i as int]@[j].held_by(t0));
                    assert(t0.advice.contains_key(left@[i as int]@[j].key()));
                }
                assert forall|j: int| 0 <= j < right@[i as int]@.len() implies (
                #[trigger] right@[i as int]@[j]).held_by(before) by {
                    assert(right@[i as int]@[j].held_by(t0));
                    assert(t0.advice.contains_key(right@[i as int]@[j].key()));
                }
                assert forall|j: int| 0 <= j < hash@[i as int]@.len() implies (
                #[trigger] hash@[i as int]@[j]).held_by(before) by {
                    assert(hash@[i as int]@[j].held_by(t0));
                    assert(t0.advice.contains_key(hash@[i as int]@[j].key()));
                }
            }
            proof {
                if config.wired(t0) && nodes_tied(t0, left@) && nodes_tied(t0, right@)
                    && nodes_tied(t0, hash@) {
                    config.lemma_wired(t0, before);
                    assert(cells_tied(t0, left@[i as int]@));
                    assert(cells_tied(t0, right@[i as int]@));
                    assert(cells_tied(t0, hash@[i as int]@));
                    lemma_take_extend(t0, before, advice_indices(config.value@), config.size());
                }
            }
            config.load_level(layouter, &left[i], &right[i], &hash[i], copy[i], index, cur_pos);
            proof {
                let now = layouter@;
                lemma_extends_trans(t0, before, now);
                lemma_constraints_extend(before, now);
                assert forall|k: int| 0 <= k < i + 1 implies #[trigger] config.path_rows_loaded(
                    now,
                    s,
                    lv,
                    rv,
                    hv,
                    cv,
                    xv,
                    m as int,
                    k,
                ) by {
                    if k < i {
                        assert(config.path_rows_loaded(before, s, lv, rv, hv, cv, xv, m as int, k));
                        config.lemma_rows_loaded_extends(
                            before,
                            now,
                            s + 3 * k,
                            lv[k],
                            rv[k],
                            hv[k],
                            cv[k],
                            if k + 1 < m {
                                xv[k + 1]
                            } else {
                                0
                            },
                        );
                    } else {
                        assert(lv[k] == cell_values(left@[k]@));
                        assert(rv[k] == cell_values(right@[k]@));
                        assert(hv[k] == cell_values(hash@[k]@));
                        assert(cv[k] == copy@[k]@);
                        if k + 1 < m {
                            assert(xv[k + 1] == t0.instance_at(
                                config.public.index as int,
                                config.size() + k + 1,
                            ));
                            assert(before.instance == t0.instance);
                        }
                    }
                }
                assert forall|k: int| t0.copies.len() <= k < now.copies.len()
                    implies #[trigger] now.copy_holds(
                    k,
                ) by {
                    if k < before.copies.len() {
                        assert(before.copy_holds(k));
                    }
                }
                assert forall|k: int|
                    t0.exposed.len() <= k < now.exposed.len() implies #[trigger] now.exposure_holds(
                    k,
                ) by {
                    if k < before.exposed.len() {
                        assert(before.exposure_holds(k));
                    }
                }
            }
            i = i + 1;
        }
        let cur_pos = m * 3;
        let ghost t1 = layouter@;
        proof {
            assert(left@[m as int]@.len() == config.size());
            assert forall|j: int| 0 <= j < left@[m as int]@.len() implies (
            #[trigger] left@[m as int]@[j]).held_by(t1) by {
                assert(left@[m as int]@[j].held_by(t0));
                assert(t0.advice.contains_key(left@[m as int]@[j].key()));
            }
        }
        proof {
            if config.wired(t0) && nodes_tied(t0, left@) {
                config.lemma_wired(t0, t1);
                assert(cells_tied(t0, left@[m as int]@));
                lemma_take_extend(t0, t1, advice_indices(config.value@), config.size());
            }
        }
        let root = config.copy_node(layouter, &left[m], cur_pos);
        let ghost t2 = layouter@;
        proof {
            lemma_extends_trans(t0, t1, t2);
            if config.wired(t0) && nodes_tied(t0, left@) {
                config.lemma_wired(t0, t2);
                lemma_take_extend(t0, t2, advice_indices(config.value@), config.size());
            }
        }
        proof {
            assert forall|j: int| 0 <= j < left@[m as int]@.len() implies (
            #[trigger] left@[m as int]@[j]).held_by(t2) by {
                assert(left@[m as int]@[j].held_by(t0));
                assert(t0.advice.contains_key(left@[m as int]@[j].key()));
                lemma_extends_trans(t0, t1, t2);
            }
        }
        config.copy_node(layouter, &left[m], cur_pos + 1);
        let ghost t3 = layouter@;
        proof {
            layouter.lemma_view_wf();
            assert(t3.advice_at(config.copy_flag.index as int, s + 3 * m + 2) is None);
        }
        proof {
            lemma_extends_trans(t0, t2, t3);
            if config.wired(t0) {
                config.lemma_wired(t0, t3);
            }
        }
        layouter.assign_advice(config.copy_flag, cur_pos + 2, Fe::one());
        proof {
            let t4 = layouter@;
            let top = lv[m as int];
            if config.wired(t0) {
                lemma_extends_trans(t0, t3, t4);
                config.lemma_wired(t0, t4);
                assert forall|j: int| 0 <= j < root@.len() implies t4.advice_tied(
                    (#[trigger] root@[j]).column.index as int,
                ) by {
                    assert(t4.takes_advice(advice_indices(config.value@)[j]));
                }
            }
            lemma_extends_trans(t0, t1, t2);
            lemma_extends_trans(t0, t2, t3);
            lemma_extends_trans(t0, t3, t4);
            lemma_extends_trans(t1, t2, t3);
            lemma_extends_trans(t1, t3, t4);
            lemma_extends_trans(t2, t3, t4);
            lemma_constraints_extend(t1, t4);
            lemma_constraints_extend(t2, t4);
            lemma_constraints_extend(t3, t4);
            assert(top == cell_values(left@[m as int]@));
            config.lemma_node_loaded_extends(t2, t4, s + 3 * m, top);
            config.lemma_node_loaded_extends(t3, t4, s + 3 * m + 1, top);
            assert forall|k: int| t0.copies.len() <= k < t4.copies.len()
                implies #[trigger] t4.copy_holds(
                k,
            ) by {
                if k < t1.copies.len() {
                    assert(t1.copy_holds(k));
                } else if k < t2.copies.len() {
                    assert(t2.copy_holds(k));
                } else {
                    assert(t3.copy_holds(k));
                }
            }
            assert forall|k: int| t0.exposed.len() <= k < t4.exposed.len()
                implies #[trigger] t4.exposure_holds(
                k,
            ) by {
                assert(t1.exposure_holds(k));
            }
            assert forall|j: int| 0 <= j < config.size() implies (#[trigger] root@[j]).held_by(
                t4,
            ) by {
                assert(root@[j].held_by(t2));
                assert(t2.advice.contains_key(root@[j].key()));
            }
            // The rows around the hash row of each level.
            assert forall|k: int| 0 <= k < m implies #[trigger] config.path_level_loaded(
                t4,
                s,
                lv,
                rv,
                hv,
                cv,
                xv,
                m as int,
                k,
            ) by {
                assert(config.path_rows_loaded(t1, s, lv, rv, hv, cv, xv, m as int, k));
                let index = if k + 1 < m {
                    xv[k + 1]
                } else {
                    0
                };
                config.lemma_rows_loaded_extends(
                    t1,
                    t4,
                    s + 3 * k,
                    lv[k],
                    rv[k],
                    hv[k],
                    cv[k],
                    index,
                );
                if k + 1 < m {
                    assert(config.path_rows_loaded(t1, s, lv, rv, hv, cv, xv, m as int, k + 1));
                    let above = if k + 2 < m {
                        xv[k + 2]
                    } else {
                        0
                    };
                    config.lemma_rows_loaded_extends(
                        t1,
                        t4,
                        s + 3 * (k + 1),
                        lv[k + 1],
                        rv[k + 1],
                        hv[k + 1],
                        cv[k + 1],
                        above,
                    );
                }
            }
            assert forall|t: Table| #[trigger] t.extends(t4) && t.satisfied() implies path_relation(
                lv,
                rv,
                hv,
                cv,
                xv,
                m as int,
            ) by {
                assert forall|k: int| 0 <= k < m implies #[trigger] path_level(
                    lv,
                    rv,
                    hv,
                    cv,
                    xv,
                    m as int,
                    k,
                ) by {
                    assert(config.path_level_loaded(t4, s, lv, rv, hv, cv, xv, m as int, k));
                    config.lemma_path_level(t4, t, s, lv, rv, hv, cv, xv, m as int, k);
                    assert(t.enabled.contains((config.s_hash.index as int, s + 3 * k + 2)));
                }
            }
            lemma_extends_refl(t4);
            assert forall|g: int, r: int| #[trigger]
                t4.enabled.contains((g, r)) && !t0.enabled.contains((g, r)) implies g
                == config.s_hash.index && s <= r < s + 3 * m && (r - s) % 3 == 2 by {
                assert(t1.enabled.contains((g, r)));
            }
            if t0.satisfied() && path_relation(lv, rv, hv, cv, xv, m as int) {
                assert forall|g: int, r: int|
                    0 <= g < t4.gates.len() && #[trigger] t4.enabled.contains((g, r))
                        && !t0.enabled.contains((g, r)) implies t4.gate_holds(g, r) by {
                    assert(t1.enabled.contains((g, r)));
                    let k = (r - s) / 3;
                    assert(r == s + 3 * k + 2);
                    assert(path_level(lv, rv, hv, cv, xv, m as int, k));
                    assert(config.path_level_loaded(t4, s, lv, rv, hv, cv, xv, m as int, k));
                    config.lemma_path_level(t4, t4, s, lv, rv, hv, cv, xv, m as int, k);
                }
                lemma_satisfied_extends(t0, t4);
            }
        }
        Node(root)
    }

    fn load_leaves(
        &self,
        layouter: &mut Layouter,
        left: Vec<AssignedCell>,
        right: Vec<AssignedCell>,
    )
    {
        let config = &self.config;
        let size = config.value.len();
        let ghost t0 = layouter@;
        let ghost s = t0.rows as int;
        layouter.start_region();
        config.copy_node(layouter, &left, 0);
        let ghost t1 = layouter@;
        proof {
            if config.wired(t0) {
                config.lemma_wired(t0, t1);
                lemma_take_extend(t0, t1, advice_indices(config.value@), config.size());
            }
        }
        proof {
            assert forall|j: int| 0 <= j < right@.len() implies (#[trigger] right@[j]).held_by(
                t1,
            ) by {
                assert(right@[j].held_by(t0));
                assert(t0.advice.contains_key(right@[j].key()));
            }
        }
        config.copy_node(layouter, &right, 1);
        let ghost t2 = layouter@;
        proof {
            lemma_extends_trans(t0, t1, t2);
            if config.wired(t0) {
                config.lemma_wired(t0, t2);
            }
        }
        config.copy_public(layouter, 0, 2);
        let ghost t3 = layouter@;
        layouter.enable_selector(config.s_pub, 2);
        let ghost t4 = layouter@;
        proof {
            lemma_extends_trans(t0, t2, t3);
            lemma_extends_trans(t0, t3, t4);
            if config.wired(t0) {
                config.lemma_wired(t0, t3);
                config.lemma_wired(t0, t4);
            }
        }
        proof {
            assert(forall|j: int| 0 <= j < config.size() ==> config.index_flag.index != (
            #[trigger] config.value@[j]).index);
            assert(t3.advice_at(config.index_flag.index as int, s + 2) is None);
            assert(forall|j: int| 0 <= j < config.size() ==> config.copy_flag.index != (
            #[trigger] config.value@[j]).index);
            assert(t3.advice_at(config.copy_flag.index as int, s + 2) is None);
        }
        layouter.assign_advice_from_instance(config.public, size, config.index_flag, 2);
        let ghost t5 = layouter@;
        proof {
            lemma_extends_trans(t0, t4, t5);
            if config.wired(t0) {
                config.lemma_wired(t0, t5);
            }
        }
        layouter.assign_advice(config.copy_flag, 2, Fe::zero());
        proof {
            let t6 = layouter@;
            let index = t0.instance_at(config.public.index as int, config.size());
            let chosen = config.public_values(t0, 0, config.size());
            lemma_extends_trans(t0, t1, t2);
            lemma_extends_trans(t0, t2, t3);
            lemma_extends_trans(t0, t3, t4);
            lemma_extends_trans(t3, t4, t5);
            lemma_extends_trans(t3, t5, t6);
            lemma_extends_trans(t1, t2, t3);
            lemma_extends_trans(t1, t3, t6);
            lemma_extends_trans(t2, t3, t6);
            lemma_extends_trans(t0, t3, t6);
            lemma_extends_trans(t4, t5, t6);
            config.lemma_node_loaded_extends(t1, t6, s, cell_values(left@));
            config.lemma_node_loaded_extends(t2, t6, s + 1, cell_values(right@));
            assert(config.public_values(t2, 0, config.size()) =~= chosen);
            config.lemma_node_loaded_extends(t3, t6, s + 2, chosen);
            lemma_extends_refl(t6);
            config.lemma_leaves(
                t6,
                t6,
                s + 2,
                index,
                cell_values(left@),
                cell_values(right@),
                chosen,
            );
            assert forall|t: Table| #[trigger] t.extends(t6) && t.satisfied() implies leaf_relation(
                index,
                cell_values(left@),
                cell_values(right@),
                chosen,
            ) by {
                config.lemma_leaves(
                    t6,
                    t,
                    s + 2,
                    index,
                    cell_values(left@),
                    cell_values(right@),
                    chosen,
                );
                assert(t6.enabled.contains((config.s_pub.index as int, s + 2)));
                assert(t.enabled.contains((config.s_pub.index as int, s + 2)));
            }
            lemma_constraints_extend(t1, t6);
            lemma_constraints_extend(t2, t6);
            lemma_constraints_extend(t3, t6);
            lemma_constraints_extend(t5, t6);
            assert forall|k: int| t0.copies.len() <= k < t6.copies.len()
                implies #[trigger] t6.copy_holds(
                k,
            ) by {
                if k < t1.copies.len() {
                    assert(t1.copy_holds(k));
                } else {
                    assert(t2.copy_holds(k));
                }
            }
            assert forall|k: int| t0.exposed.len() <= k < t6.exposed.len()
                implies #[trigger] t6.exposure_holds(
                k,
            ) by {
                if k < t3.exposed.len() {
                    assert(t3.exposure_holds(k));
                } else {
                    assert(t5.exposure_holds(k));
                }
            }
            assert(t6.enabled.contains((config.s_pub.index as int, s + 2)));
            assert(t6.enabled =~= t0.enabled.insert((config.s_pub.index as int, s + 2)));
            if t0.satisfied() && leaf_relation(
                index,
                cell_values(left@),
                cell_values(right@),
                chosen,
            ) {
                lemma_satisfied_extends(t0, t6);
            }
        }
    }

    fn expose_public(&self, layouter: &mut Layouter, num: Node, row: usize)
    {
        let config = &self.config;
        let ghost t0 = layouter@;
        let ghost want = config.public_values(t0, row as int, num.0@.len() as int);
        let mut i: usize = 0;
        while i < num.0.len()
            invariant
                i <= num.0@.len(),
                row + num.0@.len() <= usize::MAX,
                t0 == old(layouter)@,
                *config == self@,
                want == config.public_values(t0, row as int, num.0@.len() as int),
                layouter@.extends(t0),
                layouter@ == (Table { exposed: layouter@.exposed, ..t0 }),
                t0.supported() && config.wired(t0) && cells_tied(t0, num.0@)
                    ==> layouter@.supported(),
                layouter@.exposed.len() == t0.exposed.len() + i,
                forall|j: int| 0 <= j < num.0@.len() ==> (#[trigger] num.0@[j]).held_by(t0),
                forall|k: int|
                    0 <= k < i ==> #[trigger] layouter@.exposed[t0.exposed.len() + k] == (
                        num.0@[k].key(),
                        (config.public.index as int, row + k),
                    ),
            decreases num.0@.len() - i,
        {
            let ghost before = layouter@;
            proof {
                if config.wired(t0) && cells_tied(t0, num.0@) {
                    config.lemma_wired(t0, before);
                    assert(t0.advice_tied(num.0@[i as int].column.index as int));
                    crate::plonk::lemma_columns_extend(t0, before);
                }
            }
            layouter.constrain_instance(&num.0[i], config.public, row + i);
            proof {
                let now = layouter@;
                lemma_extends_trans(t0, before, now);
                assert forall|k: int| 0 <= k < i + 1 implies #[trigger] now.exposed[t0.exposed.len()
                    + k] == (num.0@[k].key(), (config.public.index as int, row + k)) by {
                    if k < i {
                        assert(before.exposed[t0.exposed.len() + k] == (
                            num.0@[k].key(),
                            (config.public.index as int, row + k),
                        ));
                    }
                }
            }
            i = i + 1;
        }
        proof {
            let now = layouter@;
            let got = cell_values(num.0@);
            let added = node_exposures(num.0@, config.public.index as int, row as int);
            assert forall|k: int| 0 <= k < now.exposed.len() implies now.exposed[k] == (t0.exposed
                + added)[k] by {
                if k >= t0.exposed.len() {
                    assert(now.exposed[t0.exposed.len() + (k - t0.exposed.len())] == added[k
                        - t0.exposed.len()]);
                }
            }
            assert(now.exposed =~= t0.exposed + added);
            // On a table that extends this one, the new constraints hold
            // exactly when the public inputs are the node's values.
            assert forall|t: Table, j: int| t.extends(now) && 0 <= j < got.len() implies (
            #[trigger] t.exposure_holds(t0.exposed.len() + j) <==> got[j] == want[j]) by {
                assert(now.exposed[t0.exposed.len() + j] == (
                    num.0@[j].key(),
                    (config.public.index as int, row + j),
                ));
                assert(t.exposed[t0.exposed.len() + j] == now.exposed[t0.exposed.len() + j]);
                assert(num.0@[j].held_by(t0));
                assert(t0.advice.contains_key(num.0@[j].key()));
                assert(now.advice.contains_key(num.0@[j].key()));
            }
            assert forall|t: Table| #[trigger] t.extends(now) && t.satisfied() implies got
                == want by {
                assert forall|j: int| 0 <= j < got.len() implies got[j] == want[j] by {
                    assert(t.exposure_holds(t0.exposed.len() + j));
                }
                assert(got =~= want);
            }
            lemma_extends_refl(now);
            if t0.satisfied() && got == want {
                assert forall|k: int| t0.exposed.len() <= k < now.exposed.len()
                    implies #[trigger] now.exposure_holds(
                    k,
                ) by {
                    let j = k - t0.exposed.len();
                    assert(now.exposure_holds(t0.exposed.len() + j) <==> got[j] == want[j]);
                }
                lemma_satisfied_extends(t0, now);
            }
        }
    }
}

impl MerklePathConfig {
    /// Copies a node onto a new row of the open region, element by element
    /// into the value columns.
    fn copy_node(&self, layouter: &mut Layouter, cells: &Vec<AssignedCell>, offset: usize) -> (r:
        Vec<AssignedCell>)
        requires
            self.wf(),
            cells@.len() == self.size(),
            old(layouter).start() + offset < usize::MAX,
            old(layouter).start() + offset >= old(layouter)@.rows,
            forall|j: int| 0 <= j < cells@.len() ==> (#[trigger] cells@[j]).held_by(old(layouter)@),
        ensures
            final(layouter).start() == old(layouter).start(),
            final(layouter)@.extends(old(layouter)@),
            final(layouter)@.rows == old(layouter).start() + offset + 1,
            final(layouter)@.enabled == old(layouter)@.enabled,
            final(layouter)@.exposed == old(layouter)@.exposed,
            forall|k: int|
                old(layouter)@.copies.len() <= k < final(layouter)@.copies.len()
                    ==> #[trigger] final(layouter)@.copy_holds(k),
            self.node_loaded(
                final(layouter)@,
                old(layouter).start() + offset,
                cell_values(cells@),
            ),
            forall|c: int|
                (forall|j: int| 0 <= j < self.size() ==> c != (#[trigger] self.value@[j]).index)
                    ==> #[trigger] final(layouter)@.advice_at(c, old(layouter).start() + offset)
                    is None,
            r@.len() == self.size(),
            forall|j: int|
                0 <= j < self.size() ==> #[trigger] r@[j] == (AssignedCell {
                    column: self.value@[j],
                    row: (old(layouter).start() + offset) as usize,
                    value: cells@[j].value,
                }) && r@[j].held_by(final(layouter)@),
            old(layouter)@.supported() && self.wired(old(layouter)@) && cells_tied(
                old(layouter)@,
                cells@,
            ) ==> final(layouter)@.supported(),
    {
        let ghost row = layouter.start() + offset;
        let ghost cols = advice_indices(self.value@);
        proof {
            layouter.lemma_fresh_row(row);
            self.lemma_columns();
        }
        let r = layouter.copy_row(&self.value, cells, offset);
        proof {
            let now = layouter@;
            assert forall|j: int| 0 <= j < self.size() implies #[trigger] self.value_at(now, j, row)
                == Some(cell_values(cells@)[j]) by {
                assert(now.advice_at(cols[j], row) == Some(cell_values(cells@)[j]));
            }
            assert forall|c: int|
                (forall|j: int| 0 <= j < self.size() ==> c != (#[trigger] self.value@[j]).index)
                implies #[trigger] now.advice_at(c, row) is None by {
                assert forall|j: int| 0 <= j < self.size() implies c != #[trigger] cols[j] by {
                    assert(c != self.value@[j].index);
                }
            }
        }
        r
    }

    /// Lays out one level on three new rows of the open region: the left
    /// node, the right node and their hash, with the level's flags on the hash
    /// row, where the placement gate is enabled. The index flag is the public
    /// input on row `index`, or zero where there is none.
    fn load_level(
        &self,
        layouter: &mut Layouter,
        left: &Vec<AssignedCell>,
        right: &Vec<AssignedCell>,
        hash: &Vec<AssignedCell>,
        copy: Fe,
        index: Option<usize>,
        offset: usize,
    )
        requires
            self.wf(),
            left@.len() == self.size(),
            right@.len() == self.size(),
            hash@.len() == self.size(),
            old(layouter).start() + offset + 3 < usize::MAX,
            old(layouter).start() + offset >= old(layouter)@.rows,
            forall|j: int| 0 <= j < left@.len() ==> (#[trigger] left@[j]).held_by(old(layouter)@),
            forall|j: int| 0 <= j < right@.len() ==> (#[trigger] right@[j]).held_by(old(layouter)@),
            forall|j: int| 0 <= j < hash@.len() ==> (#[trigger] hash@[j]).held_by(old(layouter)@),
        ensures
            final(layouter).start() == old(layouter).start(),
            final(layouter)@.extends(old(layouter)@),
            final(layouter)@.rows == old(layouter).start() + offset + 3,
            self.rows_loaded(
                final(layouter)@,
                old(layouter).start() + offset,
                cell_values(left@),
                cell_values(right@),
                cell_values(hash@),
                copy@,
                match index {
                    Some(row) => old(layouter)@.instance_at(self.public.index as int, row as int),
                    None => 0,
                },
            ),
            final(layouter)@.enabled == old(layouter)@.enabled.insert(
                (self.s_hash.index as int, old(layouter).start() + offset + 2),
            ),
            forall|k: int|
                old(layouter)@.copies.len() <= k < final(layouter)@.copies.len()
                    ==> #[trigger] final(layouter)@.copy_holds(k),
            forall|k: int|
                old(layouter)@.exposed.len() <= k < final(layouter)@.exposed.len()
                    ==> #[trigger] final(layouter)@.exposure_holds(k),
            old(layouter)@.supported() && self.installed(old(layouter)@.gates) && self.wired(
                old(layouter)@,
            ) && cells_tied(old(layouter)@, left@) && cells_tied(old(layouter)@, right@)
                && cells_tied(old(layouter)@, hash@) ==> final(layouter)@.supported(),
    {
        let ghost t0 = layouter@;
        let ghost row = layouter.start() + offset;
        self.copy_node(layouter, left, offset);
        let ghost t1 = layouter@;
        proof {
            assert forall|j: int| 0 <= j < right@.len() implies (#[trigger] right@[j]).held_by(
                t1,
            ) by {
                assert(right@[j].held_by(t0));
                assert(t0.advice.contains_key(right@[j].key()));
            }
        }
        self.copy_node(layouter, right, offset + 1);
        let ghost t2 = layouter@;
        proof {
            lemma_extends_trans(t0, t1, t2);
            assert forall|j: int| 0 <= j < hash@.len() implies (#[trigger] hash@[j]).held_by(
                t2,
            ) by {
                assert(hash@[j].held_by(t0));
                assert(t0.advice.contains_key(hash@[j].key()));
            }
        }
        self.copy_node(layouter, hash, offset + 2);
        let ghost t3 = layouter@;
        layouter.enable_selector(self.s_hash, offset + 2);
        let ghost t4 = layouter@;
        proof {
            assert(forall|j: int| 0 <= j < self.size() ==> self.index_flag.index != (
            #[trigger] self.value@[j]).index);
            assert(t3.advice_at(self.index_flag.index as int, row + 2) is None);
            assert(forall|j: int| 0 <= j < self.size() ==> self.copy_flag.index != (
            #[trigger] self.value@[j]).index);
            assert(t3.advice_at(self.copy_flag.index as int, row + 2) is None);
        }
        layouter.assign_advice(self.copy_flag, offset + 2, copy);
        let ghost t5 = layouter@;
        match index {
            Some(public_row) => {
                layouter.assign_advice_from_instance(
                    self.public,
                    public_row,
                    self.index_flag,
                    offset + 2,
                );
            },
            None => {
                layouter.assign_advice(self.index_flag, offset + 2, Fe::zero());
            },
        }
        proof {
            let t6 = layouter@;
            lemma_extends_trans(t0, t2, t3);
            lemma_extends_trans(t3, t4, t5);
            lemma_extends_trans(t3, t5, t6);
            lemma_extends_trans(t0, t3, t6);
            lemma_extends_trans(t0, t3, t4);
            lemma_extends_trans(t0, t4, t5);
            if self.wired(t0) {
                self.lemma_wired(t0, t1);
                self.lemma_wired(t0, t2);
                self.lemma_wired(t0, t3);
                self.lemma_wired(t0, t4);
                self.lemma_wired(t0, t5);
                lemma_take_extend(t0, t1, advice_indices(self.value@), self.size());
                lemma_take_extend(t0, t2, advice_indices(self.value@), self.size());
            }
            lemma_extends_trans(t1, t2, t3);
            lemma_extends_trans(t1, t3, t6);
            lemma_extends_trans(t2, t3, t6);
            self.lemma_node_loaded_extends(t1, t6, row, cell_values(left@));
            self.lemma_node_loaded_extends(t2, t6, row + 1, cell_values(right@));
            self.lemma_node_loaded_extends(t3, t6, row + 2, cell_values(hash@));
            lemma_constraints_extend(t1, t6);
            lemma_constraints_extend(t2, t6);
            lemma_constraints_extend(t3, t6);
            assert forall|k: int| t0.copies.len() <= k < t6.copies.len()
                implies #[trigger] t6.copy_holds(
                k,
            ) by {
                if k < t1.copies.len() {
                    assert(t1.copy_holds(k));
                } else if k < t2.copies.len() {
                    assert(t2.copy_holds(k));
                } else {
                    assert(t3.copy_holds(k));
                }
            }
            assert(t6.enabled =~= t0.enabled.insert((self.s_hash.index as int, row + 2)));
        }
    }

    /// Assigns a node from the public inputs, starting at `from`, onto a new
    /// row of the open region.
    fn copy_public(&self, layouter: &mut Layouter, from: usize, offset: usize)
        requires
            self.wf(),
            from + self.size() <= usize::MAX,
            old(layouter).start() + offset < usize::MAX,
            old(layouter).start() + offset >= old(layouter)@.rows,
        ensures
            final(layouter).start() == old(layouter).start(),
            final(layouter)@.extends(old(layouter)@),
            final(layouter)@.rows == old(layouter).start() + offset + 1,
            final(layouter)@.enabled == old(layouter)@.enabled,
            final(layouter)@.copies == old(layouter)@.copies,
            forall|k: int|
                old(layouter)@.exposed.len() <= k < final(layouter)@.exposed.len()
                    ==> #[trigger] final(layouter)@.exposure_holds(k),
            self.node_loaded(
                final(layouter)@,
                old(layouter).start() + offset,
                self.public_values(old(layouter)@, from as int, self.size()),
            ),
            forall|c: int|
                (forall|j: int| 0 <= j < self.size() ==> c != (#[trigger] self.value@[j]).index)
                    ==> #[trigger] final(layouter)@.advice_at(c, old(layouter).start() + offset)
                    is None,
            old(layouter)@.supported() && self.wired(old(layouter)@)
                ==> final(layouter)@.supported(),
    {
        let ghost row = layouter.start() + offset;
        let ghost t0 = layouter@;
        let ghost cols = advice_indices(self.value@);
        proof {
            layouter.lemma_fresh_row(row);
            self.lemma_columns();
        }
        layouter.public_row(&self.value, self.public, from, self.value.len(), offset);
        proof {
            let now = layouter@;
            let want = self.public_values(t0, from as int, self.size());
            assert(want =~= t0.public_values(self.public.index as int, from as int, self.size()));
            assert forall|j: int| 0 <= j < self.size() implies #[trigger] self.value_at(now, j, row)
                == Some(want[j]) by {
                assert(now.advice_at(cols[j], row) == Some(want[j]));
            }
            assert forall|c: int|
                (forall|j: int| 0 <= j < self.size() ==> c != (#[trigger] self.value@[j]).index)
                implies #[trigger] now.advice_at(c, row) is None by {
                assert forall|j: int| 0 <= j < self.size() implies c != #[trigger] cols[j] by {
                    assert(c != self.value@[j].index);
                }
            }
        }
    }

    /// The identities of the placement gate.
    fn hash_polys(&self) -> (polys: Vec<Expression>)
        requires
            self.size() + self.size() + 4 <= usize::MAX,
        ensures
            polys@.len() == 4 + 2 * self.size(),
            forall|k: int, t: Table, row: int|
                0 <= k < 4 + 2 * self.size() ==> (#[trigger] polys@[k].eval(t, row))
                    == self.hash_identity(t, row, k),
    {
        let size = self.value.len();
        let p_left_v = query_values(&self.value, -2);
        let p_right_v = query_values(&self.value, -1);
        let p_hash_v = query_values(&self.value, 0);
        let left_v = query_values(&self.value, 1);
        let right_v = query_values(&self.value, 2);
        let n_copy = Expression::advice(self.copy_flag, Rotation(3));
        let copy = Expression::advice(self.copy_flag, Rotation::cur());
        let index = Expression::advice(self.index_flag, Rotation::cur());

        let mut polys: Vec<Expression> = Vec::new();
        polys.push(bool_constraint(&n_copy));
        polys.push(bool_constraint(&copy));
        polys.push(copy_flag_constraint(&copy, &n_copy));
        polys.push(bool_constraint(&index));

        let mut i: usize = 0;
        while i < size
            invariant
                i <= size,
                size == self.size(),
                size + size + 4 <= usize::MAX,
                polys@.len() == 4 + i,
                p_hash_v@.len() == size,
                left_v@.len() == size,
                right_v@.len() == size,
                forall|t: Table, row: int| #[trigger]
                    copy.eval(t, row) == self.copy_at(t, row),
                forall|t: Table, row: int| #[trigger]
                    index.eval(t, row) == self.index_at(t, row),
                forall|j: int, t: Table, row: int|
                    0 <= j < size ==> (#[trigger] p_hash_v@[j].eval(t, row)) == self.value_at(
                        t,
                        j,
                        row,
                    ),
                forall|j: int, t: Table, row: int|
                    0 <= j < size ==> (#[trigger] left_v@[j].eval(t, row)) == self.value_at(
                        t,
                        j,
                        row + 1,
                    ),
                forall|j: int, t: Table, row: int|
                    0 <= j < size ==> (#[trigger] right_v@[j].eval(t, row)) == self.value_at(
                        t,
                        j,
                        row + 2,
                    ),
                forall|k: int, t: Table, row: int|
                    0 <= k < 4 + i ==> (#[trigger] polys@[k].eval(t, row)) == self.hash_identity(
                        t,
                        row,
                        k,
                    ),
            decreases size - i,
        {
            // (1 - copy) * (hash - (1 - index) * left - index * right)
            let a = Expression::product(complement(&index), left_v[i].duplicate());
            let b = Expression::product(index.duplicate(), right_v[i].duplicate());
            let inner = Expression::difference(
                Expression::difference(p_hash_v[i].duplicate(), a),
                b,
            );
            let e = Expression::product(complement(&copy), inner);
            proof {
                assert forall|t: Table, row: int| #[trigger]
                    e.eval(t, row) == self.hash_identity(t, row, 4 + i) by {
                    assert(p_hash_v@[i as int].eval(t, row) == self.value_at(t, i as int, row));
                    assert(left_v@[i as int].eval(t, row) == self.value_at(t, i as int, row + 1));
                    assert(right_v@[i as int].eval(t, row) == self.value_at(t, i as int, row + 2));
                }
            }
            polys.push(e);
            i = i + 1;
        }

        let mut i: usize = 0;
        while i < size
            invariant
                i <= size,
                size == self.size(),
                size + size + 4 <= usize::MAX,
                polys@.len() == 4 + size + i,
                p_left_v@.len() == size,
                p_right_v@.len() == size,
                left_v@.len() == size,
                right_v@.len() == size,
                forall|t: Table, row: int| #[trigger]
                    copy.eval(t, row) == self.copy_at(t, row),
                forall|t: Table, row: int| #[trigger]
                    index.eval(t, row) == self.index_at(t, row),
                forall|j: int, t: Table, row: int|
                    0 <= j < size ==> (#[trigger] p_left_v@[j].eval(t, row)) == self.value_at(
                        t,
                        j,
                        row + (-2),
                    ),
                forall|j: int, t: Table, row: int|
                    0 <= j < size ==> (#[trigger] p_right_v@[j].eval(t, row)) == self.value_at(
                        t,
                        j,
                        row + (-1),
                    ),
                forall|j: int, t: Table, row: int|
                    0 <= j < size ==> (#[trigger] left_v@[j].eval(t, row)) == self.value_at(
                        t,
                        j,
                        row + 1,
                    ),
                forall|j: int, t: Table, row: int|
                    0 <= j < size ==> (#[trigger] right_v@[j].eval(t, row)) == self.value_at(
                        t,
                        j,
                        row + 2,
                    ),
                forall|k: int, t: Table, row: int|
                    0 <= k < 4 + size + i ==> (#[trigger] polys@[k].eval(t, row))
                        == self.hash_identity(t, row, k),
            decreases size - i,
        {
            // copy * ((1 - index) * (prev_left - left) + index * (prev_right - right))
            let a = Expression::product(
                complement(&index),
                Expression::difference(p_left_v[i].duplicate(), left_v[i].duplicate()),
            );
            let b = Expression::product(
                index.duplicate(),
                Expression::difference(p_right_v[i].duplicate(), right_v[i].duplicate()),
            );
            let e = Expression::product(copy.duplicate(), Expression::sum(a, b));
            proof {
                assert forall|t: Table, row: int| #[trigger]
                    e.eval(t, row) == self.hash_identity(t, row, 4 + size + i) by {
                    assert(p_left_v@[i as int].eval(t, row) == self.value_at(t, i as int, row - 2));
                    assert(p_right_v@[i as int].eval(t, row)
                        == self.value_at(t, i as int, row - 1));
                    assert(left_v@[i as int].eval(t, row) == self.value_at(t, i as int, row + 1));
                    assert(right_v@[i as int].eval(t, row) == self.value_at(t, i as int, row + 2));
                }
            }
            polys.push(e);
            i = i + 1;
        }
        polys
    }

    /// The identities of the selection gate.
    fn pub_polys(&self) -> (polys: Vec<Expression>)
        requires
            self.size() + 2 <= usize::MAX,
        ensures
            polys@.len() == 2 + self.size(),
            forall|k: int, t: Table, row: int|
                0 <= k < 2 + self.size() ==> (#[trigger] polys@[k].eval(t, row))
                    == self.pub_identity(t, row, k),
    {
        let size = self.value.len();
        let left_v = query_values(&self.value, -2);
        let right_v = query_values(&self.value, -1);
        let hash_v = query_values(&self.value, 0);
        let index = Expression::advice(self.index_flag, Rotation::cur());
        let copy = Expression::advice(self.copy_flag, Rotation::cur());

        let mut polys: Vec<Expression> = Vec::new();
        polys.push(bool_constraint(&index));
        polys.push(copy);

        let mut i: usize = 0;
        while i < size
            invariant
                i <= size,
                size == self.size(),
                size + 2 <= usize::MAX,
                polys@.len() == 2 + i,
                left_v@.len() == size,
                right_v@.len() == size,
                hash_v@.len() == size,
                forall|t: Table, row: int| #[trigger]
                    index.eval(t, row) == self.index_at(t, row),
                forall|j: int, t: Table, row: int|
                    0 <= j < size ==> (#[trigger] left_v@[j].eval(t, row)) == self.value_at(
                        t,
                        j,
                        row + (-2),
                    ),
                forall|j: int, t: Table, row: int|
                    0 <= j < size ==> (#[trigger] right_v@[j].eval(t, row)) == self.value_at(
                        t,
                        j,
                        row + (-1),
                    ),
                forall|j: int, t: Table, row: int|
                    0 <= j < size ==> (#[trigger] hash_v@[j].eval(t, row)) == self.value_at(
                        t,
                        j,
                        row,
                    ),
                forall|k: int, t: Table, row: int|
                    0 <= k < 2 + i ==> (#[trigger] polys@[k].eval(t, row)) == self.pub_identity(
                        t,
                        row,
                        k,
                    ),
            decreases size - i,
        {
            // (1 - index) * (left - chosen) + index * (right - chosen)
            let a = Expression::product(
                complement(&index),
                Expression::difference(left_v[i].duplicate(), hash_v[i].duplicate()),
            );
            let b = Expression::product(
                index.duplicate(),
                Expression::difference(right_v[i].duplicate(), hash_v[i].duplicate()),
            );
            let e = Expression::sum(a, b);
            proof {
                assert forall|t: Table, row: int| #[trigger]
                    e.eval(t, row) == self.pub_identity(t, row, 2 + i) by {
                    assert(left_v@[i as int].eval(t, row) == self.value_at(t, i as int, row - 2));
                    assert(right_v@[i as int].eval(t, row) == self.value_at(t, i as int, row - 1));
                    assert(hash_v@[i as int].eval(t, row) == self.value_at(t, i as int, row));
                }
            }
            polys.push(e);
            i = i + 1;
        }
        polys
    }
}

} // verus!
