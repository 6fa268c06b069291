use circuit_samples::chips::merkle_chip::{MerklePathChip, MerklePathInstruction, Node};
use circuit_samples::circuit::{AssignedCell, Layouter};
use circuit_samples::circuits::merkle_circuit::{MerklePathCircuit, PathError};
use circuit_samples::circuits::poseidon_circuit::utils::SpecError;
use circuit_samples::circuits::poseidon_circuit::utils::Parameters;
use circuit_samples::field::Fe;
use circuit_samples::plonk::{Advice, Column, ConstraintSystem};
use ff::{Field, PrimeField};
use halo2_proofs::pasta::Fp;

fn fe(x: Fp) -> Fe {
    Fe::from_bytes(&x.to_repr())
}

fn fp(x: &Fe) -> Fp {
    Fp::from_repr(x.to_repr()).unwrap()
}

fn fes(v: &[Fp]) -> Vec<Fe> {
    v.iter().map(|x| fe(*x)).collect()
}

fn fps(v: &[Fe]) -> Vec<Fp> {
    v.iter().map(fp).collect()
}

/// A fixed sequence of numbers.
struct Sequence(u64);

impl Sequence {
    fn next(&mut self) -> u64 {
        self.0 = self.0.wrapping_mul(6364136223846793005).wrapping_add(1442695040888963407);
        self.0 >> 11
    }

    fn bit(&mut self) -> bool {
        self.next() % 2 == 1
    }

    fn element(&mut self) -> Fp {
        let hi = self.next() as u128;
        let lo = self.next() as u128;
        Fp::from_u128((hi << 64) | lo).square()
    }

    fn node(&mut self, size: usize) -> Vec<Fp> {
        (0..size).map(|_| self.element()).collect()
    }
}

/// A permutation over a state of three elements with `full` full and
/// `partial` partial rounds, and elements of two field elements.
fn parameters(full: usize, partial: usize) -> Parameters {
    let mut s = Sequence(7);
    let mds = (0..3)
        .map(|i| (0..3).map(|j| fe(Fp::from((i + 3 + j) as u64).invert().unwrap())).collect())
        .collect();
    let arks = (0..full + partial).map(|_| fes(&s.node(3))).collect();
    Parameters::new(full, partial, mds, arks, u128::pow(2, 65), vec![], 2).unwrap()
}

struct MerklePath {
    left: Vec<Vec<Fp>>,
    right: Vec<Vec<Fp>>,
    index: Vec<Fp>,
}

/// A path with `n` levels below the root and `m` index bits, by the plain
/// construction: each level's hash stands on the side of the next level that
/// the bit tells, the last level's hash on both sides of the root.
fn gen_merkle_path(p: &Parameters, seed: u64, n: usize, m: usize) -> MerklePath {
    let mut s = Sequence(seed);
    let size = p.element_size;
    let mut left = vec![s.node(size)];
    let mut right = vec![s.node(size)];
    let mut index = vec![if s.bit() { Fp::one() } else { Fp::zero() }];
    for i in 1..=m {
        // the hash of the last level stands on the left of the root
        let bit = s.bit() && i < m;
        if i < m {
            index.push(if bit { Fp::one() } else { Fp::zero() });
        }
        if i <= n {
            let hash = fps(&p.hash_pair(&fes(&left[i - 1]), &fes(&right[i - 1])));
            // last line is duplicated
            let element = if i < n { s.node(size) } else { hash.clone() };
            if bit {
                right.push(hash);
                left.push(element);
            } else {
                left.push(hash);
                right.push(element);
            }
        }
    }
    MerklePath { left, right, index }
}

impl MerklePath {
    fn get_leaf(&self) -> Vec<Fp> {
        if self.index[0] == Fp::one() {
            self.right[0].clone()
        } else {
            self.left[0].clone()
        }
    }

    fn get_root(&self) -> Vec<Fp> {
        self.left.last().unwrap().clone()
    }

    fn public(&self) -> Vec<Fp> {
        self.get_leaf().into_iter().chain(self.index.clone()).chain(self.get_root()).collect()
    }
}

fn grid(v: &[Vec<Fp>]) -> Vec<Vec<Fe>> {
    v.iter().map(|n| fes(n)).collect()
}

/// Lays the path out up to level `m` against the public inputs; whether the
/// table is satisfied, and its rows.
fn run(p: &Parameters, path: &MerklePath, m: usize, public: &[Fp]) -> (bool, usize) {
    let mut cs = ConstraintSystem::new();
    let config = MerklePathCircuit::configure(&mut cs, p);
    let circuit = MerklePathCircuit::new(grid(&path.left), grid(&path.right));
    let mut layouter = Layouter::new(cs, vec![fes(public)]);
    circuit.synthesize(p, m, config, &mut layouter);
    assert!(layouter.supported());
    (layouter.satisfied(), layouter.rows())
}

fn function_merkle_32(n: usize, m: usize) {
    let p = parameters(8, 56);
    let path = gen_merkle_path(&p, 11 + n as u64, n, m);
    let public = path.public();
    assert_eq!(public.len(), 2 + m + 2);
    let (ok, rows) = run(&p, &path, m, &public);
    // for each of the m + 1 levels a sponge over its two nodes, then three
    // rows for the leaves, three for each level and three for the root
    assert_eq!(rows, (m + 1) * (1 + 2 * (3 + 65)) + 3 + 3 * m + 3);
    assert!(ok);

    // one element of one node of the path changed
    let mut changed =
        MerklePath { left: path.left.clone(), right: path.right.clone(), index: vec![] };
    changed.left[n / 2][1] += Fp::one();
    assert!(!run(&p, &changed, m, &public).0);
}

#[test]
fn function_merkle_32_half() {
    function_merkle_32(16, 32);
}

#[test]
fn function_merkle_32_full() {
    function_merkle_32(32, 32);
}

#[test]
fn a_short_permutation_keeps_the_path_logic() {
    let p = parameters(2, 1);
    for (n, m) in [(1, 1), (1, 2), (2, 2), (3, 5), (5, 5), (4, 9)] {
        for seed in 0..4 {
            let path = gen_merkle_path(&p, seed * 31 + 5, n, m);
            let (ok, rows) = run(&p, &path, m, &path.public());
            assert_eq!(rows, (m + 1) * (1 + 2 * (3 + 4)) + 3 + 3 * m + 3);
            assert!(ok, "n {n} m {m} seed {seed}");
        }
    }
}

#[test]
fn a_path_that_is_all_padding_is_accepted() {
    // the leaf is already the root
    let p = parameters(2, 1);
    let mut s = Sequence(3);
    let root = s.node(2);
    for bit in [Fp::zero(), Fp::one()] {
        let path = MerklePath {
            left: vec![root.clone()],
            right: vec![root.clone()],
            index: vec![bit, Fp::one(), Fp::zero(), Fp::one()],
        };
        assert_eq!(path.get_leaf(), root);
        let (ok, _) = run(&p, &path, 4, &path.public());
        assert!(ok);
        let mut wrong = path.public();
        wrong[7] += Fp::one();
        assert!(!run(&p, &path, 4, &wrong).0);
    }
}

#[test]
fn a_path_that_fills_the_depth_is_accepted() {
    let p = parameters(2, 1);
    let path = gen_merkle_path(&p, 99, 6, 6);
    assert_eq!(path.left.len(), 7);
    assert_eq!(path.left[6], path.right[6]);
    assert!(run(&p, &path, 6, &path.public()).0);
}

#[test]
fn a_changed_node_is_refused() {
    let p = parameters(2, 1);
    let (n, m) = (4, 6);
    let path = gen_merkle_path(&p, 21, n, m);
    let public = path.public();
    assert!(run(&p, &path, m, &public).0);
    for level in 0..=n {
        for side in 0..2 {
            for j in 0..2 {
                let mut changed = MerklePath {
                    left: path.left.clone(),
                    right: path.right.clone(),
                    index: vec![],
                };
                if side == 0 {
                    changed.left[level][j] += Fp::one();
                } else {
                    changed.right[level][j] += Fp::one();
                }
                // at the top the root is the left node; the right one is read only if
                // the hash below it stands there
                let unread = level == n && side == 1 && path.index[n] == Fp::zero();
                assert_eq!(run(&p, &changed, m, &public).0, unread, "level {level} side {side}");
            }
        }
    }
}

#[test]
fn changed_public_inputs_are_refused() {
    let p = parameters(2, 1);
    let (n, m) = (3, 5);
    let path = gen_merkle_path(&p, 8, n, m);
    let public = path.public();
    assert!(run(&p, &path, m, &public).0);
    // the leaf, the index bits of the real levels, the root
    for i in (0..2 + n).chain(2 + m..2 + m + 2) {
        let mut wrong = public.clone();
        wrong[i] += Fp::one();
        assert!(!run(&p, &path, m, &wrong).0, "public input {i}");
    }
    // an index flag that is not a bit
    for i in 2..2 + m {
        let mut wrong = public.clone();
        wrong[i] = Fp::from(2);
        assert!(!run(&p, &path, m, &wrong).0, "index flag {i}");
    }
    // on the padding levels both nodes are the root, and either bit is accepted
    for i in 2 + n + 1..2 + m {
        let mut other = public.clone();
        other[i] = Fp::one() - other[i];
        assert!(run(&p, &path, m, &other).0, "index flag {i}");
    }
}

#[test]
fn the_other_leaf_is_refused() {
    let p = parameters(2, 1);
    let path = gen_merkle_path(&p, 5, 2, 3);
    let mut public = path.public();
    let other = if path.index[0] == Fp::one() { &path.left[0] } else { &path.right[0] };
    public[0] = other[0];
    public[1] = other[1];
    assert!(!run(&p, &path, 3, &public).0);
    // with the other index bit it is the leaf that is chosen; the path above is the same
    public[2] = Fp::one() - public[2];
    assert!(run(&p, &path, 3, &public).0);
}

#[test]
fn configure_allocates_the_columns_of_both_chips() {
    let p = parameters(2, 1);
    let mut cs = ConstraintSystem::new();
    let config = MerklePathCircuit::configure(&mut cs, &p);
    assert_eq!(cs.num_advice, 2 + 2 + 3);
    assert_eq!(cs.num_fixed, 3);
    assert_eq!(cs.num_instance, 1);
    assert_eq!(cs.gates.len(), 5);
    let m = &config.merkle_config;
    assert_eq!(cs.gates[m.s_hash.index].name, "Copy_Hash");
    assert_eq!(cs.gates[m.s_pub.index].name, "PUB_SELECT");
    assert_eq!(cs.gates[m.s_hash.index].polys.len(), 4 + 2 * 2);
    assert_eq!(cs.gates[m.s_pub.index].polys.len(), 2 + 2);
    assert_eq!(m.value.len(), 2);
    assert_eq!(m.public.index, config.poseidon_config.output.index);
    assert!(matches!(cs.equality[2], Column::Advice(c) if c.index == m.index_flag.index));
}

// The chip on its own: nodes and hashes that are given, not computed.

struct Bench {
    chip: MerklePathChip,
    layouter: Layouter,
    scratch: Advice,
}

/// The chip over nodes of one element, with a column to hold the given
/// values.
fn bench(public: &[u64]) -> Bench {
    let mut cs = ConstraintSystem::new();
    let value = cs.advice_columns(1);
    let copy_flag = cs.advice_column();
    let index_flag = cs.advice_column();
    let scratch = cs.advice_column();
    let instance = cs.instance_column();
    let config = MerklePathChip::configure(&mut cs, value, copy_flag, index_flag, instance);
    let public: Vec<Fe> = public.iter().map(|v| Fe::from_u64(*v)).collect();
    let mut layouter = Layouter::new(cs, vec![public]);
    layouter.start_region();
    Bench { chip: MerklePathChip::new(config), layouter, scratch }
}

impl Bench {
    fn cells(&mut self, values: &[u64]) -> Vec<Vec<AssignedCell>> {
        values
            .iter()
            .map(|v| {
                let offset = self.layouter.rows();
                vec![self.layouter.assign_advice(self.scratch, offset, Fe::from_u64(*v))]
            })
            .collect()
    }

    /// Lays out the path; whether the table is satisfied, and the root.
    fn load(
        mut self,
        left: &[u64],
        right: &[u64],
        hash: &[u64],
        copy: &[u64],
        n: usize,
    ) -> (bool, Fp) {
        let m = hash.len();
        let left = self.cells(left);
        let right = self.cells(right);
        let hash = self.cells(hash);
        let copy: Vec<Fe> = copy.iter().map(|v| Fe::from_u64(*v)).collect();
        let before = self.layouter.rows();
        let root = self.chip.load_path(&mut self.layouter, left, right, hash, &copy, m, n);
        assert_eq!(self.layouter.rows(), before + 3 * m + 3);
        assert_eq!(root.0.len(), 1);
        assert_eq!(root.0[0].row, before + 3 * m);
        (self.layouter.satisfied(), fp(&root.0[0].value))
    }
}

/// The public inputs: a leaf, the index bit of the leaves, and the index bits
/// of three more levels.
const PUBLIC: [u64; 5] = [10, 0, 1, 0, 0];

#[test]
fn load_path_checks_the_placement_of_each_hash() {
    // level 0: (10, 11) with hash 50, on the right of level 1 (bit 1);
    // level 1: (20, 50) with hash 60, on the left of level 2 (bit 0);
    // level 2: (60, 30) with hash 70, the root
    let (ok, root) =
        bench(&PUBLIC).load(&[10, 20, 60, 70], &[11, 50, 30, 70], &[50, 60, 70], &[0, 0, 0, 1], 3);
    assert!(ok);
    assert_eq!(root, Fp::from(70));
    // the hash of level 0 on the wrong side
    let (ok, _) =
        bench(&PUBLIC).load(&[10, 50, 60, 70], &[11, 20, 30, 70], &[50, 60, 70], &[0, 0, 0, 1], 3);
    assert!(!ok);
    // a hash that is not in the next level
    let (ok, _) =
        bench(&PUBLIC).load(&[10, 20, 60, 70], &[11, 50, 30, 70], &[50, 61, 70], &[0, 0, 0, 1], 3);
    assert!(!ok);
    // the hash of the last level must stand on the left of the root
    let (ok, _) =
        bench(&PUBLIC).load(&[10, 20, 60, 71], &[11, 50, 30, 70], &[50, 60, 70], &[0, 0, 0, 1], 3);
    assert!(!ok);
}

#[test]
fn padding_levels_repeat_the_root() {
    // one real level, then the root (50, 50) twice more
    let copy = [0, 1, 1, 1];
    let (ok, root) =
        bench(&PUBLIC).load(&[10, 50, 50, 50], &[11, 50, 50, 50], &[50, 99, 98], &copy, 1);
    assert!(ok);
    assert_eq!(root, Fp::from(50));
    // level 2 diverges on the left, where the index bit 0 points
    let (ok, _) =
        bench(&PUBLIC).load(&[10, 50, 51, 50], &[11, 50, 50, 50], &[50, 99, 98], &copy, 1);
    assert!(!ok);
    // the root diverges
    let (ok, _) =
        bench(&PUBLIC).load(&[10, 50, 50, 51], &[11, 50, 50, 50], &[50, 99, 98], &copy, 1);
    assert!(!ok);
    // the side that the index bit does not point to is free
    let (ok, _) =
        bench(&PUBLIC).load(&[10, 50, 50, 50], &[11, 50, 77, 50], &[50, 99, 98], &copy, 1);
    assert!(ok);
    // with the copy flag clear the dummy hash is checked and refused
    let (ok, _) =
        bench(&PUBLIC).load(&[10, 50, 50, 50], &[11, 50, 50, 50], &[50, 99, 98], &[0, 0, 1, 1], 1);
    assert!(!ok);
}

#[test]
fn a_copy_flag_cannot_be_cleared_again() {
    let left = [10, 50, 50, 50];
    let right = [11, 50, 50, 50];
    // the hashes are in place, so that only the flags are at fault
    let hash = [50, 50, 50];
    assert!(bench(&PUBLIC).load(&left, &right, &hash, &[0, 1, 1, 1], 1).0);
    assert!(bench(&PUBLIC).load(&left, &right, &hash, &[0, 0, 0, 1], 1).0);
    assert!(!bench(&PUBLIC).load(&left, &right, &hash, &[0, 1, 0, 1], 1).0);
    assert!(!bench(&PUBLIC).load(&left, &right, &hash, &[1, 0, 0, 1], 1).0);
    assert!(!bench(&PUBLIC).load(&left, &right, &hash, &[1, 0, 1, 1], 1).0);
    // a flag that is not a bit
    assert!(!bench(&PUBLIC).load(&left, &right, &hash, &[0, 2, 1, 1], 1).0);
}

#[test]
fn load_leaves_binds_the_chosen_leaf() {
    for (public, ok) in [
        ([10, 0, 0, 0, 0], true),
        ([11, 1, 0, 0, 0], true),
        ([11, 0, 0, 0, 0], false),
        ([10, 1, 0, 0, 0], false),
        ([10, 2, 0, 0, 0], false),
        ([12, 0, 0, 0, 0], false),
    ] {
        let mut b = bench(&public);
        let left = b.cells(&[10]).remove(0);
        let right = b.cells(&[11]).remove(0);
        let before = b.layouter.rows();
        b.chip.load_leaves(&mut b.layouter, left, right);
        assert_eq!(b.layouter.rows(), before + 3);
        assert_eq!(b.layouter.satisfied(), ok, "{public:?}");
    }
}

#[test]
fn expose_public_binds_every_element_of_a_node() {
    let mut b = bench(&[1, 2, 3, 4]);
    let cells: Vec<AssignedCell> = b.cells(&[3, 4]).into_iter().flatten().collect();
    let mut bound = b.layouter.clone();
    b.chip.expose_public(&mut bound, Node(cells.clone()), 2);
    assert!(bound.satisfied());
    b.chip.expose_public(&mut b.layouter, Node(cells), 1);
    assert!(!b.layouter.satisfied());
    assert_eq!(b.chip.config().value.len(), 1);
    b.chip.loaded();
}

#[test]
fn assemble_lays_a_path_out_against_the_public_inputs() {
    let p = parameters(2, 1);
    let path = gen_merkle_path(&p, 77, 3, 4);
    let circuit = MerklePathCircuit::new(grid(&path.left), grid(&path.right));
    assert_eq!(MerklePathCircuit::rows(&p, 4), Some(5 * 15 + 3 * 4 + 6));
    let table = circuit.assemble(&p, 4, fes(&path.public())).unwrap();
    assert_eq!(table.rows(), 5 * 15 + 3 * 4 + 6);
    assert!(table.satisfied());
    let mut wrong = path.public();
    wrong[7] += Fp::one();
    assert!(!circuit.assemble(&p, 4, fes(&wrong)).unwrap().satisfied());
}

#[test]
fn assemble_refuses_a_path_that_cannot_be_laid_out() {
    let p = parameters(2, 1);
    let path = gen_merkle_path(&p, 77, 3, 4);
    let circuit = MerklePathCircuit::new(grid(&path.left), grid(&path.right));

    let mut broken = parameters(2, 1);
    broken.pad.push(Fe::one());
    let r = circuit.assemble(&broken, 4, vec![]);
    assert_eq!(r.unwrap_err(), PathError::Parameters(SpecError::ChunkSize));

    let r = MerklePathCircuit::new(vec![], vec![]).assemble(&p, 4, vec![]);
    assert_eq!(r.unwrap_err(), PathError::Levels);

    // a path of three levels laid out to depth two, and a depth of zero
    assert_eq!(circuit.assemble(&p, 2, vec![]).unwrap_err(), PathError::Depth);
    let root = vec![fes(&path.left[3])];
    let r = MerklePathCircuit::new(root.clone(), root).assemble(&p, 0, vec![]);
    assert_eq!(r.unwrap_err(), PathError::Depth);

    let mut short = grid(&path.right);
    short[2].pop();
    let r = MerklePathCircuit::new(grid(&path.left), short).assemble(&p, 4, vec![]);
    assert_eq!(r.unwrap_err(), PathError::Node);

    assert_eq!(circuit.assemble(&p, usize::MAX / 2, vec![]).unwrap_err(), PathError::Rows);
    assert_eq!(MerklePathCircuit::rows(&p, usize::MAX / 2), None);
}
