//! The tables that the library lays out, handed to the proof system: what the
//! library accepts the mock prover accepts, and what it refuses the mock
//! prover refuses.

use std::collections::HashMap;
use std::marker::PhantomData;

use circuit_samples::circuit::{AssignedCell, Layouter as Table};
use circuit_samples::circuits::arth_circuit::DemoCircuit1;
use circuit_samples::circuits::merkle_circuit::MerklePathCircuit;
use circuit_samples::circuits::poseidon_circuit::utils::Parameters;
use circuit_samples::circuits::poseidon_circuit::PoseidonCircuit;
use circuit_samples::field::Fe;
use circuit_samples::plonk::{
    Advice as AdviceColumn, Column as AnyColumn, ConstraintSystem as Shape, Expression as Poly,
    Fixed as FixedColumn, Instance as InstanceColumn, Selector as Switch,
};
use ff::{Field, PrimeField};
use halo2_proofs::circuit::{Cell, Layouter, SimpleFloorPlanner, Value};
use halo2_proofs::dev::MockProver;
use halo2_proofs::pasta::{EqAffine, Fp};
use halo2_proofs::plonk::{
    create_proof, keygen_pk, keygen_vk, verify_proof, Advice, Circuit, Column, ConstraintSystem,
    Constraints, Error, Expression, Fixed, Instance, Selector, SingleVerifier, VirtualCells,
};
use halo2_proofs::poly::commitment::Params;
use halo2_proofs::poly::Rotation;
use halo2_proofs::transcript::{Blake2bRead, Blake2bWrite, Challenge255};
use rand_core::RngCore;

fn fe(x: Fp) -> Fe {
    Fe::from_bytes(&x.to_repr())
}

fn fp(x: &Fe) -> Fp {
    Fp::from_repr(x.to_repr()).unwrap()
}

fn fes(v: &[Fp]) -> Vec<Fe> {
    v.iter().map(|x| fe(*x)).collect()
}

fn fps(v: &[Fe]) -> Vec<Fp> {
    v.iter().map(fp).collect()
}

/// Where a circuit's shape comes from.
trait Source {
    fn shape() -> Shape;
}

#[derive(Clone)]
struct Columns {
    advice: Vec<Column<Advice>>,
    fixed: Vec<Column<Fixed>>,
    instance: Vec<Column<Instance>>,
    selectors: Vec<Selector>,
}

/// A table of the library as a circuit of the proof system.
struct Replay<S> {
    table: Table,
    witness: bool,
    source: PhantomData<S>,
}

fn convert(meta: &mut VirtualCells<'_, Fp>, columns: &Columns, e: &Poly) -> Expression<Fp> {
    match e {
        Poly::Constant(c) => Expression::Constant(fp(c)),
        Poly::Fixed { column, rotation } => {
            // this version of the proof system reads a fixed cell on the row itself only
            assert_eq!(rotation.0, 0, "a fixed cell is read on another row");
            meta.query_fixed(columns.fixed[column.index])
        }
        Poly::Advice { column, rotation } => {
            meta.query_advice(columns.advice[column.index], Rotation(rotation.0))
        }
        Poly::Negated(a) => -convert(meta, columns, a),
        Poly::Sum(a, b) => convert(meta, columns, a) + convert(meta, columns, b),
        Poly::Product(a, b) => convert(meta, columns, a) * convert(meta, columns, b),
        Poly::Scaled(a, f) => convert(meta, columns, a) * fp(f),
    }
}

impl<S: Source> Circuit<Fp> for Replay<S> {
    type Config = Columns;
    type FloorPlanner = SimpleFloorPlanner;

    fn without_witnesses(&self) -> Self {
        Replay { table: self.table.clone(), witness: false, source: PhantomData }
    }

    fn configure(meta: &mut ConstraintSystem<Fp>) -> Columns {
        let shape = S::shape();
        let columns = Columns {
            advice: (0..shape.num_advice).map(|_| meta.advice_column()).collect(),
            fixed: (0..shape.num_fixed).map(|_| meta.fixed_column()).collect(),
            instance: (0..shape.num_instance).map(|_| meta.instance_column()).collect(),
            selectors: shape.gates.iter().map(|_| meta.selector()).collect(),
        };
        for column in &shape.equality {
            match column {
                AnyColumn::Advice(c) => meta.enable_equality(columns.advice[c.index]),
                AnyColumn::Fixed(c) => meta.enable_equality(columns.fixed[c.index]),
                AnyColumn::Instance(c) => meta.enable_equality(columns.instance[c.index]),
            }
        }
        for (g, gate) in shape.gates.iter().enumerate() {
            meta.create_gate(gate.name, |meta| {
                let selector = meta.query_selector(columns.selectors[g]);
                let polys: Vec<Expression<Fp>> =
                    gate.polys.iter().map(|e| convert(meta, &columns, e)).collect();
                Constraints::with_selector(selector, polys)
            });
        }
        columns
    }

    fn synthesize(&self, config: Columns, mut layouter: impl Layouter<Fp>) -> Result<(), Error> {
        let t = &self.table;
        let cells = layouter.assign_region(
            || "table",
            |mut region| {
                let mut cells: HashMap<(usize, usize), Cell> = HashMap::new();
                for row in 0..t.rows() {
                    for (column, at) in config.advice.iter().enumerate() {
                        if let Some(v) = t.advice_value(column, row) {
                            let value =
                                if self.witness { Value::known(fp(&v)) } else { Value::unknown() };
                            let cell = region.assign_advice(|| "", *at, row, || value)?;
                            cells.insert((column, row), cell.cell());
                        }
                    }
                    for (column, at) in config.fixed.iter().enumerate() {
                        if let Some(v) = t.fixed_value(column, row) {
                            region.assign_fixed(|| "", *at, row, || Value::known(fp(&v)))?;
                        }
                    }
                    for (gate, selector) in config.selectors.iter().enumerate() {
                        if t.is_enabled(gate, row) {
                            selector.enable(&mut region, row)?;
                        }
                    }
                }
                for i in 0..t.num_copies() {
                    let (a, b) = t.copy(i);
                    region.constrain_equal(cells[&a], cells[&b])?;
                }
                Ok(cells)
            },
        )?;
        for i in 0..t.num_exposed() {
            let (cell, (column, row)) = t.exposure(i);
            layouter.constrain_instance(cells[&cell], config.instance[column], row)?;
        }
        Ok(())
    }
}

/// Whether the mock prover accepts the table with the public inputs, after
/// the library has said whether it does.
fn both<S: Source>(table: Table, public: &[Fp]) -> bool {
    assert!(table.supported());
    let ours = table.satisfied();
    let k = (usize::BITS - (table.rows() + 16).leading_zeros()).max(5);
    let circuit = Replay::<S> { table, witness: true, source: PhantomData };
    let prover = MockProver::run(k, &circuit, vec![public.to_vec()]).unwrap();
    let theirs = prover.verify().is_ok();
    assert_eq!(ours, theirs);
    theirs
}

fn parameters(size: usize) -> Parameters {
    let mut s: u64 = 42;
    let mut next = || {
        s = s.wrapping_mul(6364136223846793005).wrapping_add(1442695040888963407);
        fe(Fp::from(s >> 3).square())
    };
    let mds = (0..3)
        .map(|i| (0..3).map(|j| fe(Fp::from((i + 3 + j) as u64).invert().unwrap())).collect())
        .collect();
    let arks = (0..5).map(|_| (0..3).map(|_| next()).collect()).collect();
    let pad = vec![Fe::one(); 2 - size];
    Parameters::new(2, 3, mds, arks, 1 << 65, pad, size).unwrap()
}

struct Demo;

impl Source for Demo {
    fn shape() -> Shape {
        let mut cs = Shape::new();
        DemoCircuit1::configure(&mut cs);
        cs
    }
}

fn demo(x: u64, y: u64, z: u64) -> bool {
    let mut cs = Shape::new();
    let config = DemoCircuit1::configure(&mut cs);
    let public = [Fp::from(y), Fp::from(z)];
    let mut table = Table::new(cs, vec![fes(&public)]);
    DemoCircuit1::new(Fe::from_u64(x)).synthesize(config, &mut table);
    both::<Demo>(table, &public)
}

#[test]
fn the_mock_prover_agrees_on_the_demo_circuit() {
    assert!(demo(2, 5, 50));
    assert!(demo(3, 5, 150));
    assert!(!demo(3, 5, 35));
}

struct Sponge<const SIZE: usize>;

impl<const SIZE: usize> Source for Sponge<SIZE> {
    fn shape() -> Shape {
        let mut cs = Shape::new();
        PoseidonCircuit::configure(&mut cs, &parameters(SIZE));
        cs
    }
}

fn sponge<const SIZE: usize>(x: &[Fp], public: &[Fp]) -> bool {
    let p = parameters(SIZE);
    let mut cs = Shape::new();
    let config = PoseidonCircuit::configure(&mut cs, &p);
    let mut table = Table::new(cs, vec![fes(public)]);
    PoseidonCircuit::new(fes(x)).synthesize(&p, config, &mut table);
    both::<Sponge<SIZE>>(table, public)
}

#[test]
fn the_mock_prover_agrees_on_the_sponge() {
    let x: Vec<Fp> = (1..=6u64).map(|i| Fp::from(i * i + 7).square()).collect();
    let digest = fps(&parameters(1).hash(&fes(&x)));
    assert_eq!(digest.len(), 1);
    assert!(sponge::<1>(&x, &digest));
    assert!(!sponge::<1>(&x, &[digest[0] + Fp::one()]));
    assert!(!sponge::<1>(&x[..5], &digest));

    let digest = fps(&parameters(2).hash(&fes(&x)));
    assert_eq!(digest.len(), 2);
    assert!(sponge::<2>(&x, &digest));
    assert!(!sponge::<2>(&x, &[digest[0], digest[1] + Fp::one()]));
    assert!(!sponge::<2>(&x, &[digest[1], digest[0]]));
}

struct Tree;

impl Source for Tree {
    fn shape() -> Shape {
        let mut cs = Shape::new();
        MerklePathCircuit::configure(&mut cs, &parameters(2));
        cs
    }
}

fn tree_table(left: &[Vec<Fp>], right: &[Vec<Fp>], m: usize, public: &[Fp]) -> Table {
    let circuit = MerklePathCircuit::new(
        left.iter().map(|n| fes(n)).collect(),
        right.iter().map(|n| fes(n)).collect(),
    );
    circuit.assemble(&parameters(2), m, fes(public)).unwrap()
}

fn tree(left: &[Vec<Fp>], right: &[Vec<Fp>], m: usize, public: &[Fp]) -> bool {
    both::<Tree>(tree_table(left, right, m, public), public)
}

/// A fixed sequence of numbers for the prover's blinding.
struct Sequence(u64);

impl RngCore for Sequence {
    fn next_u32(&mut self) -> u32 {
        (self.next_u64() >> 32) as u32
    }

    fn next_u64(&mut self) -> u64 {
        self.0 = self.0.wrapping_mul(6364136223846793005).wrapping_add(1442695040888963407);
        self.0 ^ (self.0 >> 29)
    }

    fn fill_bytes(&mut self, dest: &mut [u8]) {
        for chunk in dest.chunks_mut(8) {
            let bytes = self.next_u64().to_le_bytes();
            chunk.copy_from_slice(&bytes[..chunk.len()]);
        }
    }

    fn try_fill_bytes(&mut self, dest: &mut [u8]) -> Result<(), rand_core::Error> {
        self.fill_bytes(dest);
        Ok(())
    }
}

/// A proof for the table, and whether the verifier accepts it with the
/// public inputs `claimed`.
fn prove_and_verify<S: Source>(table: Table, public: &[Fp], claimed: &[Fp]) -> bool {
    let k = (usize::BITS - (table.rows() + 16).leading_zeros()).max(5);
    let circuit = Replay::<S> { table, witness: true, source: PhantomData };
    let empty_circuit = circuit.without_witnesses();

    let params: Params<EqAffine> = Params::new(k);
    let vk = keygen_vk(&params, &empty_circuit).expect("failed to generate vk");
    let pk = keygen_pk(&params, vk, &empty_circuit).expect("failed to generate pk");
    let mut transcript = Blake2bWrite::<_, _, Challenge255<_>>::init(vec![]);

    // Create a proof
    create_proof(&params, &pk, &[circuit], &[&[public]], Sequence(1), &mut transcript)
        .expect("proof generation should not fail");
    let proof: Vec<u8> = transcript.finalize();
    let mut transcript = Blake2bRead::<_, _, Challenge255<_>>::init(&proof[..]);
    let strategy = SingleVerifier::new(&params);
    verify_proof(&params, pk.get_vk(), strategy, &[&[claimed]], &mut transcript).is_ok()
}

#[test]
fn the_mock_prover_agrees_on_the_merkle_path() {
    let p = parameters(2);
    let node = |a: u64| vec![Fp::from(a).square(), Fp::from(a + 1).square()];
    let hash = |l: &Vec<Fp>, r: &Vec<Fp>| fps(&p.hash_pair(&fes(l), &fes(r)));
    // the leaves; their hash on the right of level 1; that level's hash on the
    // left of level 2; the root on both sides of level 3
    let h0 = hash(&node(1), &node(3));
    let h1 = hash(&node(5), &h0);
    let h2 = hash(&h1, &node(7));
    let left = vec![node(1), node(5), h1.clone(), h2.clone()];
    let right = vec![node(3), h0.clone(), node(7), h2.clone()];
    let index = [Fp::one(), Fp::one(), Fp::zero(), Fp::zero(), Fp::one()];
    let public: Vec<Fp> = node(3).into_iter().chain(index).chain(h2.clone()).collect();
    // a path that fills the depth, and the same path with padding
    let exact: Vec<Fp> = public[..5].iter().copied().chain(h2.clone()).collect();
    assert!(tree(&left, &right, 3, &exact));
    assert!(tree(&left, &right, 5, &public));

    // the root, the leaf, an index bit
    for i in [0, 3, 8] {
        let mut wrong = public.clone();
        wrong[i] += Fp::one();
        assert!(!tree(&left, &right, 5, &wrong));
    }
    // a node that is not the hash of the level below it
    let mut forged = right.clone();
    forged[1][0] += Fp::one();
    assert!(!tree(&left, &forged, 5, &public));
    // a sibling that was changed
    let mut forged = left.clone();
    forged[1][1] += Fp::one();
    assert!(!tree(&forged, &right, 5, &public));

    // a path that is all padding
    let root = node(9);
    let public: Vec<Fp> =
        root.iter().copied().chain([Fp::zero(), Fp::one()]).chain(root.clone()).collect();
    assert!(tree(&[root.clone()], &[root.clone()], 2, &public));
    assert!(!tree(&[node(4)], &[root.clone()], 2, &public));
    // a right node that is repeated is accepted, whatever it is
    assert!(tree(&[root.clone()], &[node(4)], 2, &public));
}

#[test]
fn full_merkle_circuit() {
    let p = parameters(2);
    let node = |a: u64| vec![Fp::from(a).square(), Fp::from(a + 1).square()];
    let hash = |l: &Vec<Fp>, r: &Vec<Fp>| fps(&p.hash_pair(&fes(l), &fes(r)));
    let h0 = hash(&node(1), &node(3));
    let h1 = hash(&h0, &node(5));
    let left = vec![node(1), h0.clone(), h1.clone()];
    let right = vec![node(3), node(5), h1.clone()];
    let index = [Fp::zero(), Fp::zero(), Fp::one()];
    let public: Vec<Fp> = node(1).into_iter().chain(index).chain(h1.clone()).collect();

    let table = tree_table(&left, &right, 3, &public);
    assert!(table.satisfied());
    assert!(prove_and_verify::<Tree>(table, &public, &public));

    // the proof is for the root that it was made with
    let table = tree_table(&left, &right, 3, &public);
    let mut other = public.clone();
    other[5] += Fp::one();
    assert!(!prove_and_verify::<Tree>(table, &public, &other));
}

/// The table once more, cell by cell, with the advice cell `changed` holding
/// one more than it did.
fn tampered(table: &Table, public: &[Fp], changed: (usize, usize)) -> Table {
    let shape = table.constraint_system().clone();
    let mut copy = Table::new(shape.clone(), vec![fes(public)]);
    copy.start_region();
    for row in 0..table.rows() {
        for index in 0..shape.num_advice {
            if let Some(v) = table.advice_value(index, row) {
                let v = if (index, row) == changed { v.add(&Fe::one()) } else { v };
                copy.assign_advice(AdviceColumn { index }, row, v);
            }
        }
        for index in 0..shape.num_fixed {
            if let Some(v) = table.fixed_value(index, row) {
                copy.assign_fixed(FixedColumn { index }, row, v);
            }
        }
        for index in 0..shape.gates.len() {
            if table.is_enabled(index, row) {
                copy.enable_selector(Switch { index }, row);
            }
        }
    }
    let cell = |copy: &Table, (index, row): (usize, usize)| AssignedCell {
        column: AdviceColumn { index },
        row,
        value: copy.advice_value(index, row).unwrap(),
    };
    for i in 0..table.num_copies() {
        let (a, b) = table.copy(i);
        let (a, b) = (cell(&copy, a), cell(&copy, b));
        copy.constrain_equal(&a, &b);
    }
    for i in 0..table.num_exposed() {
        let (a, (index, row)) = table.exposure(i);
        let a = cell(&copy, a);
        copy.constrain_instance(&a, InstanceColumn { index }, row);
    }
    copy
}

#[test]
fn the_mock_prover_refuses_a_tampered_table() {
    let p = parameters(1);
    let x: Vec<Fp> = (1..=3u64).map(|i| Fp::from(i + 10).square()).collect();
    let public = fps(&p.hash(&fes(&x)));
    let table = PoseidonCircuit::new(fes(&x)).assemble(&p, fes(&public)).unwrap();
    assert!(table.satisfied());

    // the same table, rebuilt, is accepted
    let same = tampered(&table, &public, (usize::MAX, 0));
    assert_eq!(same.rows(), table.rows());
    assert!(both::<Sponge<1>>(same, &public));

    // every advice cell of the first element's rows takes part in a gate or
    // in an equality constraint
    let rounds = 5;
    for row in 0..(1 + 3 + rounds + 1) {
        for column in 0..3 {
            if table.advice_value(column, row).is_none() {
                continue;
            }
            let forged = tampered(&table, &public, (column, row));
            assert!(!both::<Sponge<1>>(forged, &public), "row {row} column {column}");
        }
    }
    // the last state binds the digest
    let last = table.rows() - 1;
    assert!(!both::<Sponge<1>>(tampered(&table, &public, (0, last)), &public));
}
