use circuit_samples::chips::poseidon_chip::{PoseidonChip, PoseidonInstructions, States};
use circuit_samples::circuit::{add_rows, Layouter};
use circuit_samples::circuits::poseidon_circuit::utils::{Mds, Parameters, Spec, SpecError};
use circuit_samples::circuits::poseidon_circuit::{LayoutError, PoseidonCircuit};
use circuit_samples::field::Fe;
use circuit_samples::plonk::{Column, ConstraintSystem};
use ff::{Field, PrimeField};
use halo2_proofs::pasta::Fp;

fn fe(x: Fp) -> Fe {
    Fe::from_bytes(&x.to_repr())
}

fn fp(x: &Fe) -> Fp {
    Fp::from_repr(x.to_repr()).unwrap()
}

fn fes(v: &[Fp]) -> Vec<Fe> {
    v.iter().map(|x| fe(*x)).collect()
}

fn fps(v: &[Fe]) -> Vec<Fp> {
    v.iter().map(fp).collect()
}

/// A matrix of width `w` whose entry `(i, j)` is `1 / (i + w + j)`.
fn matrix(w: usize) -> Vec<Vec<Fp>> {
    (0..w)
        .map(|i| (0..w).map(|j| Fp::from((i + w + j) as u64).invert().unwrap()).collect())
        .collect()
}

/// `rounds` rows of `w` constants from a fixed sequence.
fn constants(rounds: usize, w: usize) -> Vec<Vec<Fp>> {
    let mut s: u64 = 0x9e37_79b9_7f4a_7c15;
    let mut next = || {
        s = s.wrapping_mul(6364136223846793005).wrapping_add(1442695040888963407);
        s
    };
    (0..rounds)
        .map(|_| {
            (0..w)
                .map(|_| {
                    let hi = next() as u128;
                    let lo = next() as u128;
                    Fp::from_u128((hi << 64) | lo).square()
                })
                .collect()
        })
        .collect()
}

fn inputs(n: usize) -> Vec<Fp> {
    (0..n).map(|i| Fp::from_u128(((i as u128 + 3) << 70) + 12345 * (i as u128 + 1))).collect()
}

/// A specification with a state of three elements, eight full and 56 partial
/// rounds, and elements of one field element followed by a pad of one.
#[derive(Debug, Default, Clone)]
struct P128Pow5T3;

impl Spec for P128Pow5T3 {
    fn full_rounds() -> usize {
        8
    }

    fn partial_rounds() -> usize {
        56
    }

    fn mds() -> Mds {
        matrix(3).iter().map(|r| fes(r)).collect()
    }

    fn arks() -> Vec<Vec<Fe>> {
        constants(64, 3).iter().map(|r| fes(r)).collect()
    }

    fn capacity() -> u128 {
        u128::pow(2, 65)
    }

    fn pad() -> Vec<Fe> {
        vec![Fe::one()]
    }

    fn element_size() -> usize {
        1
    }
}

/// The same permutation with elements of two field elements and no pad.
fn wide() -> Parameters {
    Parameters::new(
        8,
        56,
        P128Pow5T3::mds(),
        P128Pow5T3::arks(),
        u128::pow(2, 65),
        vec![],
        2,
    )
    .unwrap()
}

/// A small permutation: two full rounds around one partial round.
fn small() -> Parameters {
    Parameters::new(
        2,
        1,
        matrix(3).iter().map(|r| fes(r)).collect(),
        constants(3, 3).iter().map(|r| fes(r)).collect(),
        5,
        vec![Fe::one()],
        1,
    )
    .unwrap()
}

// The hash once more, computed on the field itself.

fn pow5(x: Fp) -> Fp {
    x.square().square() * x
}

fn mix(mid: &[Fp], mds: &[Vec<Fp>]) -> Vec<Fp> {
    (0..mid.len()).map(|i| (0..mid.len()).map(|j| mid[j] * mds[i][j]).sum()).collect()
}

fn full_round(state: &[Fp], ark: &[Fp], mds: &[Vec<Fp>]) -> Vec<Fp> {
    let mid: Vec<Fp> = (0..state.len()).map(|i| pow5(state[i] + ark[i])).collect();
    mix(&mid, mds)
}

fn partial_round(state: &[Fp], ark: &[Fp], mds: &[Vec<Fp>]) -> Vec<Fp> {
    let mut mid: Vec<Fp> = (0..state.len()).map(|i| state[i] + ark[i]).collect();
    mid[0] = pow5(mid[0]);
    mix(&mid, mds)
}

fn permutation(p: &Parameters, input: &[Fp]) -> Vec<Fp> {
    let mds: Vec<Vec<Fp>> = p.mds.iter().map(|r| fps(r)).collect();
    let arks: Vec<Vec<Fp>> = p.arks.iter().map(|r| fps(r)).collect();
    let half = p.full_rounds / 2;
    let mid = half + p.partial_rounds;
    let mut result = input.to_vec();
    for i in 0..half {
        result = full_round(&result, &arks[i], &mds);
    }
    for i in half..mid {
        result = partial_round(&result, &arks[i], &mds);
    }
    for i in mid..p.full_rounds + p.partial_rounds {
        result = full_round(&result, &arks[i], &mds);
    }
    result
}

fn absorbed(p: &Parameters, inputs: &[Fp]) -> Vec<Fp> {
    let w = p.mds.len();
    let mut states = vec![Fp::zero(); w];
    states[w - 1] = Fp::from_u128(p.capacity);
    for c in inputs.chunks(p.element_size) {
        let x: Vec<Fp> = c.iter().copied().chain(fps(&p.pad)).collect();
        for i in 0..w - 1 {
            states[i] += x[i];
        }
        states = permutation(p, &states);
    }
    states
}

fn hash(p: &Parameters, inputs: &[Fp]) -> Vec<Fp> {
    let mut states = absorbed(p, inputs);
    let mut out = vec![states[0]];
    for _ in 1..p.element_size {
        states = permutation(p, &states);
        out.push(states[0]);
    }
    out
}

/// Lays the hash of `x` out against the public inputs; whether the table is
/// satisfied, and its rows.
fn run(p: &Parameters, x: &[Fp], public: &[Fp]) -> (bool, usize) {
    let mut cs = ConstraintSystem::new();
    let config = PoseidonCircuit::configure(&mut cs, p);
    let circuit = PoseidonCircuit::new(fes(x));
    let mut layouter = Layouter::new(cs, vec![fes(public)]);
    circuit.synthesize(p, config, &mut layouter);
    assert!(layouter.supported());
    (layouter.satisfied(), layouter.rows())
}

/// proves y=poseidon(x)
fn function_poseidon(n: usize) {
    let p = Parameters::from_spec::<P128Pow5T3>().unwrap();
    let x = inputs(n);
    let mut outputs = hash(&p, &x);
    assert_eq!(fps(&p.hash(&fes(&x))), outputs);

    let (ok, rows) = run(&p, &x, &outputs);
    // the initial state, and for each input three rows to add it and a row
    // for the state before and after each of the 64 rounds
    assert_eq!(rows, 1 + n * (3 + 65));
    assert!(ok);

    outputs[0] += Fp::one();
    let (ok, _) = run(&p, &x, &outputs);
    assert!(!ok);
}

#[test]
fn function_poseidon_2() {
    function_poseidon(2);
}

#[test]
fn function_poseidon_4() {
    function_poseidon(4);
}

#[test]
fn function_poseidon_6() {
    function_poseidon(6);
}

#[test]
fn function_poseidon_10() {
    function_poseidon(10);
}

#[test]
fn function_poseidon_100() {
    function_poseidon(100);
}

#[test]
fn from_spec_reads_the_specification() {
    let p = Parameters::from_spec::<P128Pow5T3>().unwrap();
    assert_eq!(p.full_rounds(), 8);
    assert_eq!(p.partial_rounds(), 56);
    assert_eq!(p.capacity(), 1u128 << 65);
    assert_eq!(p.element_size(), 1);
    assert_eq!(fps(&p.pad()), vec![Fp::one()]);
    assert_eq!(p.mds().len(), 3);
    assert_eq!(fps(&p.mds()[1]), matrix(3)[1]);
    assert_eq!(p.arks().len(), 64);
    assert_eq!(fps(&p.arks()[63]), constants(64, 3)[63]);
}

#[test]
fn new_refuses_a_state_of_one_element() {
    let r = Parameters::new(2, 1, vec![vec![Fe::one()]], vec![vec![Fe::one()]; 3], 0, vec![], 1);
    assert_eq!(r.unwrap_err(), SpecError::Width);
}

#[test]
fn new_refuses_a_matrix_that_is_not_square() {
    let mut mds = P128Pow5T3::mds();
    mds[2].pop();
    let r = Parameters::new(8, 56, mds, P128Pow5T3::arks(), 0, vec![Fe::one()], 1);
    assert_eq!(r.unwrap_err(), SpecError::Matrix);
}

#[test]
fn new_refuses_an_odd_number_of_full_rounds() {
    let r = Parameters::new(
        7,
        57,
        P128Pow5T3::mds(),
        P128Pow5T3::arks(),
        0,
        vec![Fe::one()],
        1,
    );
    assert_eq!(r.unwrap_err(), SpecError::OddFullRounds);
}

#[test]
fn new_refuses_constants_that_do_not_match_the_rounds() {
    let mut arks = P128Pow5T3::arks();
    arks.pop();
    let r = Parameters::new(8, 56, P128Pow5T3::mds(), arks, 0, vec![Fe::one()], 1);
    assert_eq!(r.unwrap_err(), SpecError::RoundCount);
    let r = Parameters::new(0, 0, P128Pow5T3::mds(), vec![], 0, vec![Fe::one()], 1);
    assert_eq!(r.unwrap_err(), SpecError::RoundCount);
    let r = Parameters::new(usize::MAX - 1, 2, P128Pow5T3::mds(), vec![], 0, vec![Fe::one()], 1);
    assert_eq!(r.unwrap_err(), SpecError::RoundCount);
}

#[test]
fn new_refuses_constants_of_the_wrong_width() {
    let mut arks = P128Pow5T3::arks();
    arks[10].push(Fe::zero());
    let r = Parameters::new(8, 56, P128Pow5T3::mds(), arks, 0, vec![Fe::one()], 1);
    assert_eq!(r.unwrap_err(), SpecError::Constants);
}

#[test]
fn new_refuses_a_chunk_that_does_not_fill_the_rate() {
    let r = Parameters::new(8, 56, P128Pow5T3::mds(), P128Pow5T3::arks(), 0, vec![], 1);
    assert_eq!(r.unwrap_err(), SpecError::ChunkSize);
    let r = Parameters::new(
        8,
        56,
        P128Pow5T3::mds(),
        P128Pow5T3::arks(),
        0,
        vec![Fe::one(), Fe::one()],
        0,
    );
    assert_eq!(r.unwrap_err(), SpecError::ChunkSize);
    let r = Parameters::new(8, 56, P128Pow5T3::mds(), P128Pow5T3::arks(), 0, vec![], 3);
    assert_eq!(r.unwrap_err(), SpecError::ChunkSize);
}

#[test]
fn new_reports_the_first_reason() {
    // an odd number of full rounds and a pad that is too long
    let r = Parameters::new(
        3,
        61,
        P128Pow5T3::mds(),
        P128Pow5T3::arks(),
        0,
        vec![Fe::one(); 4],
        1,
    );
    assert_eq!(r.unwrap_err(), SpecError::OddFullRounds);
}

#[test]
fn permutation_matches_the_field_s_own() {
    let p = small();
    let state = [Fp::from(1), Fp::from(2), Fp::from(3)];
    assert_eq!(fps(&p.permutation(&fes(&state))), permutation(&p, &state));
    let p = wide();
    let state = inputs(3);
    assert_eq!(fps(&p.permutation(&fes(&state))), permutation(&p, &state));
}

#[test]
fn one_full_round_of_a_known_state() {
    // two rounds, both full; identity matrix scaled by 2; constants 1
    let two = Fe::from_u64(2);
    let zero = Fe::zero();
    let p = Parameters::new(
        2,
        0,
        vec![vec![two, zero], vec![zero, two]],
        vec![vec![Fe::one(); 2]; 2],
        0,
        vec![],
        1,
    )
    .unwrap();
    // (1, 0) -> 2 * ((1 + 1)^5, (0 + 1)^5) = (64, 2) -> 2 * (65^5, 3^5)
    let out = p.permutation(&vec![Fe::one(), Fe::zero()]);
    assert_eq!(fps(&out), vec![Fp::from(2 * 65u64.pow(5)), Fp::from(2 * 243)]);
}

#[test]
fn a_partial_round_raises_the_first_element_only() {
    // one partial round, identity matrix, constants 1
    let one = Fe::one();
    let zero = Fe::zero();
    let p = Parameters::new(
        0,
        1,
        vec![vec![one, zero], vec![zero, one]],
        vec![vec![Fe::one(); 2]; 1],
        0,
        vec![],
        1,
    )
    .unwrap();
    // (1, 2) -> ((1 + 1)^5, 2 + 1) = (32, 3)
    let out = p.permutation(&vec![Fe::from_u64(1), Fe::from_u64(2)]);
    assert_eq!(fps(&out), vec![Fp::from(32), Fp::from(3)]);
}

#[test]
fn hash_is_repeatable_and_tells_inputs_apart() {
    let p = wide();
    let x = inputs(6);
    let first = fps(&p.hash(&fes(&x)));
    let second = fps(&p.hash(&fes(&x)));
    assert_eq!(first, second);
    assert_eq!(first, hash(&p, &x));
    assert_eq!(first.len(), 2);
    for i in 0..x.len() {
        let mut y = x.clone();
        y[i] += Fp::one();
        assert_ne!(fps(&p.hash(&fes(&y))), first);
    }
}

#[test]
fn hash_pair_is_the_state_after_both_nodes() {
    let p = wide();
    let left = inputs(2);
    let right: Vec<Fp> = inputs(4)[2..].to_vec();
    let both: Vec<Fp> = left.iter().chain(right.iter()).copied().collect();
    let want = absorbed(&p, &both)[..2].to_vec();
    assert_eq!(fps(&p.hash_pair(&fes(&left), &fes(&right))), want);
    assert_ne!(fps(&p.hash_pair(&fes(&right), &fes(&left))), want);
}

#[test]
fn a_digest_of_two_elements_takes_one_more_permutation() {
    let p = wide();
    let x = inputs(4);
    let digest = hash(&p, &x);
    assert_eq!(digest.len(), 2);
    let (ok, rows) = run(&p, &x, &digest);
    assert_eq!(rows, 1 + 2 * (3 + 65) + 65);
    assert!(ok);
    for i in 0..2 {
        let mut wrong = digest.clone();
        wrong[i] += Fp::one();
        assert!(!run(&p, &x, &wrong).0);
    }
    // public inputs past the digest are not bound
    let mut longer = digest.clone();
    longer.push(Fp::from(9));
    assert!(run(&p, &x, &longer).0);
}

#[test]
fn configure_allocates_the_columns_and_gates() {
    let p = small();
    let mut cs = ConstraintSystem::new();
    let config = PoseidonCircuit::configure(&mut cs, &p);
    assert_eq!(cs.num_advice, 3);
    assert_eq!(cs.num_fixed, 3);
    assert_eq!(cs.num_instance, 1);
    assert_eq!(cs.gates.len(), 3);
    let c = &config.arth_config;
    assert_eq!(cs.gates[c.s_add_inputs.index].name, "add-inputs");
    assert_eq!(cs.gates[c.s_fbox.index].name, "full box");
    assert_eq!(cs.gates[c.s_pbox.index].name, "partial box");
    assert_eq!(cs.gates[c.s_fbox.index].polys.len(), 3);
    assert_eq!(cs.equality.len(), 4);
    assert!(matches!(cs.equality[0], Column::Instance(i) if i.index == c.output.index));
    assert_eq!(c.capacity, 5);
    assert_eq!(c.arc_paras.len(), 3);
}

fn small_chip() -> (Parameters, PoseidonChip, Layouter) {
    let p = small();
    let mut cs = ConstraintSystem::new();
    let config = PoseidonCircuit::configure(&mut cs, &p);
    let layouter = Layouter::new(cs, vec![vec![Fe::from_u64(7)]]);
    (p, PoseidonChip::new(config.arth_config), layouter)
}

fn state_values(s: &States) -> Vec<Fp> {
    s.0.iter().map(|d| fp(&d.0.value)).collect()
}

#[test]
fn initiate_assigns_zeros_and_the_capacity() {
    let (_, chip, mut layouter) = small_chip();
    let s = chip.initiate(&mut layouter);
    assert_eq!(state_values(&s), vec![Fp::zero(), Fp::zero(), Fp::from(5)]);
    assert_eq!(layouter.rows(), 1);
    assert!(layouter.satisfied());
    assert_eq!(chip.config().state.len(), 3);
    chip.loaded();
}

#[test]
fn load_inputs_adds_to_the_rate_slots() {
    let (_, chip, mut layouter) = small_chip();
    let s = chip.initiate(&mut layouter);
    let (s, cells) = chip.load_inputs(&mut layouter, s, &vec![Fe::from_u64(10), Fe::from_u64(20)]);
    assert_eq!(state_values(&s), vec![Fp::from(10), Fp::from(20), Fp::from(5)]);
    assert_eq!(cells.len(), 2);
    assert_eq!(fp(&cells[1].0.value), Fp::from(20));
    let (s, _) = chip.load_inputs(&mut layouter, s, &vec![Fe::from_u64(1), Fe::from_u64(2)]);
    assert_eq!(state_values(&s), vec![Fp::from(11), Fp::from(22), Fp::from(5)]);
    assert_eq!(layouter.rows(), 7);
    assert!(layouter.satisfied());
}

#[test]
fn the_chip_permutes_as_the_field_does() {
    let (p, chip, mut layouter) = small_chip();
    let s = chip.initiate(&mut layouter);
    let (s, _) = chip.load_inputs(&mut layouter, s, &vec![Fe::from_u64(10), Fe::from_u64(20)]);
    let before = state_values(&s);
    let s = chip.permutation(&mut layouter, s, 2, 1);
    assert_eq!(state_values(&s), permutation(&p, &before));
    assert_eq!(layouter.rows(), 1 + 3 + 4);
    assert!(layouter.satisfied());
    let copy = s.duplicate();
    assert_eq!(state_values(&copy), state_values(&s));
    assert_eq!(States::from_cells(&s.to_cells()).0.len(), 3);
}

#[test]
fn expose_public_binds_the_first_element() {
    let (_, chip, mut layouter) = small_chip();
    let s = chip.initiate(&mut layouter);
    let (s, _) = chip.load_inputs(&mut layouter, s, &vec![Fe::from_u64(7), Fe::from_u64(20)]);
    let mut bound = layouter.clone();
    chip.expose_public(&mut bound, s.duplicate(), 0);
    assert!(bound.satisfied());
    chip.expose_public(&mut layouter, s, 1);
    assert!(!layouter.satisfied());
}

#[test]
fn a_forged_round_is_refused() {
    let (p, chip, mut layouter) = small_chip();
    let s = chip.initiate(&mut layouter);
    let s = chip.permutation(&mut layouter, s, 2, 1);
    assert!(layouter.satisfied());
    // the same rows with one cell of the last state changed
    let mut cs = ConstraintSystem::new();
    let config = PoseidonCircuit::configure(&mut cs, &p);
    let mut forged = Layouter::new(cs, vec![]);
    forged.start_region();
    for row in 0..layouter.rows() {
        for column in 0..3 {
            if let Some(v) = layouter.advice_value(column, row) {
                let v = if row == 4 && column == 1 { v.add(&Fe::one()) } else { v };
                forged.assign_advice(config.arth_config.state[column], row, v);
            }
            if let Some(v) = layouter.fixed_value(column, row) {
                forged.assign_fixed(config.arth_config.arc[column], row, v);
            }
        }
        for gate in 0..3 {
            if layouter.is_enabled(gate, row) {
                forged.enable_selector(circuit_samples::plonk::Selector { index: gate }, row);
            }
        }
    }
    assert!(!forged.satisfied());
    assert!(!forged.gate_holds(config.arth_config.s_fbox.index, 3));
    assert!(forged.gate_holds(config.arth_config.s_pbox.index, 2));
    let _ = s;
}

#[test]
fn error_names_the_first_reason() {
    let mut p = small();
    assert_eq!(p.error(), None);
    p.full_rounds = 1;
    p.partial_rounds = 2;
    assert_eq!(p.error(), Some(SpecError::OddFullRounds));
    p.mds.pop();
    assert_eq!(p.error(), Some(SpecError::Matrix));
}

#[test]
fn assemble_lays_out_against_the_public_inputs() {
    let p = wide();
    let x = inputs(4);
    let digest = hash(&p, &x);
    let circuit = PoseidonCircuit::new(fes(&x));
    assert_eq!(circuit.rows(&p), Some(1 + 2 * 68 + 65));
    let table = circuit.assemble(&p, fes(&digest)).unwrap();
    assert_eq!(table.rows(), 1 + 2 * 68 + 65);
    assert!(table.supported());
    assert!(table.satisfied());
    let table = circuit.assemble(&p, fes(&[digest[1], digest[0]])).unwrap();
    assert!(!table.satisfied());
    // public inputs that are not given are zero
    let table = circuit.assemble(&p, vec![]).unwrap();
    assert!(!table.satisfied());
}

#[test]
fn assemble_refuses_what_cannot_be_laid_out() {
    let p = wide();
    let mut broken = wide();
    broken.arks.pop();
    let r = PoseidonCircuit::new(fes(&inputs(4))).assemble(&broken, vec![]);
    assert_eq!(r.unwrap_err(), LayoutError::Parameters(SpecError::RoundCount));
    // an input that is not a whole number of elements, and an empty one
    let r = PoseidonCircuit::new(fes(&inputs(3))).assemble(&p, vec![]);
    assert_eq!(r.unwrap_err(), LayoutError::Input);
    let r = PoseidonCircuit::new(vec![]).assemble(&p, vec![]);
    assert_eq!(r.unwrap_err(), LayoutError::Input);
}

#[test]
fn add_rows_counts_or_gives_up() {
    assert_eq!(add_rows(5, 7, 3), Some(26));
    assert_eq!(add_rows(5, 7, 0), Some(5));
    assert_eq!(add_rows(usize::MAX - 2, 1, 2), Some(usize::MAX));
    assert_eq!(add_rows(usize::MAX - 2, 1, 3), None);
    assert_eq!(add_rows(1, usize::MAX, 2), None);
}
