use circuit_samples::chips::arth_chips::{ArthChip, NumericInstructions};
use circuit_samples::circuit::Layouter;
use circuit_samples::circuits::{arth_circuit, arth_circuits};
use circuit_samples::field::Fe;
use circuit_samples::plonk::{Column, ConstraintSystem};

fn chip() -> (ArthChip, Layouter) {
    let mut cs = ConstraintSystem::new();
    let advice = [cs.advice_column(), cs.advice_column()];
    let instance = cs.instance_column();
    let config = ArthChip::configure(&mut cs, advice, instance);
    let layouter = Layouter::new(cs, vec![vec![Fe::from_u64(12), Fe::from_u64(7)]]);
    (ArthChip::new(config), layouter)
}

/// demo1 proves (x^3+x)y=z for case(x,y,z)
fn demo1(x: u64, y: u64, z: u64) -> bool {
    let mut cs = ConstraintSystem::new();
    let config = arth_circuit::DemoCircuit1::configure(&mut cs);
    let circuit = arth_circuit::DemoCircuit1::new(Fe::from_u64(x));
    let mut layouter = Layouter::new(cs, vec![vec![Fe::from_u64(y), Fe::from_u64(z)]]);
    circuit.synthesize(config, &mut layouter);
    assert_eq!(layouter.rows(), 8);
    assert!(layouter.supported());
    layouter.satisfied()
}

fn demo1_by_products(x: u64, y: u64, z: u64) -> bool {
    let mut cs = ConstraintSystem::new();
    let config = arth_circuits::DemoCircuit1::configure(&mut cs);
    let circuit = arth_circuits::DemoCircuit1::new(Fe::from_u64(x));
    let mut layouter = Layouter::new(cs, vec![vec![Fe::from_u64(y), Fe::from_u64(z)]]);
    circuit.synthesize(config, &mut layouter);
    assert_eq!(layouter.rows(), 10);
    layouter.satisfied()
}

#[test]
fn fuction_demo1_3_5_35() {
    let (x, y, z) = (3u64, 5u64, 35u64);
    assert_eq!(demo1(x, y, z), y * (x.pow(3) + x) == z);
    assert!(!demo1(x, y, z));
}

#[test]
fn fuction_demo1_2_5_50() {
    let (x, y, z) = (2u64, 5u64, 50u64);
    assert_eq!(demo1(x, y, z), y * (x.pow(3) + x) == z);
    assert!(demo1(x, y, z));
}

#[test]
fn demo1_accepts_exactly_the_product() {
    assert!(demo1(3, 5, 150));
    assert!(!demo1(3, 5, 151));
    assert!(!demo1(3, 4, 150));
    assert!(demo1(0, 9, 0));
}

#[test]
fn demo1_by_products_agrees() {
    assert!(demo1_by_products(2, 5, 50));
    assert!(demo1_by_products(3, 5, 150));
    assert!(!demo1_by_products(3, 5, 35));
}

#[test]
fn configure_declares_three_gates() {
    let mut cs = ConstraintSystem::new();
    let advice = [cs.advice_column(), cs.advice_column()];
    let instance = cs.instance_column();
    let config = ArthChip::configure(&mut cs, advice, instance);
    assert_eq!(cs.gates.len(), 3);
    assert_eq!(cs.gates[config.s_mul.index].name, "mul");
    assert_eq!(cs.gates[config.s_add.index].name, "add");
    assert_eq!(cs.gates[config.s_cube.index].name, "cube");
    assert_eq!(cs.equality.len(), 3);
    assert!(matches!(cs.equality[0], Column::Instance(_)));
    let chip = ArthChip::new(config);
    assert_eq!(chip.config().advice[1].index, 1);
    chip.loaded();
}

#[test]
fn mul_add_and_cube_compute_in_the_field() {
    let (chip, mut layouter) = chip();
    let a = chip.load_private(&mut layouter, Fe::from_u64(3));
    let b = chip.load_private(&mut layouter, Fe::from_u64(4));
    let p = chip.mul(&mut layouter, a, b);
    assert!(p.value.value.eq(&Fe::from_u64(12)));
    let s = chip.add(&mut layouter, a, b);
    assert!(s.value.value.eq(&Fe::from_u64(7)));
    let c = chip.cube(&mut layouter, a);
    assert!(c.value.value.eq(&Fe::from_u64(27)));
    assert_eq!(layouter.rows(), 8);
    assert!(layouter.satisfied());
    chip.expose_public(&mut layouter, p, 0);
    chip.expose_public(&mut layouter, s, 1);
    assert!(layouter.satisfied());
    chip.expose_public(&mut layouter, c, 1);
    assert!(!layouter.satisfied());
}

#[test]
fn load_public_reads_the_instance_column() {
    let (chip, mut layouter) = chip();
    let y = chip.load_public(&mut layouter, 1);
    assert!(y.value.value.eq(&Fe::from_u64(7)));
    assert!(layouter.satisfied());
}

#[test]
fn a_forged_output_breaks_its_gate() {
    // a table in which the output is not the product
    let mut cs = ConstraintSystem::new();
    let advice = [cs.advice_column(), cs.advice_column()];
    let instance = cs.instance_column();
    let config = ArthChip::configure(&mut cs, advice, instance);
    let mut bad = Layouter::new(cs, vec![]);
    bad.start_region();
    bad.enable_selector(config.s_mul, 0);
    bad.assign_advice(advice[0], 0, Fe::from_u64(3));
    bad.assign_advice(advice[1], 0, Fe::from_u64(4));
    let mut good = bad.clone();
    bad.assign_advice(advice[0], 1, Fe::from_u64(13));
    assert!(!bad.satisfied());
    good.assign_advice(advice[0], 1, Fe::from_u64(12));
    assert!(good.satisfied());
}
