//! A circuit for `(x^3 + x) * y = z`, with `x` private and `y`, `z` public.

use crate::chips::arth_chips::{ArthChip, ArthConfig, NumericInstructions};
use crate::circuit::Layouter;
use crate::field::{fadd, fcube, fmul, Fe};
use crate::plonk::{
    lemma_columns_extend, lemma_extends_refl, lemma_extends_trans, ConstraintSystem, Table,
};
use vstd::prelude::*;

verus! {

/// The configuration of the circuit: that of its chip.
#[derive(Clone, Copy, Debug)]
pub struct DemoConfig1 {
    pub arth_config: ArthConfig,
}

/// The circuit, with its private input.
#[derive(Clone, Copy, Debug)]
pub struct DemoCircuit1 {
    x: Fe,
}

impl DemoCircuit1 {
    /// The private input.
    pub closed spec fn view(&self) -> nat {
        self.x@
    }

    /// The circuit for a private input.
    pub fn new(input: Fe) -> (r: DemoCircuit1)
        ensures
            r@ == input@,
    {
        DemoCircuit1 { x: input }
    }

    /// Allocates two advice columns and an instance column and configures the
    /// chip over them.
    pub fn configure(meta: &mut ConstraintSystem) -> (config: DemoConfig1)
        requires
            old(meta).num_advice + 2 <= usize::MAX,
            old(meta).num_instance < usize::MAX,
        ensures
            config.arth_config.wf(),
            config.arth_config.installed(final(meta).polys()),
            config.arth_config.advice[0].index == old(meta).num_advice,
            config.arth_config.advice[1].index == old(meta).num_advice + 1,
            config.arth_config.instance.index == old(meta).num_instance,
            final(meta).num_advice == old(meta).num_advice + 2,
            final(meta).num_fixed == old(meta).num_fixed,
            final(meta).num_instance == old(meta).num_instance + 1,
            final(meta).polys().len() == old(meta).polys().len() + 3,
            old(meta).polys().is_prefix_of(final(meta).polys()),
            config.arth_config.wired(final(meta).table(Seq::empty())),
    {
        // We create the two advice columns that the chip uses for its inputs.
        let a0 = meta.advice_column();
        let a1 = meta.advice_column();
        let advice = [a0, a1];
        // We also need an instance column to store public inputs.
        let instance = meta.instance_column();
        let ghost mid = meta.polys();
        assert(mid =~= old(meta).polys());
        DemoConfig1 { arth_config: ArthChip::configure(meta, advice, instance) }
    }

    /// Lays out `(x^3 + x) * y` with `y` the first public input, and binds the
    /// result to the second. The table stays satisfied exactly when the second
    /// public input is that value.
    pub fn synthesize(&self, config: DemoConfig1, layouter: &mut Layouter)
        requires
            config.arth_config.wf(),
            config.arth_config.installed(old(layouter)@.gates),
            old(layouter)@.rows + 8 < usize::MAX,
        ensures
            final(layouter)@.extends(old(layouter)@),
            final(layouter)@.rows == old(layouter)@.rows + 8,
            old(layouter)@.satisfied() ==> (final(layouter)@.satisfied() <==> fmul(
                fadd(fcube(self@), self@),
                old(layouter)@.instance_at(config.arth_config.instance.index as int, 0),
            ) == old(layouter)@.instance_at(config.arth_config.instance.index as int, 1)),
            forall|t: Table| #[trigger]
                t.extends(final(layouter)@) && t.satisfied() ==> fmul(
                    fadd(fcube(self@), self@),
                    old(layouter)@.instance_at(config.arth_config.instance.index as int, 0),
                ) == old(layouter)@.instance_at(config.arth_config.instance.index as int, 1),
            fmul(
                fadd(fcube(self@), self@),
                old(layouter)@.instance_at(config.arth_config.instance.index as int, 0),
            ) != old(layouter)@.instance_at(config.arth_config.instance.index as int, 1)
                ==> !final(layouter)@.satisfied(),
            old(layouter)@.supported() && config.arth_config.wired(old(layouter)@)
                ==> final(layouter)@.supported(),
    {
        let ghost t0 = layouter@;
        let chip = ArthChip::new(config.arth_config);
        let x = chip.load_private(layouter, self.x);
        let ghost t1 = layouter@;
        proof {
            lemma_columns_extend(t0, t1);
        }
        let y = chip.load_public(layouter, 0);
        let ghost t2 = layouter@;
        proof {
            lemma_extends_trans(t0, t1, t2);
            lemma_columns_extend(t0, t2);
            assert(t1.advice.contains_key(x.value.key()));
        }
        let x3 = chip.cube(layouter, x);
        let ghost t3 = layouter@;
        proof {
            lemma_extends_trans(t0, t2, t3);
            lemma_columns_extend(t0, t3);
            lemma_extends_trans(t1, t2, t3);
            assert(t1.advice.contains_key(x.value.key()));
        }
        let x3_x = chip.add(layouter, x3, x);
        let ghost t4 = layouter@;
        proof {
            lemma_extends_trans(t0, t3, t4);
            lemma_columns_extend(t0, t4);
            lemma_extends_trans(t2, t3, t4);
            assert(t2.advice.contains_key(y.value.key()));
        }
        let y_x3_x = chip.mul(layouter, x3_x, y);
        let ghost t5 = layouter@;
        proof {
            lemma_extends_trans(t0, t4, t5);
            lemma_columns_extend(t0, t5);
        }
        chip.expose_public(layouter, y_x3_x, 1);
        proof {
            let t6 = layouter@;
            lemma_extends_trans(t0, t1, t2);
            lemma_extends_trans(t0, t2, t3);
            lemma_extends_trans(t0, t3, t4);
            lemma_extends_trans(t0, t4, t5);
            lemma_extends_trans(t0, t5, t6);
            lemma_extends_refl(t6);
        }
    }
}

} // verus!
