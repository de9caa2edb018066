//! Interpreting Frobenius diagrams in any symmetric monoidal category whose
//! objects carry a special Frobenius algebra.
//!
//! An implementor gives the four Frobenius generators; identities, braidings
//! and the monoidal structure come from its other traits, black boxes from a
//! closure. A diagram is interpreted layer by layer: the generators of a
//! layer side by side, the layers composed in order. A spider is interpreted
//! through its decomposition into generators.
use vstd::prelude::*;

use crate::category::{ComposableMutating, HasIdentity};
use crate::errors::CatgraphError;
use crate::frobenius::{
    generator_op, special_frobenius_morphism, FrobeniusLayer, FrobeniusMorphism, FrobeniusOperation,
};
use crate::label::Label;
use crate::monoidal::{Monoidal, MonoidalMutatingMorphism, SymmetricMonoidalMorphism};
use crate::permutation::{perm_try_from, perm_values};

verus! {

/// The interpreter of black boxes can be called on every box.
pub open spec fn interprets_all_boxes<L, B, T, F: Fn(&B, &[L], &[L]) -> Result<T, CatgraphError>>(f: F) -> bool {
    forall|b: &B, x: &[L], y: &[L]| #[trigger] f.requires((b, x, y))
}

/// `T` can build the morphism of every braiding generator of the diagram.
pub open spec fn braidings_fit<L: Label, B, T: SymmetricMonoidalMorphism<L>>(d: Seq<Seq<FrobeniusOperation<L, B>>>) -> bool {
    forall|i: int, j: int|
        0 <= i < d.len() && 0 <= j < d[i].len() ==> (#[trigger] d[i][j] matches FrobeniusOperation::SymmetricBraiding(
            z1,
            z2,
        ) ==> T::permutation_fits(seq![0usize, 1usize], seq![z1, z2]))
}

/// The result of interpreting a black box: what the interpreter gives for
/// its label and words.
pub open spec fn box_result<L, B, T, F: Fn(&B, &[L], &[L]) -> Result<T, CatgraphError>>(
    f: F,
    l: B,
    s: Seq<L>,
    t: Seq<L>,
    r: Result<T, CatgraphError>,
) -> bool {
    exists|x: &[L], y: &[L]| x@ == s && y@ == t && #[trigger] f.ensures((&l, x, y), r)
}

/// Morphisms of a symmetric monoidal category in which every object carries
/// a special Frobenius algebra: Frobenius diagrams can be interpreted in it.
pub trait Frobenius<Lambda: Label, BlackBoxLabel: Clone>: SymmetricMonoidalMorphism<Lambda> + HasIdentity<
    Vec<Lambda>,
> + MonoidalMutatingMorphism<Vec<Lambda>> {
    /// The unit `[] → [z]`.
    fn interpret_unit(z: Lambda) -> Self;

    /// The counit `[z] → []`.
    fn interpret_counit(z: Lambda) -> Self;

    /// The multiplication `[z, z] → [z]`.
    fn interpret_multiplication(z: Lambda) -> Self;

    /// The comultiplication `[z] → [z, z]`.
    fn interpret_comultiplication(z: Lambda) -> Self;

    /// The interpretation of one generator: the four Frobenius generators
    /// as given, an identity by `identity`, a braiding as the permutation
    /// with the images `[0, 1]` of its two labels, a black box by the
    /// interpreter, and a spider through its decomposition into generators.
    /// Fails where the braiding or a black box fails, or where the spider's
    /// decomposition cannot be assembled.
    fn basic_interpret<F>(
        single_step: &FrobeniusOperation<Lambda, BlackBoxLabel>,
        black_box_interpreter: &F,
    ) -> (r: Result<Self, CatgraphError>) where
        F: Fn(&BlackBoxLabel, &[Lambda], &[Lambda]) -> Result<Self, CatgraphError>,

        requires
            interprets_all_boxes(*black_box_interpreter),
            braidings_fit::<Lambda, BlackBoxLabel, Self>(seq![seq![*single_step]]),
        ensures
            generator_op(*single_step) ==> r is Ok,
        default_ensures
            generator_op(*single_step) ==> r is Ok,
            *single_step matches FrobeniusOperation::UnSpecifiedBox(l, s, t) ==> box_result(
                *black_box_interpreter,
                l,
                s@,
                t@,
                r,
            ),
    {
        match single_step {
            FrobeniusOperation::SymmetricBraiding(z1, z2) => {
                let mut images: Vec<usize> = Vec::new();
                images.push(0);
                images.push(1);
                assert(crate::permutation::is_bijection(images@));
                let transposition = match perm_try_from(images) {
                    Some(p) => p,
                    None => {
                        proof {
                            assert(false);
                        }
                        return Err(CatgraphError::Interpret { context: String::from_str("") });
                    },
                };
                let mut types: Vec<Lambda> = Vec::new();
                types.push(*z1);
                types.push(*z2);
                assert(seq![seq![*single_step]][0][0] == *single_step);
                assert(types@ == seq![*z1, *z2]);
                assert(perm_values(transposition) == seq![0usize, 1usize]);
                Self::from_permutation(transposition, types.as_slice(), true)
            },
            FrobeniusOperation::UnSpecifiedBox(bbl, z1, z2) => {
                let r = black_box_interpreter(bbl, z1.as_slice(), z2.as_slice());
                assert(box_result(*black_box_interpreter, *bbl, z1@, z2@, r));
                r
            },
            FrobeniusOperation::Spider(z, d1, d2) => {
                let broken_down: FrobeniusMorphism<Lambda, BlackBoxLabel> = special_frobenius_morphism(*d1, *d2, *z);
                interpret_generator_diagram(
                    &broken_down,
                    &Self::interpret_unit,
                    &Self::interpret_counit,
                    &Self::interpret_multiplication,
                    &Self::interpret_comultiplication,
                )
            },
            _ => Ok(
                interpret_generator(
                    single_step,
                    &Self::interpret_unit,
                    &Self::interpret_counit,
                    &Self::interpret_multiplication,
                    &Self::interpret_comultiplication,
                ),
            ),
        }
    }

    /// The interpretation of a diagram: the identity on its domain, composed
    /// with each layer in turn, a layer being the interpretations of its
    /// generators side by side. Fails at a layer with no generators, and
    /// where interpreting a generator or composing fails.
    fn interpret_frob<F>(
        morphism: &FrobeniusMorphism<Lambda, BlackBoxLabel>,
        black_box_interpreter: &F,
    ) -> (r: Result<Self, CatgraphError>) where
        F: Fn(&BlackBoxLabel, &[Lambda], &[Lambda]) -> Result<Self, CatgraphError>,

        requires
            interprets_all_boxes(*black_box_interpreter),
            braidings_fit::<Lambda, BlackBoxLabel, Self>(morphism.diagram()),
        default_ensures
            r is Ok ==> forall|i: int| 0 <= i < morphism.diagram().len() ==> #[trigger] morphism.diagram()[i].len() > 0,
            morphism.diagram().len() == 0 ==> r is Ok,
    {
        let layers = morphism.layers();
        let mut answer = Self::identity(&morphism.domain());
        let mut i: usize = 0;
        while i < layers.len()
            invariant
                i <= layers@.len(),
                crate::frobenius::layer_views(layers@) == morphism.diagram(),
                layers@.len() == morphism.diagram().len(),
                interprets_all_boxes(*black_box_interpreter),
                braidings_fit::<Lambda, BlackBoxLabel, Self>(morphism.diagram()),
                forall|k: int| 0 <= k < i ==> #[trigger] morphism.diagram()[k].len() > 0,
            decreases layers@.len() - i,
        {
            let layer = &layers[i];
            assert(morphism.diagram()[i as int] == layer.ops());
            let blocks = layer.blocks();
            if blocks.len() == 0 {
                return Err(
                    CatgraphError::Interpret {
                        context: String::from_str("somehow an empty layer in a frobenius morphism???"),
                    },
                );
            }
            proof {
                assert forall|k: int| 0 <= k < blocks@.len() implies braidings_fit::<Lambda, BlackBoxLabel, Self>(
                    seq![seq![#[trigger] blocks@[k].spec_op()]],
                ) by {
                    assert(layer.ops()[k] == blocks@[k].spec_op());
                    assert(morphism.diagram()[i as int][k] == blocks@[k].spec_op());
                }
            }
            let mut cur_layer = match Self::basic_interpret(blocks[0].op(), black_box_interpreter) {
                Ok(c) => c,
                Err(e) => {
                    return Err(e);
                },
            };
            let mut k: usize = 1;
            while k < blocks.len()
                invariant
                    1 <= k <= blocks@.len(),
                    i < layers@.len(),
                    layers@.len() == morphism.diagram().len(),
                    interprets_all_boxes(*black_box_interpreter),
                    forall|j: int| 0 <= j < blocks@.len() ==> braidings_fit::<Lambda, BlackBoxLabel, Self>(
                        seq![seq![#[trigger] blocks@[j].spec_op()]],
                    ),
                decreases blocks@.len() - k,
            {
                let next = match Self::basic_interpret(blocks[k].op(), black_box_interpreter) {
                    Ok(c) => c,
                    Err(e) => {
                        return Err(e);
                    },
                };
                cur_layer.monoidal(next);
                k = k + 1;
            }
            match answer.compose(cur_layer) {
                Ok(()) => {},
                Err(e) => {
                    return Err(e);
                },
            }
            i = i + 1;
        }
        Ok(answer)
    }
}

/// `a` is a possible result of `T::identity` on a word with the labels `s`.
pub open spec fn identity_result<L, T: HasIdentity<Vec<L>>>(s: Seq<L>, a: T) -> bool {
    exists|w: Vec<L>| #![trigger call_ensures(T::identity, (&w,), a)] w@ == s && call_ensures(T::identity, (&w,), a)
}

/// The interpretation of a unit, counit, multiplication, comultiplication
/// or identity, the first four by the given functions.
fn interpret_generator<Lambda: Label, BlackBoxLabel, T: HasIdentity<Vec<Lambda>>, U, C, M, D>(
    op: &FrobeniusOperation<Lambda, BlackBoxLabel>,
    unit: &U,
    counit: &C,
    mult: &M,
    comult: &D,
) -> (r: T) where U: Fn(Lambda) -> T, C: Fn(Lambda) -> T, M: Fn(Lambda) -> T, D: Fn(Lambda) -> T,
    requires
        generator_op(*op),
        forall|z: Lambda| #[trigger] unit.requires((z,)),
        forall|z: Lambda| #[trigger] counit.requires((z,)),
        forall|z: Lambda| #[trigger] mult.requires((z,)),
        forall|z: Lambda| #[trigger] comult.requires((z,)),
    ensures
        *op matches FrobeniusOperation::Unit(z) ==> unit.ensures((z,), r),
        *op matches FrobeniusOperation::Counit(z) ==> counit.ensures((z,), r),
        *op matches FrobeniusOperation::Multiplication(z) ==> mult.ensures((z,), r),
        *op matches FrobeniusOperation::Comultiplication(z) ==> comult.ensures((z,), r),
        *op matches FrobeniusOperation::Identity(z) ==> identity_result::<Lambda, T>(seq![z], r),
{
    match op {
        FrobeniusOperation::Unit(z) => unit(*z),
        FrobeniusOperation::Counit(z) => counit(*z),
        FrobeniusOperation::Multiplication(z) => mult(*z),
        FrobeniusOperation::Comultiplication(z) => comult(*z),
        FrobeniusOperation::Identity(z) => {
            let mut w: Vec<Lambda> = Vec::new();
            w.push(*z);
            let r = T::identity(&w);
            assert(w@ == seq![*z]);
            assert(identity_result::<Lambda, T>(seq![*z], r));
            r
        },
        _ => {
            proof {
                assert(false);
            }
            T::identity(&Vec::new())
        },
    }
}

/// The layers of a diagram of generators only, each layer its generators
/// side by side, composed after the identity on the domain.
fn interpret_generator_diagram<
    Lambda: Label,
    BlackBoxLabel,
    T: HasIdentity<Vec<Lambda>> + MonoidalMutatingMorphism<Vec<Lambda>>,
    U,
    C,
    M,
    D,
>(
    morphism: &FrobeniusMorphism<Lambda, BlackBoxLabel>,
    unit: &U,
    counit: &C,
    mult: &M,
    comult: &D,
) -> (r: Result<T, CatgraphError>) where U: Fn(Lambda) -> T, C: Fn(Lambda) -> T, M: Fn(Lambda) -> T, D: Fn(Lambda) -> T,
    requires
        crate::frobenius::generators_only(morphism.diagram()),
        forall|z: Lambda| #[trigger] unit.requires((z,)),
        forall|z: Lambda| #[trigger] counit.requires((z,)),
        forall|z: Lambda| #[trigger] mult.requires((z,)),
        forall|z: Lambda| #[trigger] comult.requires((z,)),
    ensures
        morphism.diagram().len() == 0 ==> (r matches Ok(a) && identity_result::<Lambda, T>(morphism.dom(), a)),
        morphism.diagram().len() > 0 && morphism.diagram()[0].len() == 0 ==> r matches Err(
            CatgraphError::Interpret { .. },
        ),
        r is Ok ==> forall|i: int| 0 <= i < morphism.diagram().len() ==> #[trigger] morphism.diagram()[i].len() > 0,
{
    let layers = morphism.layers();
    let dom = morphism.domain();
    let mut answer = T::identity(&dom);
    let mut i: usize = 0;
    while i < layers.len()
        invariant
            i <= layers@.len(),
            crate::frobenius::layer_views(layers@) == morphism.diagram(),
            layers@.len() == morphism.diagram().len(),
            dom@ == morphism.dom(),
            i == 0 ==> call_ensures(T::identity, (&dom,), answer),
            forall|k: int| 0 <= k < i ==> #[trigger] morphism.diagram()[k].len() > 0,
            crate::frobenius::generators_only(morphism.diagram()),
            forall|z: Lambda| #[trigger] unit.requires((z,)),
            forall|z: Lambda| #[trigger] counit.requires((z,)),
            forall|z: Lambda| #[trigger] mult.requires((z,)),
            forall|z: Lambda| #[trigger] comult.requires((z,)),
        decreases layers@.len() - i,
    {
        let layer = &layers[i];
        assert(morphism.diagram()[i as int] == layer.ops());
        let blocks = layer.blocks();
        if blocks.len() == 0 {
            return Err(
                CatgraphError::Interpret {
                    context: String::from_str("somehow an empty layer in a frobenius morphism???"),
                },
            );
        }
        proof {
            assert forall|k: int| 0 <= k < blocks@.len() implies generator_op(#[trigger] blocks@[k].spec_op()) by {
                assert(layer.ops()[k] == blocks@[k].spec_op());
                assert(morphism.diagram()[i as int][k] == blocks@[k].spec_op());
            }
        }
        let mut cur_layer: T = interpret_generator(blocks[0].op(), unit, counit, mult, comult);
        let mut k: usize = 1;
        while k < blocks.len()
            invariant
                1 <= k <= blocks@.len(),
                block_ops_generators(blocks@),
                forall|z: Lambda| #[trigger] unit.requires((z,)),
                forall|z: Lambda| #[trigger] counit.requires((z,)),
                forall|z: Lambda| #[trigger] mult.requires((z,)),
                forall|z: Lambda| #[trigger] comult.requires((z,)),
            decreases blocks@.len() - k,
        {
            let next: T = interpret_generator(blocks[k].op(), unit, counit, mult, comult);
            cur_layer.monoidal(next);
            k = k + 1;
        }
        match answer.compose(cur_layer) {
            Ok(()) => {},
            Err(e) => {
                return Err(e);
            },
        }
        i = i + 1;
    }
    proof {
        if morphism.diagram().len() == 0 {
            assert(call_ensures(T::identity, (&dom,), answer));
            assert(identity_result::<Lambda, T>(morphism.dom(), answer));
        }
    }
    Ok(answer)
}

/// Every block of the layer holds a generator.
spec fn block_ops_generators<L: Label, B>(blocks: Seq<crate::frobenius::FrobeniusBlock<L, B>>) -> bool {
    forall|k: int| 0 <= k < blocks.len() ==> generator_op(#[trigger] blocks[k].spec_op())
}

/// Each generator is its own one-generator diagram, a diagram its own copy.
impl<Lambda: Label, BlackBoxLabel: Clone> Frobenius<Lambda, BlackBoxLabel> for FrobeniusMorphism<Lambda, BlackBoxLabel> {
    fn interpret_unit(z: Lambda) -> (r: Self)
        ensures
            r.diagram() == seq![seq![FrobeniusOperation::<Lambda, BlackBoxLabel>::Unit(z)]],
    {
        FrobeniusMorphism::from_op(FrobeniusOperation::Unit(z))
    }

    fn interpret_counit(z: Lambda) -> (r: Self)
        ensures
            r.diagram() == seq![seq![FrobeniusOperation::<Lambda, BlackBoxLabel>::Counit(z)]],
    {
        FrobeniusMorphism::from_op(FrobeniusOperation::Counit(z))
    }

    fn interpret_multiplication(z: Lambda) -> (r: Self)
        ensures
            r.diagram() == seq![seq![FrobeniusOperation::<Lambda, BlackBoxLabel>::Multiplication(z)]],
    {
        FrobeniusMorphism::from_op(FrobeniusOperation::Multiplication(z))
    }

    fn interpret_comultiplication(z: Lambda) -> (r: Self)
        ensures
            r.diagram() == seq![seq![FrobeniusOperation::<Lambda, BlackBoxLabel>::Comultiplication(z)]],
    {
        FrobeniusMorphism::from_op(FrobeniusOperation::Comultiplication(z))
    }

    /// The one-generator diagram of a copy of the generator; the black box
    /// interpreter is not called.
    fn basic_interpret<F>(
        single_step: &FrobeniusOperation<Lambda, BlackBoxLabel>,
        black_box_interpreter: &F,
    ) -> (r: Result<Self, CatgraphError>) where
        F: Fn(&BlackBoxLabel, &[Lambda], &[Lambda]) -> Result<Self, CatgraphError>,

        ensures
            r matches Ok(m) && m.diagram().len() == 1 && crate::frobenius::ops_cloned(
                seq![*single_step],
                m.diagram()[0],
            ),
    {
        let c = single_step.clone();
        let m = FrobeniusMorphism::from_op(c);
        assert(m.diagram()[0] == seq![c]);
        Ok(m)
    }

    /// A copy of the diagram; the black box interpreter is not called.
    fn interpret_frob<F>(
        morphism: &FrobeniusMorphism<Lambda, BlackBoxLabel>,
        black_box_interpreter: &F,
    ) -> (r: Result<Self, CatgraphError>) where
        F: Fn(&BlackBoxLabel, &[Lambda], &[Lambda]) -> Result<Self, CatgraphError>,

        ensures
            r matches Ok(m) && crate::compact_closed::cloned_diagram(morphism.diagram(), m.diagram()),
    {
        Ok(morphism.clone())
    }
}

} // verus!
