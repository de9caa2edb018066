//! String diagrams in a symmetric monoidal category whose objects are words of
//! labels and whose every label carries a special commutative Frobenius
//! algebra.
//!
//! A diagram is a sequence of layers; a layer places generators side by side.
//! Appending a layer tries a few local simplifications at the seam
//! (identities, inverse braidings, unit against counit, spider fusion).
use vstd::prelude::*;

use crate::category::{ComposableMutating, HasIdentity};
use crate::errors::CatgraphError;
use crate::label::{label_text, labels_equal, Label};
use crate::monoidal::{Contains, Monoidal, MonoidalMutatingMorphism};
use crate::utils::copy_vec;

verus! {

/// A generator of the Frobenius structure on labels `Lambda`, or a black box.
#[derive(PartialEq, Eq, Debug)]
pub enum FrobeniusOperation<Lambda: Label, BlackBoxLabel> {
    /// `[] → [z]`.
    Unit(Lambda),
    /// `[z, z] → [z]`.
    Multiplication(Lambda),
    /// `[z] → [z, z]`.
    Comultiplication(Lambda),
    /// `[z] → []`.
    Counit(Lambda),
    /// `[z] → [z]`.
    Identity(Lambda),
    /// `[z1, z2] → [z2, z1]`.
    SymmetricBraiding(Lambda, Lambda),
    /// `[z; m] → [z; n]`.
    Spider(Lambda, usize, usize),
    /// A black box with its domain and codomain labels.
    UnSpecifiedBox(BlackBoxLabel, Vec<Lambda>, Vec<Lambda>),
}

/// The input labels of a generator.
pub open spec fn op_sources<L: Label, B>(op: FrobeniusOperation<L, B>) -> Seq<L> {
    match op {
        FrobeniusOperation::Unit(_) => Seq::empty(),
        FrobeniusOperation::Multiplication(z) => seq![z, z],
        FrobeniusOperation::Comultiplication(z) => seq![z],
        FrobeniusOperation::Counit(z) => seq![z],
        FrobeniusOperation::Identity(z) => seq![z],
        FrobeniusOperation::SymmetricBraiding(z, w) => seq![z, w],
        FrobeniusOperation::Spider(z, d, _) => Seq::new(d as nat, |i: int| z),
        FrobeniusOperation::UnSpecifiedBox(_, srcs, _) => srcs@,
    }
}

/// The output labels of a generator.
pub open spec fn op_targets<L: Label, B>(op: FrobeniusOperation<L, B>) -> Seq<L> {
    match op {
        FrobeniusOperation::Unit(z) => seq![z],
        FrobeniusOperation::Multiplication(z) => seq![z],
        FrobeniusOperation::Comultiplication(z) => seq![z, z],
        FrobeniusOperation::Counit(_) => Seq::empty(),
        FrobeniusOperation::Identity(z) => seq![z],
        FrobeniusOperation::SymmetricBraiding(z, w) => seq![w, z],
        FrobeniusOperation::Spider(z, _, d) => Seq::new(d as nat, |i: int| z),
        FrobeniusOperation::UnSpecifiedBox(_, _, tgts) => tgts@,
    }
}

/// The generator with inputs and outputs exchanged, the box label passed
/// through `f` for a black box.
pub open spec fn is_flipped_op<L: Label, B, F: Fn(B) -> B>(
    op: FrobeniusOperation<L, B>,
    r: FrobeniusOperation<L, B>,
    f: F,
) -> bool {
    match op {
        FrobeniusOperation::Unit(z) => r == FrobeniusOperation::<L, B>::Counit(z),
        FrobeniusOperation::Multiplication(z) => r == FrobeniusOperation::<L, B>::Comultiplication(z),
        FrobeniusOperation::Comultiplication(z) => r == FrobeniusOperation::<L, B>::Multiplication(z),
        FrobeniusOperation::Counit(z) => r == FrobeniusOperation::<L, B>::Unit(z),
        FrobeniusOperation::Identity(z) => r == FrobeniusOperation::<L, B>::Identity(z),
        FrobeniusOperation::SymmetricBraiding(z, w) => r == FrobeniusOperation::<L, B>::SymmetricBraiding(w, z),
        FrobeniusOperation::Spider(z, a, b) => r == FrobeniusOperation::<L, B>::Spider(z, b, a),
        FrobeniusOperation::UnSpecifiedBox(l, s, t) => r matches FrobeniusOperation::UnSpecifiedBox(l2, s2, t2)
            && f.ensures((l,), l2) && s2@ == t@ && t2@ == s@,
    }
}

/// A copy of a label word of `d` equal labels.
fn repeat_label<Lambda: Label>(z: Lambda, d: usize) -> (r: Vec<Lambda>)
    ensures
        r@ == Seq::new(d as nat, |i: int| z),
{
    let mut r: Vec<Lambda> = Vec::new();
    let mut i: usize = 0;
    while i < d
        invariant
            i <= d,
            r@ == Seq::new(i as nat, |j: int| z),
        decreases d - i,
    {
        r.push(z);
        i = i + 1;
        assert(r@ =~= Seq::new(i as nat, |j: int| z));
    }
    r
}

impl<Lambda: Label, BlackBoxLabel> FrobeniusOperation<Lambda, BlackBoxLabel> {
    /// The number of inputs.
    pub fn source_size(&self) -> (r: usize)
        ensures
            r == op_sources(*self).len(),
    {
        match self {
            FrobeniusOperation::Unit(_) => 0,
            FrobeniusOperation::Comultiplication(_) | FrobeniusOperation::Counit(_)
            | FrobeniusOperation::Identity(_) => 1,
            FrobeniusOperation::Multiplication(_) | FrobeniusOperation::SymmetricBraiding(_, _) => 2,
            FrobeniusOperation::UnSpecifiedBox(_, srcs, _) => srcs.len(),
            FrobeniusOperation::Spider(_, d, _) => *d,
        }
    }

    /// The number of outputs.
    pub fn target_size(&self) -> (r: usize)
        ensures
            r == op_targets(*self).len(),
    {
        match self {
            FrobeniusOperation::Counit(_) => 0,
            FrobeniusOperation::Unit(_) | FrobeniusOperation::Multiplication(_)
            | FrobeniusOperation::Identity(_) => 1,
            FrobeniusOperation::Comultiplication(_) | FrobeniusOperation::SymmetricBraiding(_, _) => 2,
            FrobeniusOperation::UnSpecifiedBox(_, _, tgts) => tgts.len(),
            FrobeniusOperation::Spider(_, _, d) => *d,
        }
    }

    /// The input labels.
    pub fn source_types(&self) -> (r: Vec<Lambda>)
        ensures
            r@ == op_sources(*self),
    {
        match self {
            FrobeniusOperation::Unit(_) => Vec::new(),
            FrobeniusOperation::Multiplication(z) => repeat_label(*z, 2),
            FrobeniusOperation::Comultiplication(z) | FrobeniusOperation::Counit(z)
            | FrobeniusOperation::Identity(z) => repeat_label(*z, 1),
            FrobeniusOperation::SymmetricBraiding(z, w) => {
                let mut v = Vec::new();
                v.push(*z);
                v.push(*w);
                v
            },
            FrobeniusOperation::UnSpecifiedBox(_, srcs, _) => copy_vec(srcs.as_slice()),
            FrobeniusOperation::Spider(z, d, _) => repeat_label(*z, *d),
        }
    }

    /// The output labels.
    pub fn target_types(&self) -> (r: Vec<Lambda>)
        ensures
            r@ == op_targets(*self),
    {
        match self {
            FrobeniusOperation::Unit(z) | FrobeniusOperation::Identity(z)
            | FrobeniusOperation::Multiplication(z) => repeat_label(*z, 1),
            FrobeniusOperation::Comultiplication(z) => repeat_label(*z, 2),
            FrobeniusOperation::Counit(_) => Vec::new(),
            FrobeniusOperation::SymmetricBraiding(z, w) => {
                let mut v = Vec::new();
                v.push(*w);
                v.push(*z);
                v
            },
            FrobeniusOperation::UnSpecifiedBox(_, _, tgts) => copy_vec(tgts.as_slice()),
            FrobeniusOperation::Spider(z, _, d) => repeat_label(*z, *d),
        }
    }

    /// Exchanges inputs and outputs; a black box gets its label through `f`.
    pub fn hflip<F: Fn(BlackBoxLabel) -> BlackBoxLabel>(self, f: &F) -> (r: Self)
        requires
            forall|l: BlackBoxLabel| #[trigger] f.requires((l,)),
        ensures
            is_flipped_op(self, r, *f),
            op_sources(r) == op_targets(self),
            op_targets(r) == op_sources(self),
    {
        match self {
            FrobeniusOperation::Unit(z) => FrobeniusOperation::Counit(z),
            FrobeniusOperation::Multiplication(z) => FrobeniusOperation::Comultiplication(z),
            FrobeniusOperation::Comultiplication(z) => FrobeniusOperation::Multiplication(z),
            FrobeniusOperation::Counit(z) => FrobeniusOperation::Unit(z),
            FrobeniusOperation::Identity(z) => FrobeniusOperation::Identity(z),
            FrobeniusOperation::SymmetricBraiding(z, w) => FrobeniusOperation::SymmetricBraiding(w, z),
            FrobeniusOperation::UnSpecifiedBox(label, srcs, tgts) => {
                let l2 = f(label);
                FrobeniusOperation::UnSpecifiedBox(l2, tgts, srcs)
            },
            FrobeniusOperation::Spider(z, d1, d2) => FrobeniusOperation::Spider(z, d2, d1),
        }
    }

    /// True for the identity generator and the one-to-one spider.
    pub fn is_identity_op(&self) -> (b: bool)
        ensures
            b == is_identity_op(*self),
    {
        match self {
            FrobeniusOperation::Identity(_) => true,
            FrobeniusOperation::Spider(_, in_arms, out_arms) => *in_arms == *out_arms && *in_arms == 1,
            _ => false,
        }
    }
}

/// The identity generator or the one-to-one spider.
pub open spec fn is_identity_op<L: Label, B>(op: FrobeniusOperation<L, B>) -> bool {
    match op {
        FrobeniusOperation::Identity(_) => true,
        FrobeniusOperation::Spider(_, a, b) => a == b && a == 1,
        _ => false,
    }
}

impl<Lambda: Label, BlackBoxLabel: Clone> Clone for FrobeniusOperation<Lambda, BlackBoxLabel> {
    /// A copy; a black box label is cloned.
    fn clone(&self) -> (r: Self)
        ensures
            op_sources(r) == op_sources(*self),
            op_targets(r) == op_targets(*self),
            !(*self is UnSpecifiedBox) ==> r == *self,
            *self is UnSpecifiedBox <==> r is UnSpecifiedBox,
    {
        match self {
            FrobeniusOperation::Unit(z) => FrobeniusOperation::Unit(*z),
            FrobeniusOperation::Multiplication(z) => FrobeniusOperation::Multiplication(*z),
            FrobeniusOperation::Comultiplication(z) => FrobeniusOperation::Comultiplication(*z),
            FrobeniusOperation::Counit(z) => FrobeniusOperation::Counit(*z),
            FrobeniusOperation::Identity(z) => FrobeniusOperation::Identity(*z),
            FrobeniusOperation::SymmetricBraiding(z, w) => FrobeniusOperation::SymmetricBraiding(*z, *w),
            FrobeniusOperation::Spider(z, a, b) => FrobeniusOperation::Spider(*z, *a, *b),
            FrobeniusOperation::UnSpecifiedBox(l, s, t) => FrobeniusOperation::UnSpecifiedBox(
                l.clone(),
                copy_vec(s.as_slice()),
                copy_vec(t.as_slice()),
            ),
        }
    }
}

/// The input labels of a sequence of generators placed side by side.
pub open spec fn ops_sources<L: Label, B>(ops: Seq<FrobeniusOperation<L, B>>) -> Seq<L>
    decreases ops.len(),
{
    if ops.len() == 0 {
        Seq::empty()
    } else {
        ops_sources(ops.drop_last()) + op_sources(ops.last())
    }
}

/// The output labels of a sequence of generators placed side by side.
pub open spec fn ops_targets<L: Label, B>(ops: Seq<FrobeniusOperation<L, B>>) -> Seq<L>
    decreases ops.len(),
{
    if ops.len() == 0 {
        Seq::empty()
    } else {
        ops_targets(ops.drop_last()) + op_targets(ops.last())
    }
}

/// A generator placed in a layer, with the positions of its first input and
/// first output among the layer's inputs and outputs.
#[derive(PartialEq, Eq, Debug)]
pub struct FrobeniusBlock<Lambda: Label, BlackBoxLabel> {
    op: FrobeniusOperation<Lambda, BlackBoxLabel>,
    source_side_placement: usize,
    target_side_placement: usize,
}

impl<Lambda: Label, BlackBoxLabel> FrobeniusBlock<Lambda, BlackBoxLabel> {
    pub closed spec fn spec_op(&self) -> FrobeniusOperation<Lambda, BlackBoxLabel> {
        self.op
    }

    pub closed spec fn source_place(&self) -> usize {
        self.source_side_placement
    }

    pub closed spec fn target_place(&self) -> usize {
        self.target_side_placement
    }

    /// The generator.
    pub fn op(&self) -> (r: &FrobeniusOperation<Lambda, BlackBoxLabel>)
        ensures
            *r == self.spec_op(),
    {
        &self.op
    }

    /// The position of the first input.
    pub fn source_side_placement(&self) -> (r: usize)
        ensures
            r == self.source_place(),
    {
        self.source_side_placement
    }

    /// The position of the first output.
    pub fn target_side_placement(&self) -> (r: usize)
        ensures
            r == self.target_place(),
    {
        self.target_side_placement
    }
}

impl<Lambda: Label, BlackBoxLabel: Clone> Contains<BlackBoxLabel> for FrobeniusBlock<Lambda, BlackBoxLabel> {
    /// The box label of a black box, none otherwise.
    fn contained_labels(&self) -> (r: Vec<BlackBoxLabel>)
        ensures
            self.spec_op() matches FrobeniusOperation::UnSpecifiedBox(l, _, _) ==> r@.len() == 1 && cloned::<
                BlackBoxLabel,
            >(l, r@[0]),
            !(self.spec_op() is UnSpecifiedBox) ==> r@.len() == 0,
    {
        let mut r = Vec::new();
        match &self.op {
            FrobeniusOperation::UnSpecifiedBox(lab, _, _) => {
                r.push(lab.clone());
            },
            _ => {},
        }
        r
    }
}

/// The generators of the blocks, in order.
pub open spec fn block_ops<L: Label, B>(blocks: Seq<FrobeniusBlock<L, B>>) -> Seq<FrobeniusOperation<L, B>> {
    Seq::new(blocks.len(), |i: int| blocks[i].spec_op())
}

/// The blocks sit side by side: each starts where the ones before it end.
pub open spec fn placements_ok<L: Label, B>(blocks: Seq<FrobeniusBlock<L, B>>) -> bool {
    forall|k: int|
        0 <= k < blocks.len() ==> (#[trigger] blocks[k]).source_place() == ops_sources(
            block_ops(blocks).subrange(0, k),
        ).len() && blocks[k].target_place() == ops_targets(block_ops(blocks).subrange(0, k)).len()
}

/// One layer of a string diagram: generators side by side.
#[derive(PartialEq, Eq, Debug)]
pub struct FrobeniusLayer<Lambda: Label, BlackBoxLabel> {
    blocks: Vec<FrobeniusBlock<Lambda, BlackBoxLabel>>,
    left_type: Vec<Lambda>,
    right_type: Vec<Lambda>,
}

impl<Lambda: Label, BlackBoxLabel> FrobeniusLayer<Lambda, BlackBoxLabel> {
    #[verifier::type_invariant]
    spec fn well_formed(&self) -> bool {
        &&& placements_ok(self.blocks@)
        &&& self.left_type@ == ops_sources(block_ops(self.blocks@))
        &&& self.right_type@ == ops_targets(block_ops(self.blocks@))
    }

    /// The generators, in order.
    pub closed spec fn ops(&self) -> Seq<FrobeniusOperation<Lambda, BlackBoxLabel>> {
        block_ops(self.blocks@)
    }

    /// The input labels of the layer.
    pub open spec fn dom(&self) -> Seq<Lambda> {
        ops_sources(self.ops())
    }

    /// The output labels of the layer.
    pub open spec fn cod(&self) -> Seq<Lambda> {
        ops_targets(self.ops())
    }

    /// The empty layer.
    pub fn new() -> (r: Self)
        ensures
            r.ops() == Seq::<FrobeniusOperation<Lambda, BlackBoxLabel>>::empty(),
    {
        let r = Self { blocks: Vec::new(), left_type: Vec::new(), right_type: Vec::new() };
        assert(block_ops(r.blocks@) =~= Seq::<FrobeniusOperation<Lambda, BlackBoxLabel>>::empty());
        r
    }

    /// The blocks.
    pub fn blocks(&self) -> (r: &[FrobeniusBlock<Lambda, BlackBoxLabel>])
        ensures
            block_ops(r@) == self.ops(),
            placements_ok(r@),
    {
        proof {
            use_type_invariant(self);
        }
        self.blocks.as_slice()
    }

    /// The input labels.
    pub fn left_type(&self) -> (r: &[Lambda])
        ensures
            r@ == self.dom(),
    {
        proof {
            use_type_invariant(self);
        }
        self.left_type.as_slice()
    }

    /// The output labels.
    pub fn right_type(&self) -> (r: &[Lambda])
        ensures
            r@ == self.cod(),
    {
        proof {
            use_type_invariant(self);
        }
        self.right_type.as_slice()
    }

    /// Places `op` below the blocks of the layer.
    pub fn append_block(&mut self, op: FrobeniusOperation<Lambda, BlackBoxLabel>)
        requires
            old(self).dom().len() + op_sources(op).len() <= usize::MAX,
            old(self).cod().len() + op_targets(op).len() <= usize::MAX,
        ensures
            final(self).ops() == old(self).ops().push(op),
    {
        proof {
            use_type_invariant(&*self);
        }
        let ghost old_blocks = self.blocks@;
        let source_side_placement = self.left_type.len();
        let target_side_placement = self.right_type.len();
        let mut s = op.source_types();
        let mut t = op.target_types();
        let mut whole = Self::new();
        std::mem::swap(&mut whole, self);
        let Self { blocks, left_type, right_type } = whole;
        let mut blocks = blocks;
        let mut left = left_type;
        left.append(&mut s);
        let mut right = right_type;
        right.append(&mut t);
        let block = FrobeniusBlock { op, source_side_placement, target_side_placement };
        blocks.push(block);
        proof {
            let nb = blocks@;
            assert(block_ops(nb) =~= block_ops(old_blocks).push(op));
            assert(block_ops(nb).drop_last() =~= block_ops(old_blocks));
            assert forall|k: int| 0 <= k < nb.len() implies (#[trigger] nb[k]).source_place() == ops_sources(
                block_ops(nb).subrange(0, k),
            ).len() && nb[k].target_place() == ops_targets(block_ops(nb).subrange(0, k)).len() by {
                assert(block_ops(nb).subrange(0, k) =~= block_ops(old_blocks).subrange(0, k)) by {
                    if k == old_blocks.len() {
                        assert(block_ops(nb).subrange(0, k) =~= block_ops(old_blocks));
                    }
                }
                if k == old_blocks.len() {
                    assert(block_ops(old_blocks).subrange(0, k) =~= block_ops(old_blocks));
                }
            }
        }
        *self = Self { blocks, left_type: left, right_type: right };
    }

    /// True when every block is an identity.
    pub fn is_identity(&self) -> (b: bool)
        ensures
            b == forall|i: int| 0 <= i < self.ops().len() ==> is_identity_op(#[trigger] self.ops()[i]),
    {
        let mut i: usize = 0;
        while i < self.blocks.len()
            invariant
                i <= self.blocks@.len(),
                forall|j: int| 0 <= j < i ==> is_identity_op(#[trigger] self.ops()[j]),
            decreases self.blocks@.len() - i,
        {
            if !self.blocks[i].op.is_identity_op() {
                assert(self.ops()[i as int] == self.blocks@[i as int].spec_op());
                return false;
            }
            i = i + 1;
        }
        true
    }

    /// The layer whose generators are `ops`, in order.
    pub fn rebuild_from_ops(ops: Vec<FrobeniusOperation<Lambda, BlackBoxLabel>>) -> (r: Self)
        requires
            ops_sources(ops@).len() <= usize::MAX,
            ops_targets(ops@).len() <= usize::MAX,
        ensures
            r.ops() == ops@,
    {
        let ghost all = ops@;
        let n = ops.len();
        let mut layer = Self::new();
        let mut rest = ops;
        let mut k: usize = 0;
        while rest.len() > 0
            invariant
                k + rest@.len() == all.len(),
                rest@ == all.subrange(k as int, all.len() as int),
                layer.ops() == all.subrange(0, k as int),
                all.len() <= usize::MAX,
                ops_sources(all).len() <= usize::MAX,
                ops_targets(all).len() <= usize::MAX,
            decreases rest@.len(),
        {
            let op = rest.remove(0);
            proof {
                lemma_ops_prefix_len(all, k as int + 1);
                assert(all.subrange(0, k + 1).drop_last() =~= all.subrange(0, k as int));
                assert(all.subrange(0, k + 1).last() == op);
            }
            layer.append_block(op);
            k = k + 1;
            proof {
                assert(layer.ops() =~= all.subrange(0, k as int));
                assert(rest@ =~= all.subrange(k as int, all.len() as int));
            }
        }
        assert(all.subrange(0, k as int) =~= all);
        layer
    }
}

/// The labels of a prefix of generators are no longer than those of all of them.
pub proof fn lemma_ops_prefix_len<L: Label, B>(ops: Seq<FrobeniusOperation<L, B>>, k: int)
    requires
        0 <= k <= ops.len(),
    ensures
        ops_sources(ops.subrange(0, k)).len() <= ops_sources(ops).len(),
        ops_targets(ops.subrange(0, k)).len() <= ops_targets(ops).len(),
    decreases ops.len() - k,
{
    if k < ops.len() {
        lemma_ops_prefix_len(ops, k + 1);
        assert(ops.subrange(0, k + 1).drop_last() =~= ops.subrange(0, k));
    } else {
        assert(ops.subrange(0, k) =~= ops);
    }
}

/// The labels of a concatenation of generator sequences are the concatenation
/// of their labels.
pub proof fn lemma_ops_concat<L: Label, B>(a: Seq<FrobeniusOperation<L, B>>, b: Seq<FrobeniusOperation<L, B>>)
    ensures
        ops_sources(a + b) == ops_sources(a) + ops_sources(b),
        ops_targets(a + b) == ops_targets(a) + ops_targets(b),
    decreases b.len(),
{
    if b.len() == 0 {
        assert(a + b =~= a);
        assert(ops_sources(a) + ops_sources(b) =~= ops_sources(a));
        assert(ops_targets(a) + ops_targets(b) =~= ops_targets(a));
    } else {
        lemma_ops_concat(a, b.drop_last());
        assert((a + b).drop_last() =~= a + b.drop_last());
        assert((a + b).last() == b.last());
        assert(ops_sources(a) + ops_sources(b.drop_last()) + op_sources(b.last()) =~= ops_sources(a) + (
        ops_sources(b.drop_last()) + op_sources(b.last())));
        assert(ops_targets(a) + ops_targets(b.drop_last()) + op_targets(b.last()) =~= ops_targets(a) + (
        ops_targets(b.drop_last()) + op_targets(b.last())));
    }
}

/// A layer of identities on `t` has inputs and outputs `t`.
pub proof fn lemma_identity_ops<L: Label, B>(t: Seq<L>)
    ensures
        ops_sources(Seq::new(t.len(), |i: int| FrobeniusOperation::<L, B>::Identity(t[i]))) == t,
        ops_targets(Seq::new(t.len(), |i: int| FrobeniusOperation::<L, B>::Identity(t[i]))) == t,
    decreases t.len(),
{
    let ops = Seq::new(t.len(), |i: int| FrobeniusOperation::<L, B>::Identity(t[i]));
    if t.len() > 0 {
        lemma_identity_ops::<L, B>(t.drop_last());
        assert(ops.drop_last() =~= Seq::new(t.drop_last().len(), |i: int| FrobeniusOperation::<L, B>::Identity(t.drop_last()[i])));
        assert(t =~= t.drop_last() + seq![t.last()]);
    } else {
        assert(t =~= Seq::<L>::empty());
    }
}

/// The generators of `ops` flipped one by one by `f`.
pub open spec fn all_flipped<L: Label, B, F: Fn(B) -> B>(
    ops: Seq<FrobeniusOperation<L, B>>,
    r: Seq<FrobeniusOperation<L, B>>,
    f: F,
) -> bool {
    &&& r.len() == ops.len()
    &&& forall|i: int| 0 <= i < ops.len() ==> is_flipped_op(ops[i], #[trigger] r[i], f)
}

/// Flipping every generator exchanges the labels of the whole sequence.
pub proof fn lemma_flipped_ops<L: Label, B, F: Fn(B) -> B>(
    ops: Seq<FrobeniusOperation<L, B>>,
    r: Seq<FrobeniusOperation<L, B>>,
    f: F,
)
    requires
        all_flipped(ops, r, f),
    ensures
        ops_sources(r) == ops_targets(ops),
        ops_targets(r) == ops_sources(ops),
    decreases ops.len(),
{
    if ops.len() > 0 {
        assert(all_flipped(ops.drop_last(), r.drop_last(), f)) by {
            assert forall|i: int| 0 <= i < ops.drop_last().len() implies is_flipped_op(
                ops.drop_last()[i],
                #[trigger] r.drop_last()[i],
                f,
            ) by {
                assert(is_flipped_op(ops[i], r[i], f));
            }
        }
        lemma_flipped_ops(ops.drop_last(), r.drop_last(), f);
        let k = ops.len() - 1;
        assert(is_flipped_op(ops[k], r[k], f));
        assert(ops.last() == ops[k]);
        assert(r.last() == r[k]);
    }
}

impl<Lambda: Label, BlackBoxLabel> HasIdentity<Vec<Lambda>> for FrobeniusLayer<Lambda, BlackBoxLabel> {
    /// One identity generator per label.
    fn identity(on_type: &Vec<Lambda>) -> (r: Self)
        ensures
            r.ops() == Seq::new(on_type@.len(), |i: int| FrobeniusOperation::<Lambda, BlackBoxLabel>::Identity(on_type@[i])),
            r.dom() == on_type@,
            r.cod() == on_type@,
    {
        let ghost t = on_type@;
        let mut answer = Self::new();
        let mut i: usize = 0;
        while i < on_type.len()
            invariant
                i <= t.len(),
                t == on_type@,
                answer.ops() == Seq::new(i as nat, |k: int| FrobeniusOperation::<Lambda, BlackBoxLabel>::Identity(t[k])),
                answer.dom() == t.subrange(0, i as int),
                answer.cod() == t.subrange(0, i as int),
            decreases t.len() - i,
        {
            let ghost before = answer.ops();
            answer.append_block(FrobeniusOperation::Identity(on_type[i]));
            i = i + 1;
            proof {
                assert(answer.ops() =~= Seq::new(i as nat, |k: int| FrobeniusOperation::<Lambda, BlackBoxLabel>::Identity(t[k])));
                assert(answer.ops().drop_last() =~= before);
                assert(t.subrange(0, i as int) =~= t.subrange(0, i - 1) + seq![t[i - 1]]);
            }
        }
        assert(t.subrange(0, i as int) =~= t);
        answer
    }
}

impl<Lambda: Label, BlackBoxLabel> FrobeniusLayer<Lambda, BlackBoxLabel> {
    /// The generators, moved out of the layer.
    pub fn into_ops(self) -> (r: Vec<FrobeniusOperation<Lambda, BlackBoxLabel>>)
        ensures
            r@ == self.ops(),
    {
        let ghost all = self.ops();
        let Self { blocks, left_type: _, right_type: _ } = self;
        let mut blocks = blocks;
        let ghost b0 = blocks@;
        let n = blocks.len();
        let mut r: Vec<FrobeniusOperation<Lambda, BlackBoxLabel>> = Vec::new();
        let mut k: usize = 0;
        while blocks.len() > 0
            invariant
                n == b0.len(),
                all == block_ops(b0),
                k + blocks@.len() == b0.len(),
                blocks@ == b0.subrange(k as int, b0.len() as int),
                r@ == all.subrange(0, k as int),
            decreases blocks@.len(),
        {
            let b = blocks.remove(0);
            let FrobeniusBlock { op, source_side_placement: _, target_side_placement: _ } = b;
            r.push(op);
            k = k + 1;
            proof {
                assert(blocks@ =~= b0.subrange(k as int, b0.len() as int));
                assert(r@ =~= all.subrange(0, k as int));
            }
        }
        assert(all.subrange(0, k as int) =~= all);
        r
    }

    /// Exchanges inputs and outputs: every generator is flipped.
    pub fn hflip<F: Fn(BlackBoxLabel) -> BlackBoxLabel>(&mut self, f: &F)
        requires
            forall|l: BlackBoxLabel| #[trigger] f.requires((l,)),
        ensures
            all_flipped(old(self).ops(), final(self).ops(), *f),
            final(self).dom() == old(self).cod(),
            final(self).cod() == old(self).dom(),
    {
        proof {
            use_type_invariant(&*self);
        }
        let ghost all = self.ops();
        let ll = self.left_type.len();
        let rl = self.right_type.len();
        let mut whole = Self::new();
        std::mem::swap(&mut whole, self);
        let mut ops = whole.into_ops();
        let n = ops.len();
        let mut flipped: Vec<FrobeniusOperation<Lambda, BlackBoxLabel>> = Vec::new();
        let mut k: usize = 0;
        while ops.len() > 0
            invariant
                forall|l: BlackBoxLabel| #[trigger] f.requires((l,)),
                n == all.len(),
                k + ops@.len() == all.len(),
                ops@ == all.subrange(k as int, all.len() as int),
                all_flipped(all.subrange(0, k as int), flipped@, *f),
            decreases ops@.len(),
        {
            let op = ops.remove(0);
            let g = op.hflip(f);
            flipped.push(g);
            k = k + 1;
            proof {
                assert(ops@ =~= all.subrange(k as int, all.len() as int));
                assert forall|i: int| 0 <= i < k implies is_flipped_op(
                    all.subrange(0, k as int)[i],
                    #[trigger] flipped@[i],
                    *f,
                ) by {
                    if i < k - 1 {
                        assert(all.subrange(0, k as int)[i] == all.subrange(0, k - 1)[i]);
                    }
                }
            }
        }
        assert(all.subrange(0, k as int) =~= all);
        proof {
            lemma_flipped_ops(all, flipped@, *f);
            assert(ops_sources(flipped@).len() == rl);
            assert(ops_targets(flipped@).len() == ll);
        }
        *self = Self::rebuild_from_ops(flipped);
    }
}

impl<Lambda: Label, BlackBoxLabel> Monoidal for FrobeniusLayer<Lambda, BlackBoxLabel> {
    /// Places the generators of `other` below those of `self`; when the joint
    /// words would exceed `usize::MAX` labels, `self` is left unchanged.
    fn monoidal(&mut self, other: Self)
        ensures
            old(self).dom().len() + other.dom().len() <= usize::MAX && old(self).cod().len() + other.cod().len()
                <= usize::MAX ==> final(self).ops() == old(self).ops() + other.ops(),
            !(old(self).dom().len() + other.dom().len() <= usize::MAX && old(self).cod().len() + other.cod().len()
                <= usize::MAX) ==> final(self).ops() == old(self).ops(),
    {
        proof {
            use_type_invariant(&*self);
            use_type_invariant(&other);
        }
        let dl = self.left_type.len();
        let cl = self.right_type.len();
        if other.left_type.len() > usize::MAX - dl || other.right_type.len() > usize::MAX - cl {
            return ;
        }
        let ghost s0 = self.ops();
        let ghost o = other.ops();
        let mut rest = other.into_ops();
        let n = rest.len();
        let mut k: usize = 0;
        while rest.len() > 0
            invariant
                n == o.len(),
                k + rest@.len() == o.len(),
                rest@ == o.subrange(k as int, o.len() as int),
                self.ops() == s0 + o.subrange(0, k as int),
                ops_sources(s0).len() + ops_sources(o).len() <= usize::MAX,
                ops_targets(s0).len() + ops_targets(o).len() <= usize::MAX,
            decreases rest@.len(),
        {
            let op = rest.remove(0);
            proof {
                lemma_ops_prefix_len(o, k + 1);
                assert(o.subrange(0, k + 1) =~= o.subrange(0, k as int).push(op));
                assert(o.subrange(0, k + 1).drop_last() =~= o.subrange(0, k as int));
                assert(o.subrange(0, k + 1).last() == op);
                lemma_ops_concat(s0, o.subrange(0, k as int));
                lemma_ops_concat(s0, o.subrange(0, k + 1));
                assert(s0 + o.subrange(0, k + 1) =~= (s0 + o.subrange(0, k as int)).push(op));
            }
            self.append_block(op);
            k = k + 1;
            proof {
                assert(rest@ =~= o.subrange(k as int, o.len() as int));
                assert(self.ops() =~= s0 + o.subrange(0, k as int));
            }
        }
        assert(o.subrange(0, k as int) =~= o);
    }
}

impl<Lambda: Label, BlackBoxLabel: Clone> Contains<BlackBoxLabel> for FrobeniusLayer<Lambda, BlackBoxLabel> {
    /// The labels of the black boxes, in order.
    fn contained_labels(&self) -> (r: Vec<BlackBoxLabel>)
        ensures
            r@.len() == box_count(self.ops()),
    {
        let mut r: Vec<BlackBoxLabel> = Vec::new();
        let mut i: usize = 0;
        while i < self.blocks.len()
            invariant
                i <= self.blocks@.len(),
                r@.len() == box_count(self.ops().subrange(0, i as int)),
            decreases self.blocks@.len() - i,
        {
            let mut more = self.blocks[i].contained_labels();
            r.append(&mut more);
            i = i + 1;
            assert(self.ops().subrange(0, i as int).drop_last() =~= self.ops().subrange(0, i - 1));
        }
        assert(self.ops().subrange(0, i as int) =~= self.ops());
        r
    }
}

/// The number of black boxes among the generators.
pub open spec fn box_count<L: Label, B>(ops: Seq<FrobeniusOperation<L, B>>) -> nat
    decreases ops.len(),
{
    if ops.len() == 0 {
        0
    } else {
        box_count(ops.drop_last()) + if ops.last() is UnSpecifiedBox {
            1nat
        } else {
            0nat
        }
    }
}

/// The simplification of a generator `a` followed by a generator `b` that
/// reads its inputs from `a`'s outputs: the replacements for `a` and for `b`.
/// Inverse braidings become identities, a unit into a counit of the same
/// label vanishes, and two spiders of the same label fuse.
pub open spec fn seam_rule<L: Label, B>(a: FrobeniusOperation<L, B>, b: FrobeniusOperation<L, B>) -> Option<
    (Seq<FrobeniusOperation<L, B>>, Seq<FrobeniusOperation<L, B>>),
> {
    match a {
        FrobeniusOperation::SymmetricBraiding(a1, b1) => match b {
            FrobeniusOperation::SymmetricBraiding(b2, a2) => if a1 == a2 && b1 == b2 {
                Some(
                    (
                        seq![FrobeniusOperation::Identity(a1), FrobeniusOperation::Identity(b1)],
                        seq![FrobeniusOperation::Identity(b2), FrobeniusOperation::Identity(a2)],
                    ),
                )
            } else {
                None
            },
            _ => None,
        },
        FrobeniusOperation::Unit(z1) => match b {
            FrobeniusOperation::Counit(z2) => if z1 == z2 {
                Some((Seq::empty(), Seq::empty()))
            } else {
                None
            },
            _ => None,
        },
        FrobeniusOperation::Spider(z1, m, n1) => match b {
            FrobeniusOperation::Spider(z2, n2, k) => if z1 == z2 && n1 == n2 {
                Some((seq![FrobeniusOperation::Spider(z1, m, k)], Seq::empty()))
            } else {
                None
            },
            _ => None,
        },
        _ => None,
    }
}

/// Decides `seam_rule` and builds its replacements.
fn seam_rule_exec<Lambda: Label, BlackBoxLabel>(
    a: &FrobeniusOperation<Lambda, BlackBoxLabel>,
    b: &FrobeniusOperation<Lambda, BlackBoxLabel>,
) -> (r: Option<(Vec<FrobeniusOperation<Lambda, BlackBoxLabel>>, Vec<FrobeniusOperation<Lambda, BlackBoxLabel>>)>)
    ensures
        r is None <==> seam_rule(*a, *b) is None,
        r matches Some(p) ==> seam_rule(*a, *b) == Some((p.0@, p.1@)),
{
    match a {
        FrobeniusOperation::SymmetricBraiding(a1, b1) => match b {
            FrobeniusOperation::SymmetricBraiding(b2, a2) => {
                if a1.same_label(a2) && b1.same_label(b2) {
                    let mut x = Vec::new();
                    x.push(FrobeniusOperation::Identity(*a1));
                    x.push(FrobeniusOperation::Identity(*b1));
                    let mut y = Vec::new();
                    y.push(FrobeniusOperation::Identity(*b2));
                    y.push(FrobeniusOperation::Identity(*a2));
                    assert(x@ =~= seq![FrobeniusOperation::Identity(*a1), FrobeniusOperation::Identity(*b1)]);
                    assert(y@ =~= seq![FrobeniusOperation::Identity(*b2), FrobeniusOperation::Identity(*a2)]);
                    Some((x, y))
                } else {
                    None
                }
            },
            _ => None,
        },
        FrobeniusOperation::Unit(z1) => match b {
            FrobeniusOperation::Counit(z2) => {
                if z1.same_label(z2) {
                    let x: Vec<FrobeniusOperation<Lambda, BlackBoxLabel>> = Vec::new();
                    let y: Vec<FrobeniusOperation<Lambda, BlackBoxLabel>> = Vec::new();
                    assert(x@ =~= Seq::<FrobeniusOperation<Lambda, BlackBoxLabel>>::empty());
                    assert(y@ =~= Seq::<FrobeniusOperation<Lambda, BlackBoxLabel>>::empty());
                    Some((x, y))
                } else {
                    None
                }
            },
            _ => None,
        },
        FrobeniusOperation::Spider(z1, m, n1) => match b {
            FrobeniusOperation::Spider(z2, n2, k) => {
                if z1.same_label(z2) && *n1 == *n2 {
                    let mut x = Vec::new();
                    x.push(FrobeniusOperation::Spider(*z1, *m, *k));
                    let y: Vec<FrobeniusOperation<Lambda, BlackBoxLabel>> = Vec::new();
                    assert(x@ =~= seq![FrobeniusOperation::Spider(*z1, *m, *k)]);
                    assert(y@ =~= Seq::<FrobeniusOperation<Lambda, BlackBoxLabel>>::empty());
                    Some((x, y))
                } else {
                    None
                }
            },
            _ => None,
        },
        _ => None,
    }
}

/// The last of the first `k` generators of `ops` whose outputs start at position `p`.
pub open spec fn last_target_at<L: Label, B>(ops: Seq<FrobeniusOperation<L, B>>, p: int, k: int) -> Option<int>
    decreases k,
{
    if k <= 0 {
        None
    } else if ops_targets(ops.subrange(0, k - 1)).len() == p {
        Some(k - 1)
    } else {
        last_target_at(ops, p, k - 1)
    }
}

/// The pairing of the seam after visiting the first `j` generators of the
/// second layer: for each generator of the first layer, the generator of the
/// second it was paired with, and for each visited generator of the second,
/// its partner. A generator of the second layer is paired with the last
/// generator of the first whose outputs start where its inputs start, when
/// that one is still free, their sizes agree and `seam_rule` applies.
pub open spec fn seam_pairing<L: Label, B>(
    s: Seq<FrobeniusOperation<L, B>>,
    n: Seq<FrobeniusOperation<L, B>>,
    j: int,
) -> (Seq<Option<int>>, Seq<Option<int>>)
    decreases j,
{
    if j <= 0 {
        (Seq::new(s.len(), |i: int| None::<int>), Seq::empty())
    } else {
        let (sm, nm) = seam_pairing(s, n, j - 1);
        let b = n[j - 1];
        match last_target_at(s, ops_sources(n.subrange(0, j - 1)).len() as int, s.len() as int) {
            Some(i) => if sm[i] is None && op_targets(s[i]).len() == op_sources(b).len() && seam_rule(s[i], b) is Some {
                (sm.update(i, Some(j - 1)), nm.push(Some(i)))
            } else {
                (sm, nm.push(None::<int>))
            },
            None => (sm, nm.push(None::<int>)),
        }
    }
}

/// The first `k` generators of the first layer with paired ones replaced.
pub open spec fn expand_first<L: Label, B>(
    s: Seq<FrobeniusOperation<L, B>>,
    n: Seq<FrobeniusOperation<L, B>>,
    sm: Seq<Option<int>>,
    k: int,
) -> Seq<FrobeniusOperation<L, B>>
    decreases k,
{
    if k <= 0 {
        Seq::empty()
    } else {
        expand_first(s, n, sm, k - 1) + match sm[k - 1] {
            Some(j) => match seam_rule(s[k - 1], n[j]) {
                Some(p) => p.0,
                None => seq![s[k - 1]],
            },
            None => seq![s[k - 1]],
        }
    }
}

/// The first `k` generators of the second layer with paired ones replaced.
pub open spec fn expand_second<L: Label, B>(
    s: Seq<FrobeniusOperation<L, B>>,
    n: Seq<FrobeniusOperation<L, B>>,
    nm: Seq<Option<int>>,
    k: int,
) -> Seq<FrobeniusOperation<L, B>>
    decreases k,
{
    if k <= 0 {
        Seq::empty()
    } else {
        expand_second(s, n, nm, k - 1) + match nm[k - 1] {
            Some(i) => match seam_rule(s[i], n[k - 1]) {
                Some(p) => p.1,
                None => seq![n[k - 1]],
            },
            None => seq![n[k - 1]],
        }
    }
}

/// Every generator is an identity.
pub open spec fn all_identity<L: Label, B>(ops: Seq<FrobeniusOperation<L, B>>) -> bool {
    forall|i: int| 0 <= i < ops.len() ==> is_identity_op(#[trigger] ops[i])
}

/// Some generator was paired.
pub open spec fn any_paired(sm: Seq<Option<int>>) -> bool {
    exists|i: int| 0 <= i < sm.len() && #[trigger] sm[i] is Some
}

/// The words of the generators fit in memory.
pub open spec fn ops_fit<L: Label, B>(ops: Seq<FrobeniusOperation<L, B>>) -> bool {
    ops_sources(ops).len() <= usize::MAX && ops_targets(ops).len() <= usize::MAX
}

/// The generators of `ops` with each one that has a replacement replaced.
pub open spec fn expand_with<L: Label, B>(
    ops: Seq<FrobeniusOperation<L, B>>,
    repl: Seq<Option<Seq<FrobeniusOperation<L, B>>>>,
    k: int,
) -> Seq<FrobeniusOperation<L, B>>
    decreases k,
{
    if k <= 0 {
        Seq::empty()
    } else {
        expand_with(ops, repl, k - 1) + match repl[k - 1] {
            Some(v) => v,
            None => seq![ops[k - 1]],
        }
    }
}

/// The replacements as sequences.
pub open spec fn repl_view<L: Label, B>(repl: Seq<Option<Vec<FrobeniusOperation<L, B>>>>) -> Seq<
    Option<Seq<FrobeniusOperation<L, B>>>,
> {
    Seq::new(
        repl.len(),
        |i: int|
            match repl[i] {
                Some(v) => Some(v@),
                None => None,
            },
    )
}

/// Optional indices as integers.
pub open spec fn index_view(m: Seq<Option<usize>>) -> Seq<Option<int>> {
    Seq::new(
        m.len(),
        |i: int|
            match m[i] {
                Some(v) => Some(v as int),
                None => None,
            },
    )
}

/// The replacements `rv` of the first layer follow the pairing `sm`.
pub open spec fn first_repl_ok<L: Label, B>(
    s: Seq<FrobeniusOperation<L, B>>,
    n: Seq<FrobeniusOperation<L, B>>,
    sm: Seq<Option<int>>,
    rv: Seq<Option<Seq<FrobeniusOperation<L, B>>>>,
) -> bool {
    &&& sm.len() == s.len()
    &&& rv.len() == s.len()
    &&& forall|i: int|
        0 <= i < s.len() ==> (#[trigger] rv[i] is Some <==> sm[i] is Some) && (sm[i] matches Some(j) ==> (0 <= j
            < n.len() && (seam_rule(s[i], n[j]) matches Some(p) && rv[i] == Some(p.0))))
}

/// The replacements `rv` of the second layer follow the pairing `nm`.
pub open spec fn second_repl_ok<L: Label, B>(
    s: Seq<FrobeniusOperation<L, B>>,
    n: Seq<FrobeniusOperation<L, B>>,
    nm: Seq<Option<int>>,
    rv: Seq<Option<Seq<FrobeniusOperation<L, B>>>>,
) -> bool {
    &&& nm.len() == rv.len()
    &&& nm.len() <= n.len()
    &&& forall|j: int|
        0 <= j < nm.len() ==> (#[trigger] rv[j] is Some <==> nm[j] is Some) && (nm[j] matches Some(i) ==> (0 <= i
            < s.len() && (seam_rule(s[i], n[j]) matches Some(p) && rv[j] == Some(p.1))))
}

/// Expanding with the replacements of the pairing is the expansion of the
/// first layer.
proof fn lemma_expand_first<L: Label, B>(
    s: Seq<FrobeniusOperation<L, B>>,
    n: Seq<FrobeniusOperation<L, B>>,
    sm: Seq<Option<int>>,
    rv: Seq<Option<Seq<FrobeniusOperation<L, B>>>>,
    k: int,
)
    requires
        0 <= k <= s.len(),
        first_repl_ok(s, n, sm, rv),
    ensures
        expand_with(s, rv, k) == expand_first(s, n, sm, k),
    decreases k,
{
    if k > 0 {
        lemma_expand_first(s, n, sm, rv, k - 1);
        assert(rv[k - 1] is Some <==> sm[k - 1] is Some);
    }
}

/// Expanding with the replacements of the pairing is the expansion of the
/// second layer.
proof fn lemma_expand_second<L: Label, B>(
    s: Seq<FrobeniusOperation<L, B>>,
    n: Seq<FrobeniusOperation<L, B>>,
    nm: Seq<Option<int>>,
    rv: Seq<Option<Seq<FrobeniusOperation<L, B>>>>,
    k: int,
)
    requires
        0 <= k <= nm.len(),
        second_repl_ok(s, n, nm, rv),
    ensures
        expand_with(n, rv, k) == expand_second(s, n, nm, k),
    decreases k,
{
    if k > 0 {
        lemma_expand_second(s, n, nm, rv, k - 1);
        assert(rv[k - 1] is Some <==> nm[k - 1] is Some);
    }
}

/// Pairing first-layer generator `i` with second-layer generator `j` keeps
/// the replacements of the first layer in step.
proof fn lemma_first_repl_update<L: Label, B>(
    s: Seq<FrobeniusOperation<L, B>>,
    n: Seq<FrobeniusOperation<L, B>>,
    sm: Seq<Option<int>>,
    rv: Seq<Option<Seq<FrobeniusOperation<L, B>>>>,
    i: int,
    j: int,
    x: Seq<FrobeniusOperation<L, B>>,
)
    requires
        first_repl_ok(s, n, sm, rv),
        0 <= i < s.len(),
        0 <= j < n.len(),
        seam_rule(s[i], n[j]) matches Some(p) && p.0 == x,
    ensures
        first_repl_ok(s, n, sm.update(i, Some(j)), rv.update(i, Some(x))),
{
    let sm2 = sm.update(i, Some(j));
    let rv2 = rv.update(i, Some(x));
    assert forall|k: int| 0 <= k < s.len() implies (#[trigger] rv2[k] is Some <==> sm2[k] is Some) && (sm2[k] matches Some(
        jj,
    ) ==> (0 <= jj < n.len() && (seam_rule(s[k], n[jj]) matches Some(p) && rv2[k] == Some(p.0)))) by {
        if k != i {
            assert(rv2[k] == rv[k]);
            assert(sm2[k] == sm[k]);
            assert(rv[k] is Some <==> sm[k] is Some);
        }
    }
}

/// Recording the partner of the next second-layer generator keeps its
/// replacements in step.
proof fn lemma_second_repl_push<L: Label, B>(
    s: Seq<FrobeniusOperation<L, B>>,
    n: Seq<FrobeniusOperation<L, B>>,
    nm: Seq<Option<int>>,
    rv: Seq<Option<Seq<FrobeniusOperation<L, B>>>>,
    m: Option<int>,
    y: Option<Seq<FrobeniusOperation<L, B>>>,
)
    requires
        second_repl_ok(s, n, nm, rv),
        nm.len() < n.len(),
        m is Some <==> y is Some,
        m matches Some(i) ==> (0 <= i < s.len() && (seam_rule(s[i], n[nm.len() as int]) matches Some(p) && y == Some(
            p.1,
        ))),
    ensures
        second_repl_ok(s, n, nm.push(m), rv.push(y)),
{
    let nm2 = nm.push(m);
    let rv2 = rv.push(y);
    assert forall|j: int| 0 <= j < nm2.len() implies (#[trigger] rv2[j] is Some <==> nm2[j] is Some) && (nm2[j] matches Some(
        i,
    ) ==> (0 <= i < s.len() && (seam_rule(s[i], n[j]) matches Some(p) && rv2[j] == Some(p.1)))) by {
        if j < nm.len() {
            assert(rv2[j] == rv[j]);
            assert(nm2[j] == nm[j]);
            assert(rv[j] is Some <==> nm[j] is Some);
        }
    }
}

/// The block found for a position is one of the first `k`.
proof fn lemma_last_target_bound<L: Label, B>(ops: Seq<FrobeniusOperation<L, B>>, p: int, k: int)
    ensures
        last_target_at(ops, p, k) matches Some(i) ==> 0 <= i < k,
    decreases k,
{
    if k > 0 {
        lemma_last_target_bound(ops, p, k - 1);
    }
}

/// Finds the last block whose outputs start at position `p`.
fn find_last_target<Lambda: Label, BlackBoxLabel>(sb: &[FrobeniusBlock<Lambda, BlackBoxLabel>], p: usize) -> (r: Option<
    usize,
>)
    requires
        placements_ok(sb@),
    ensures
        index_view(seq![r])[0] == last_target_at(block_ops(sb@), p as int, sb@.len() as int),
{
    let ghost ops = block_ops(sb@);
    let mut k: usize = sb.len();
    while k > 0
        invariant
            k <= sb@.len(),
            placements_ok(sb@),
            ops == block_ops(sb@),
            last_target_at(ops, p as int, sb@.len() as int) == last_target_at(ops, p as int, k as int),
        decreases k,
    {
        let b = &sb[k - 1];
        assert(sb@[k - 1] == *b);
        if b.target_side_placement() == p {
            assert(b.target_place() == ops_targets(ops.subrange(0, k - 1)).len());
            return Some(k - 1);
        }
        k = k - 1;
    }
    None
}

/// A single generator has its own labels.
pub proof fn lemma_ops_single<L: Label, B>(op: FrobeniusOperation<L, B>)
    ensures
        ops_sources(seq![op]) == op_sources(op),
        ops_targets(seq![op]) == op_targets(op),
{
    let e = Seq::<FrobeniusOperation<L, B>>::empty();
    assert(seq![op].drop_last() =~= e);
    assert(ops_sources(e) =~= Seq::<L>::empty());
    assert(ops_targets(e) =~= Seq::<L>::empty());
    assert(Seq::<L>::empty() + op_sources(op) =~= op_sources(op));
    assert(Seq::<L>::empty() + op_targets(op) =~= op_targets(op));
}

/// Expanding more generators gives longer words.
proof fn lemma_expand_mono<L: Label, B>(
    ops: Seq<FrobeniusOperation<L, B>>,
    rv: Seq<Option<Seq<FrobeniusOperation<L, B>>>>,
    k: int,
    m: int,
)
    requires
        0 <= k <= m,
    ensures
        ops_sources(expand_with(ops, rv, k)).len() <= ops_sources(expand_with(ops, rv, m)).len(),
        ops_targets(expand_with(ops, rv, k)).len() <= ops_targets(expand_with(ops, rv, m)).len(),
    decreases m - k,
{
    if k < m {
        lemma_expand_mono(ops, rv, k, m - 1);
        let piece = match rv[m - 1] {
            Some(v) => v,
            None => seq![ops[m - 1]],
        };
        lemma_ops_concat(expand_with(ops, rv, m - 1), piece);
    }
}

/// Decides whether the expansion of `ops` by `repl` fits in memory.
fn expansion_fits<Lambda: Label, BlackBoxLabel>(
    sb: &[FrobeniusBlock<Lambda, BlackBoxLabel>],
    repl: &Vec<Option<Vec<FrobeniusOperation<Lambda, BlackBoxLabel>>>>,
) -> (b: bool)
    requires
        repl@.len() == sb@.len(),
    ensures
        b == ops_fit(expand_with(block_ops(sb@), repl_view(repl@), sb@.len() as int)),
{
    let ghost ops = block_ops(sb@);
    let ghost rv = repl_view(repl@);
    let mut sl: usize = 0;
    let mut tl: usize = 0;
    let mut i: usize = 0;
    while i < sb.len()
        invariant
            i <= sb@.len(),
            repl@.len() == sb@.len(),
            ops == block_ops(sb@),
            rv == repl_view(repl@),
            sl == ops_sources(expand_with(ops, rv, i as int)).len(),
            tl == ops_targets(expand_with(ops, rv, i as int)).len(),
        decreases sb@.len() - i,
    {
        let ghost before = expand_with(ops, rv, i as int);
        let ghost piece = match rv[i as int] {
            Some(v) => v,
            None => seq![ops[i as int]],
        };
        proof {
            assert(expand_with(ops, rv, i + 1) == before + piece);
            lemma_ops_concat(before, piece);
        }
        let (ps, pt) = match &repl[i] {
            Some(v) => {
                assert(repl@[i as int] == Some(*v));
                assert(rv[i as int] == Some(v@));
                assert(piece == v@);
                let mut a: usize = 0;
                let mut c: usize = 0;
                let mut k: usize = 0;
                while k < v.len()
                    invariant
                        k <= v@.len(),
                        i < sb@.len(),
                        ops == block_ops(sb@),
                        rv == repl_view(repl@),
                        expand_with(ops, rv, i + 1) == before + piece,
                        ops_sources(before + piece) == ops_sources(before) + ops_sources(piece),
                        ops_targets(before + piece) == ops_targets(before) + ops_targets(piece),
                        piece == v@,
                        a == ops_sources(v@.subrange(0, k as int)).len(),
                        c == ops_targets(v@.subrange(0, k as int)).len(),
                        a as int + sl as int <= usize::MAX,
                        c as int + tl as int <= usize::MAX,
                        sl == ops_sources(before).len(),
                        tl == ops_targets(before).len(),
                    decreases v@.len() - k,
                {
                    let x = v[k].source_size();
                    let y = v[k].target_size();
                    proof {
                        assert(v@.subrange(0, k + 1).drop_last() =~= v@.subrange(0, k as int));
                        assert(v@.subrange(0, k + 1).last() == v@[k as int]);
                    }
                    if x > usize::MAX - sl - a || y > usize::MAX - tl - c {
                        proof {
                            lemma_ops_prefix_len(v@, k + 1);
                            lemma_expand_mono(ops, rv, i + 1, sb@.len() as int);
                        }
                        return false;
                    }
                    a = a + x;
                    c = c + y;
                    k = k + 1;
                }
                assert(v@.subrange(0, k as int) =~= v@);
                assert(a == ops_sources(piece).len());
                assert(c == ops_targets(piece).len());
                (a, c)
            },
            None => {
                assert(repl@[i as int] is None);
                assert(rv[i as int] is None);
                assert(piece == seq![ops[i as int]]);
                let op = sb[i].op();
                assert(*op == ops[i as int]);
                assert(seq![ops[i as int]].drop_last() =~= Seq::<FrobeniusOperation<Lambda, BlackBoxLabel>>::empty());
                assert(seq![ops[i as int]].last() == ops[i as int]);
                let x = op.source_size();
                let y = op.target_size();
                proof {
                    lemma_ops_single(ops[i as int]);
                }
                assert(x == ops_sources(piece).len());
                assert(y == ops_targets(piece).len());
                (x, y)
            },
        };
        assert(ps == ops_sources(piece).len() && pt == ops_targets(piece).len());
        if ps > usize::MAX - sl || pt > usize::MAX - tl {
            proof {
                lemma_expand_mono(ops, rv, i + 1, sb@.len() as int);
            }
            return false;
        }
        sl = sl + ps;
        tl = tl + pt;
        i = i + 1;
    }
    true
}

/// Builds the expansion of the generators `ops` by `repl`, consuming both.
fn expand_ops<Lambda: Label, BlackBoxLabel>(
    ops: Vec<FrobeniusOperation<Lambda, BlackBoxLabel>>,
    repl: Vec<Option<Vec<FrobeniusOperation<Lambda, BlackBoxLabel>>>>,
) -> (r: Vec<FrobeniusOperation<Lambda, BlackBoxLabel>>)
    requires
        repl@.len() == ops@.len(),
    ensures
        r@ == expand_with(ops@, repl_view(repl@), ops@.len() as int),
{
    let ghost all = ops@;
    let ghost rv = repl_view(repl@);
    let n = ops.len();
    let mut ops = ops;
    let mut repl = repl;
    let mut r: Vec<FrobeniusOperation<Lambda, BlackBoxLabel>> = Vec::new();
    let mut i: usize = 0;
    while i < n
        invariant
            n == all.len(),
            i <= n,
            ops@ == all.subrange(i as int, n as int),
            repl@.len() == n - i,
            repl_view(repl@) == rv.subrange(i as int, n as int),
            rv.len() == n,
            r@ == expand_with(all, rv, i as int),
        decreases n - i,
    {
        let op = ops.remove(0);
        let ghost rr = repl@;
        let rep = repl.remove(0);
        proof {
            assert(repl_view(rr)[0] == rv[i as int]);
            assert(repl_view(repl@) =~= rv.subrange(i + 1, n as int)) by {
                assert forall|k: int| 0 <= k < repl@.len() implies repl_view(repl@)[k] == rv.subrange(i + 1, n as int)[k] by {
                    assert(repl@[k] == rr[k + 1]);
                    assert(repl_view(rr)[k + 1] == rv.subrange(i as int, n as int)[k + 1]);
                }
            }
        }
        match rep {
            Some(v) => {
                let mut v = v;
                r.append(&mut v);
            },
            None => {
                r.push(op);
            },
        }
        i = i + 1;
        proof {
            assert(ops@ =~= all.subrange(i as int, n as int));
            assert(r@ =~= expand_with(all, rv, i as int));
        }
    }
    r
}


/// The layers after simplifying the seam of `s` followed by `n`, and the
/// flags `(first is identities, second is identities, something changed)`.
pub open spec fn seam_simplify<L: Label, B>(s: Seq<FrobeniusOperation<L, B>>, n: Seq<FrobeniusOperation<L, B>>) -> (
    Seq<FrobeniusOperation<L, B>>,
    Seq<FrobeniusOperation<L, B>>,
    bool,
    bool,
    bool,
) {
    let (sm, nm) = seam_pairing(s, n, n.len() as int);
    let s2 = expand_first(s, n, sm, s.len() as int);
    let n2 = expand_second(s, n, nm, n.len() as int);
    if all_identity(s) || all_identity(n) {
        (s, n, all_identity(s), all_identity(n), false)
    } else if any_paired(sm) && ops_fit(s2) && ops_fit(n2) {
        (s2, n2, all_identity(s2), all_identity(n2), true)
    } else {
        (s, n, false, false, false)
    }
}

/// The pairing at the seam of two layers with its replacements, and whether
/// anything was paired.
#[verifier::spinoff_prover]
#[verifier::rlimit(60)]
fn pair_seam<Lambda: Label, BlackBoxLabel>(
    sb: &[FrobeniusBlock<Lambda, BlackBoxLabel>],
    nb: &[FrobeniusBlock<Lambda, BlackBoxLabel>],
) -> (r: (
    Vec<Option<usize>>,
    Vec<Option<Vec<FrobeniusOperation<Lambda, BlackBoxLabel>>>>,
    Vec<Option<usize>>,
    Vec<Option<Vec<FrobeniusOperation<Lambda, BlackBoxLabel>>>>,
    bool,
))
    requires
        placements_ok(sb@),
        placements_ok(nb@),
    ensures
        ({
            let s = block_ops(sb@);
            let n = block_ops(nb@);
            let pr = seam_pairing(s, n, n.len() as int);
            &&& index_view(r.0@) == pr.0
            &&& index_view(r.2@) == pr.1
            &&& r.1@.len() == s.len()
            &&& r.3@.len() == n.len()
            &&& first_repl_ok(s, n, pr.0, repl_view(r.1@))
            &&& second_repl_ok(s, n, pr.1, repl_view(r.3@))
            &&& r.4 == any_paired(pr.0)
        }),
{
    let ghost s = block_ops(sb@);
    let ghost n = block_ops(nb@);
    let mut sm: Vec<Option<usize>> = Vec::new();
    let mut s_repl: Vec<Option<Vec<FrobeniusOperation<Lambda, BlackBoxLabel>>>> = Vec::new();
    let mut nm: Vec<Option<usize>> = Vec::new();
    let mut n_repl: Vec<Option<Vec<FrobeniusOperation<Lambda, BlackBoxLabel>>>> = Vec::new();
    let mut any = false;
    let mut i0: usize = 0;
    while i0 < sb.len()
        invariant
            i0 <= sb@.len(),
            sm@.len() == i0,
            s_repl@.len() == i0,
            forall|k: int| 0 <= k < i0 ==> #[trigger] sm@[k] is None && s_repl@[k] is None,
        decreases sb@.len() - i0,
    {
        sm.push(None);
        s_repl.push(None);
        i0 = i0 + 1;
    }
    proof {
        assert(index_view(sm@) =~= seam_pairing(s, n, 0).0);
        assert(index_view(nm@) =~= seam_pairing(s, n, 0).1);
        assert forall|k: int| 0 <= k < s.len() implies #[trigger] repl_view(s_repl@)[k] is Some <==> index_view(sm@)[k] is Some by {
            assert(sm@[k] is None && s_repl@[k] is None);
        }
        assert(!any_paired(index_view(sm@))) by {
            assert forall|k: int| 0 <= k < sm@.len() implies !(#[trigger] index_view(sm@)[k] is Some) by {
                assert(sm@[k] is None);
            }
        }
    }
    let mut j: usize = 0;
    while j < nb.len()
        invariant
            j <= nb@.len(),
            s == block_ops(sb@),
            n == block_ops(nb@),
            placements_ok(sb@),
            placements_ok(nb@),
            sm@.len() == sb@.len(),
            s_repl@.len() == sb@.len(),
            nm@.len() == j,
            n_repl@.len() == j,
            index_view(sm@) == seam_pairing(s, n, j as int).0,
            index_view(nm@) == seam_pairing(s, n, j as int).1,
            first_repl_ok(s, n, index_view(sm@), repl_view(s_repl@)),
            second_repl_ok(s, n, index_view(nm@), repl_view(n_repl@)),
            any == any_paired(index_view(sm@)),
        decreases nb@.len() - j,
    {
        let p = nb[j].source_side_placement();
        let ghost prev = seam_pairing(s, n, j as int);
        let ghost sm0 = index_view(sm@);
        let ghost sr0 = repl_view(s_repl@);
        let ghost nm0 = index_view(nm@);
        let ghost nr0 = repl_view(n_repl@);
        proof {
            assert(nb@[j as int].source_place() == ops_sources(n.subrange(0, j as int)).len());
            lemma_last_target_bound(s, p as int, s.len() as int);
        }
        let found = find_last_target(sb, p);
        let mut paired = false;
        match found {
            Some(i) => {
                if sm[i].is_none() && sb[i].op().target_size() == nb[j].op().source_size() {
                    match seam_rule_exec(sb[i].op(), nb[j].op()) {
                        Some((x, y)) => {
                            proof {
                                lemma_first_repl_update(s, n, sm0, sr0, i as int, j as int, x@);
                                lemma_second_repl_push(s, n, nm0, nr0, Some(i as int), Some(y@));
                            }
                            sm.set(i, Some(j));
                            s_repl.set(i, Some(x));
                            nm.push(Some(i));
                            n_repl.push(Some(y));
                            paired = true;
                            any = true;
                            proof {
                                assert(index_view(sm@) =~= sm0.update(i as int, Some(j as int)));
                                assert(repl_view(s_repl@) =~= sr0.update(i as int, Some(x@)));
                                assert(index_view(nm@) =~= nm0.push(Some(i as int)));
                                assert(repl_view(n_repl@) =~= nr0.push(Some(y@)));
                                assert(index_view(sm@)[i as int] is Some);
                            }
                        },
                        None => {},
                    }
                }
            },
            None => {},
        }
        if !paired {
            proof {
                lemma_second_repl_push(s, n, nm0, nr0, None, None);
            }
            nm.push(None);
            n_repl.push(None);
            proof {
                assert(index_view(nm@) =~= nm0.push(None::<int>));
                assert(repl_view(n_repl@) =~= nr0.push(None));
            }
        }
        j = j + 1;
    }
    (sm, s_repl, nm, n_repl, any)
}

impl<Lambda: Label, BlackBoxLabel> FrobeniusLayer<Lambda, BlackBoxLabel> {
    /// Simplifies `self` followed by `next_layer` at their seam.
    ///
    /// When either layer consists of identities only, nothing changes and the
    /// result reports which. Otherwise the generators of `next_layer` are paired
    /// with generators of `self` as `seam_pairing` describes; paired ones are
    /// replaced as `seam_rule` says and both layers are rebuilt. The result is
    /// `(self is identities, next is identities, something changed)`; when
    /// nothing was paired (or the rebuilt words would not fit in memory) both
    /// layers stay and the result is `(false, false, false)`.
    pub fn two_layer_simplify(&mut self, next_layer: &mut Self) -> (r: (bool, bool, bool))
        ensures
            ({
                let res = seam_simplify(old(self).ops(), old(next_layer).ops());
                &&& final(self).ops() == res.0
                &&& final(next_layer).ops() == res.1
                &&& r == (res.2, res.3, res.4)
            }),
    {
        let self_id = self.is_identity();
        let next_id = next_layer.is_identity();
        if self_id || next_id {
            return (self_id, next_id, false);
        }
        let ghost s = self.ops();
        let ghost n = next_layer.ops();
        let (sm, s_repl, nm, n_repl, any) = pair_seam(self.blocks(), next_layer.blocks());
        if !any {
            return (false, false, false);
        }
        let ghost pr = seam_pairing(s, n, n.len() as int);
        proof {
            lemma_expand_first(s, n, pr.0, repl_view(s_repl@), s.len() as int);
            lemma_expand_second(s, n, pr.1, repl_view(n_repl@), n.len() as int);
        }
        let fits_s = expansion_fits(self.blocks(), &s_repl);
        let fits_n = expansion_fits(next_layer.blocks(), &n_repl);
        if !fits_s || !fits_n {
            return (false, false, false);
        }
        let mut whole_s = Self::new();
        std::mem::swap(&mut whole_s, self);
        let s_ops = whole_s.into_ops();
        let mut whole_n = Self::new();
        std::mem::swap(&mut whole_n, next_layer);
        let n_ops = whole_n.into_ops();
        let s2 = expand_ops(s_ops, s_repl);
        let n2 = expand_ops(n_ops, n_repl);
        *self = Self::rebuild_from_ops(s2);
        *next_layer = Self::rebuild_from_ops(n2);
        let a = self.is_identity();
        let b = next_layer.is_identity();
        (a, b, true)
    }
}

/// Two generator sequences agree up to cloning black box labels.
pub open spec fn ops_cloned<L: Label, B>(a: Seq<FrobeniusOperation<L, B>>, b: Seq<FrobeniusOperation<L, B>>) -> bool {
    &&& a.len() == b.len()
    &&& forall|i: int|
        0 <= i < a.len() ==> op_sources(#[trigger] b[i]) == op_sources(a[i]) && op_targets(b[i]) == op_targets(a[i])
            && (!(a[i] is UnSpecifiedBox) ==> b[i] == a[i]) && (a[i] is UnSpecifiedBox <==> b[i] is UnSpecifiedBox)
}

/// Cloned generators have the same words.
pub proof fn lemma_cloned_words<L: Label, B>(a: Seq<FrobeniusOperation<L, B>>, b: Seq<FrobeniusOperation<L, B>>)
    requires
        ops_cloned(a, b),
    ensures
        ops_sources(b) == ops_sources(a),
        ops_targets(b) == ops_targets(a),
    decreases a.len(),
{
    if a.len() > 0 {
        assert(ops_cloned(a.drop_last(), b.drop_last())) by {
            assert forall|i: int| 0 <= i < a.drop_last().len() implies op_sources(#[trigger] b.drop_last()[i]) == op_sources(
                a.drop_last()[i],
            ) && op_targets(b.drop_last()[i]) == op_targets(a.drop_last()[i]) && (!(a.drop_last()[i] is UnSpecifiedBox)
                ==> b.drop_last()[i] == a.drop_last()[i]) && (a.drop_last()[i] is UnSpecifiedBox <==> b.drop_last()[i] is UnSpecifiedBox) by {
                assert(op_sources(b[i]) == op_sources(a[i]));
            }
        }
        lemma_cloned_words(a.drop_last(), b.drop_last());
        let k = a.len() - 1;
        assert(op_sources(b[k]) == op_sources(a[k]));
    }
}

impl<Lambda: Label, BlackBoxLabel: Clone> Clone for FrobeniusLayer<Lambda, BlackBoxLabel> {
    /// A copy; black box labels are cloned.
    fn clone(&self) -> (r: Self)
        ensures
            ops_cloned(self.ops(), r.ops()),
    {
        proof {
            use_type_invariant(self);
        }
        let ghost all = self.ops();
        let mut ops: Vec<FrobeniusOperation<Lambda, BlackBoxLabel>> = Vec::new();
        let mut i: usize = 0;
        while i < self.blocks.len()
            invariant
                i <= self.blocks@.len(),
                all == block_ops(self.blocks@),
                ops_cloned(all.subrange(0, i as int), ops@),
            decreases self.blocks@.len() - i,
        {
            let c = self.blocks[i].op.clone();
            ops.push(c);
            i = i + 1;
            proof {
                assert forall|k: int| 0 <= k < i implies op_sources(#[trigger] ops@[k]) == op_sources(all.subrange(0, i as int)[k])
                    && op_targets(ops@[k]) == op_targets(all.subrange(0, i as int)[k]) && (!(all.subrange(0, i as int)[k] is UnSpecifiedBox)
                    ==> ops@[k] == all.subrange(0, i as int)[k]) && (all.subrange(0, i as int)[k] is UnSpecifiedBox <==> ops@[k] is UnSpecifiedBox) by {
                    if k < i - 1 {
                        assert(all.subrange(0, i as int)[k] == all.subrange(0, i - 1)[k]);
                    }
                }
            }
        }
        assert(all.subrange(0, i as int) =~= all);
        let ll = self.left_type.len();
        let rl = self.right_type.len();
        proof {
            lemma_cloned_words(all, ops@);
        }
        Self::rebuild_from_ops(ops)
    }
}

/// The generators of each layer.
pub open spec fn layer_views<L: Label, B>(ls: Seq<FrobeniusLayer<L, B>>) -> Seq<Seq<FrobeniusOperation<L, B>>> {
    Seq::new(ls.len(), |i: int| ls[i].ops())
}

/// A string diagram: layers composed from first to last.
#[derive(PartialEq, Eq, Debug)]
pub struct FrobeniusMorphism<Lambda: Label, BlackBoxLabel> {
    layers: Vec<FrobeniusLayer<Lambda, BlackBoxLabel>>,
}

/// The domain of a diagram given by its layers: the inputs of the first, or none.
pub open spec fn diagram_dom<L: Label, B>(d: Seq<Seq<FrobeniusOperation<L, B>>>) -> Seq<L> {
    if d.len() == 0 {
        Seq::empty()
    } else {
        ops_sources(d[0])
    }
}

/// The codomain of a diagram given by its layers: the outputs of the last, or none.
pub open spec fn diagram_cod<L: Label, B>(d: Seq<Seq<FrobeniusOperation<L, B>>>) -> Seq<L> {
    if d.len() == 0 {
        Seq::empty()
    } else {
        ops_targets(d.last())
    }
}

/// Appending the layer `l` below the layers `ls`: onto no layers it is the
/// only layer; otherwise it must start where the last layer ends (else the
/// last layer is dropped and appending fails), and the seam is simplified,
/// once more with the layer before when the last layer changed. Layers that
/// became identities are dropped, except that a lone identity layer is kept.
pub open spec fn frob_append<L: Label, B>(ls: Seq<Seq<FrobeniusOperation<L, B>>>, l: Seq<FrobeniusOperation<L, B>>) -> (
    Seq<Seq<FrobeniusOperation<L, B>>>,
    bool,
) {
    if ls.len() == 0 {
        (seq![l], true)
    } else {
        let v = ls.last();
        let rest = ls.drop_last();
        if ops_targets(v) != ops_sources(l) {
            (rest, false)
        } else {
            let r1 = seam_simplify(v, l);
            if !r1.2 {
                let ls2 = if r1.4 && rest.len() > 0 {
                    let r2 = seam_simplify(rest.last(), r1.0);
                    let base = rest.drop_last().push(r2.0);
                    if !r2.3 {
                        base.push(r2.1)
                    } else {
                        base
                    }
                } else {
                    rest.push(r1.0)
                };
                (
                    if !r1.3 {
                        ls2.push(r1.1)
                    } else {
                        ls2
                    },
                    true,
                )
            } else if r1.3 && rest.len() == 0 {
                (rest.push(r1.0), true)
            } else {
                (
                    if !r1.3 {
                        rest.push(r1.1)
                    } else {
                        rest
                    },
                    true,
                )
            }
        }
    }
}

/// Appends the layers `os` one at a time, stopping at the first failure.
pub open spec fn frob_compose_layers<L: Label, B>(
    ls: Seq<Seq<FrobeniusOperation<L, B>>>,
    os: Seq<Seq<FrobeniusOperation<L, B>>>,
) -> (Seq<Seq<FrobeniusOperation<L, B>>>, bool)
    decreases os.len(),
{
    if os.len() == 0 {
        (ls, true)
    } else {
        let a = frob_append(ls, os[0]);
        if a.1 {
            frob_compose_layers(a.0, os.drop_first())
        } else {
            (a.0, false)
        }
    }
}

/// Appends the layers `os` one at a time, going on past failures.
pub open spec fn frob_append_all<L: Label, B>(
    ls: Seq<Seq<FrobeniusOperation<L, B>>>,
    os: Seq<Seq<FrobeniusOperation<L, B>>>,
) -> Seq<Seq<FrobeniusOperation<L, B>>>
    decreases os.len(),
{
    if os.len() == 0 {
        ls
    } else {
        frob_append_all(frob_append(ls, os[0]).0, os.drop_first())
    }
}

impl<Lambda: Label, BlackBoxLabel> FrobeniusMorphism<Lambda, BlackBoxLabel> {
    /// The generators of each layer, first layer first.
    pub closed spec fn diagram(&self) -> Seq<Seq<FrobeniusOperation<Lambda, BlackBoxLabel>>> {
        layer_views(self.layers@)
    }

    /// The domain: the inputs of the first layer, or none.
    pub open spec fn dom(&self) -> Seq<Lambda> {
        diagram_dom(self.diagram())
    }

    /// The codomain: the outputs of the last layer, or none.
    pub open spec fn cod(&self) -> Seq<Lambda> {
        diagram_cod(self.diagram())
    }

    /// The diagram with no layers.
    pub fn new() -> (r: Self)
        ensures
            r.diagram() == Seq::<Seq<FrobeniusOperation<Lambda, BlackBoxLabel>>>::empty(),
    {
        let r = Self { layers: Vec::new() };
        assert(r.diagram() =~= Seq::<Seq<FrobeniusOperation<Lambda, BlackBoxLabel>>>::empty());
        r
    }

    /// The diagram made of exactly these layers, with no simplification.
    pub(crate) fn from_layers(layers: Vec<FrobeniusLayer<Lambda, BlackBoxLabel>>) -> (r: Self)
        ensures
            r.diagram() == layer_views(layers@),
    {
        Self { layers }
    }

    /// The layers, taken out.
    pub(crate) fn into_layers(self) -> (r: Vec<FrobeniusLayer<Lambda, BlackBoxLabel>>)
        ensures
            layer_views(r@) == self.diagram(),
    {
        self.layers
    }

    /// The number of layers.
    pub fn depth(&self) -> (r: usize)
        ensures
            r == self.diagram().len(),
    {
        self.layers.len()
    }

    /// The layers.
    pub fn layers(&self) -> (r: &[FrobeniusLayer<Lambda, BlackBoxLabel>])
        ensures
            layer_views(r@) == self.diagram(),
    {
        self.layers.as_slice()
    }

    /// Appends a layer below the last one, simplifying the seam; see
    /// `frob_append`. Fails when the layer does not start where the last one
    /// ends.
    pub fn append_layer(&mut self, next_layer: FrobeniusLayer<Lambda, BlackBoxLabel>) -> (r: Result<(), CatgraphError>)
        ensures
            final(self).diagram() == frob_append(old(self).diagram(), next_layer.ops()).0,
            r is Ok <==> frob_append(old(self).diagram(), next_layer.ops()).1,
            r is Err ==> r->Err_0 is Composition,
    {
        let ghost d0 = self.diagram();
        let ghost l = next_layer.ops();
        match self.layers.pop() {
            None => {
                self.layers.push(next_layer);
                assert(self.diagram() =~= seq![l]);
                Ok(())
            },
            Some(v) => {
                let ghost rest = self.diagram();
                assert(rest =~= d0.drop_last());
                assert(v.ops() == d0.last());
                let mut v = v;
                if !labels_equal(v.right_type(), next_layer.left_type()) {
                    return Err(CatgraphError::Composition {
                        message: String::from_str("type mismatch in frobenius morphims composition"),
                    });
                }
                let mut temp = next_layer;
                let ghost r1 = seam_simplify(v.ops(), temp.ops());
                let (v_id, temp_id, v_change) = v.two_layer_simplify(&mut temp);
                if !v_id {
                    if v_change && self.layers.len() > 0 {
                        let ghost r2 = seam_simplify(rest.last(), v.ops());
                        let prev = self.layers.pop();
                        match prev {
                            Some(mut prev) => {
                                assert(prev.ops() == rest.last());
                                let (_, v_now_id, _) = prev.two_layer_simplify(&mut v);
                                self.layers.push(prev);
                                if !v_now_id {
                                    self.layers.push(v);
                                }
                                proof {
                                    let base = rest.drop_last().push(r2.0);
                                    if !r2.3 {
                                        assert(self.diagram() =~= base.push(r2.1));
                                    } else {
                                        assert(self.diagram() =~= base);
                                    }
                                }
                            },
                            None => {},
                        }
                    } else {
                        self.layers.push(v);
                        assert(self.diagram() =~= rest.push(r1.0));
                    }
                } else if temp_id && self.layers.len() == 0 {
                    self.layers.push(v);
                    assert(self.diagram() =~= rest.push(r1.0));
                    return Ok(());
                }
                let ghost before = self.diagram();
                if !temp_id {
                    self.layers.push(temp);
                    assert(self.diagram() =~= before.push(r1.1));
                }
                Ok(())
            },
        }
    }
}

impl<Lambda: Label, BlackBoxLabel> Default for FrobeniusMorphism<Lambda, BlackBoxLabel> {
    fn default() -> (r: Self)
        ensures
            r.diagram() == Seq::<Seq<FrobeniusOperation<Lambda, BlackBoxLabel>>>::empty(),
    {
        Self::new()
    }
}

impl<Lambda: Label, BlackBoxLabel> FrobeniusMorphism<Lambda, BlackBoxLabel> {
    /// The diagram of a single generator.
    pub fn from_op(op: FrobeniusOperation<Lambda, BlackBoxLabel>) -> (r: Self)
        ensures
            r.diagram() == seq![seq![op]],
    {
        let mut answer_layer = FrobeniusLayer::new();
        proof {
            assert(ops_sources(answer_layer.ops()) =~= Seq::<Lambda>::empty());
            assert(ops_targets(answer_layer.ops()) =~= Seq::<Lambda>::empty());
        }
        let n_src = op.source_size();
        let n_tgt = op.target_size();
        answer_layer.append_block(op);
        assert(answer_layer.ops() =~= seq![op]);
        let mut answer = Self::new();
        let _ = answer.append_layer(answer_layer);
        answer
    }

    /// Exchanges domain and codomain: every layer is flipped and the layers
    /// are reversed.
    pub fn hflip<F: Fn(BlackBoxLabel) -> BlackBoxLabel>(&mut self, f: &F)
        requires
            forall|l: BlackBoxLabel| #[trigger] f.requires((l,)),
        ensures
            final(self).diagram().len() == old(self).diagram().len(),
            forall|i: int|
                0 <= i < old(self).diagram().len() ==> all_flipped(
                    old(self).diagram()[old(self).diagram().len() - 1 - i],
                    #[trigger] final(self).diagram()[i],
                    *f,
                ),
            final(self).dom() == old(self).cod(),
            final(self).cod() == old(self).dom(),
    {
        let ghost d = self.diagram();
        let n = self.layers.len();
        let mut flipped: Vec<FrobeniusLayer<Lambda, BlackBoxLabel>> = Vec::new();
        let mut k: usize = 0;
        while k < n
            invariant
                forall|l: BlackBoxLabel| #[trigger] f.requires((l,)),
                n == d.len(),
                k <= n,
                self.layers@.len() == n - k,
                layer_views(self.layers@) == d.subrange(0, n - k),
                flipped@.len() == k,
                forall|i: int| 0 <= i < k ==> all_flipped(d[n - 1 - i], #[trigger] flipped@[i].ops(), *f),
                forall|i: int| 0 <= i < k ==> ops_sources(#[trigger] flipped@[i].ops()) == ops_targets(d[n - 1 - i])
                    && ops_targets(flipped@[i].ops()) == ops_sources(d[n - 1 - i]),
            decreases n - k,
        {
            let ghost ls = self.layers@;
            proof {
                assert(layer_views(ls)[n - 1 - k] == ls[n - 1 - k].ops());
                assert(d.subrange(0, n - k)[n - 1 - k] == d[n - 1 - k]);
            }
            let layer = self.layers.pop();
            match layer {
                Some(mut layer) => {
                    assert(layer == ls[n - 1 - k]);
                    assert(layer.ops() == d[n - 1 - k]);
                    layer.hflip(f);
                    flipped.push(layer);
                },
                None => {},
            }
            k = k + 1;
            assert(layer_views(self.layers@) =~= d.subrange(0, n - k));
        }
        self.layers = flipped;
        proof {
            assert forall|i: int| 0 <= i < n implies all_flipped(d[n - 1 - i], #[trigger] self.diagram()[i], *f) by {
                assert(self.diagram()[i] == flipped@[i].ops());
            }
            if n > 0 {
                assert(self.diagram()[0] == flipped@[0].ops());
                assert(self.diagram().last() == flipped@[n - 1].ops());
            }
        }
    }
}

impl<Lambda: Label, BlackBoxLabel> HasIdentity<Vec<Lambda>> for FrobeniusMorphism<Lambda, BlackBoxLabel> {
    /// One layer of identities.
    fn identity(on_this: &Vec<Lambda>) -> (r: Self)
        ensures
            r.diagram() == seq![Seq::new(on_this@.len(), |i: int| FrobeniusOperation::<Lambda, BlackBoxLabel>::Identity(on_this@[i]))],
            r.dom() == on_this@,
            r.cod() == on_this@,
    {
        let layer = FrobeniusLayer::identity(on_this);
        let mut layers = Vec::new();
        layers.push(layer);
        let r = Self { layers };
        assert(r.diagram() =~= seq![layer.ops()]);
        r
    }
}

/// Identities on the labels `t`.
pub open spec fn identity_ops<L: Label, B>(t: Seq<L>) -> Seq<FrobeniusOperation<L, B>> {
    Seq::new(t.len(), |i: int| FrobeniusOperation::<L, B>::Identity(t[i]))
}

/// Two layers side by side when their words fit in memory, else the first.
pub open spec fn layer_tensor<L: Label, B>(a: Seq<FrobeniusOperation<L, B>>, b: Seq<FrobeniusOperation<L, B>>) -> Seq<
    FrobeniusOperation<L, B>,
> {
    if ops_sources(a).len() + ops_sources(b).len() <= usize::MAX && ops_targets(a).len() + ops_targets(b).len()
        <= usize::MAX {
        a + b
    } else {
        a
    }
}

/// The codomain of the last layer of `o` met when `sl` layers are paired.
pub open spec fn frob_pad<L: Label, B>(o: Seq<Seq<FrobeniusOperation<L, B>>>, sl: int) -> Seq<L> {
    if sl > 0 && o.len() > 0 {
        ops_targets(o[(if sl < o.len() {
            sl
        } else {
            o.len() as int
        }) - 1])
    } else {
        Seq::empty()
    }
}

/// The tensor product of two diagrams layer by layer: the layers of `s`
/// paired with those of `o` (padded with identities on the last codomain of
/// `o`), then the deeper layers of `o`, each behind identities on the
/// codomain of the last layer of `s`, appended one by one.
pub open spec fn frob_monoidal<L: Label, B>(
    s: Seq<Seq<FrobeniusOperation<L, B>>>,
    o: Seq<Seq<FrobeniusOperation<L, B>>>,
) -> Seq<Seq<FrobeniusOperation<L, B>>> {
    let sl = s.len() as int;
    let ol = o.len() as int;
    let lot = frob_pad(o, sl);
    let lst = diagram_cod(s);
    let zipped = Seq::new(
        s.len(),
        |n: int|
            if n < ol {
                layer_tensor(s[n], o[n])
            } else {
                layer_tensor(s[n], identity_ops::<L, B>(lot))
            },
    );
    let extra = Seq::new(
        (if ol > sl {
            ol - sl
        } else {
            0
        }) as nat,
        |k: int| layer_tensor(identity_ops::<L, B>(lst), o[sl + k]),
    );
    frob_append_all(zipped, extra)
}

/// Dropping the first layer drops the first view.
proof fn lemma_views_remove_first<L: Label, B>(v: Seq<FrobeniusLayer<L, B>>)
    requires
        v.len() > 0,
    ensures
        layer_views(v.remove(0)) == layer_views(v).drop_first(),
{
    assert(layer_views(v.remove(0)) =~= layer_views(v).drop_first());
}

/// Appending one more layer after a run of appends.
proof fn lemma_append_all_push<L: Label, B>(
    ls: Seq<Seq<FrobeniusOperation<L, B>>>,
    a: Seq<Seq<FrobeniusOperation<L, B>>>,
    x: Seq<FrobeniusOperation<L, B>>,
)
    ensures
        frob_append_all(ls, a.push(x)) == frob_append(frob_append_all(ls, a), x).0,
    decreases a.len(),
{
    let e = Seq::<Seq<FrobeniusOperation<L, B>>>::empty();
    if a.len() == 0 {
        assert(a.push(x).drop_first() =~= e);
        assert(a.push(x)[0] == x);
        assert(frob_append_all(ls, a) == ls);
        assert(frob_append_all(ls, a.push(x)) == frob_append_all(frob_append(ls, x).0, e));
        assert(frob_append_all(frob_append(ls, x).0, e) == frob_append(ls, x).0);
    } else {
        assert(a.push(x).drop_first() =~= a.drop_first().push(x));
        assert(a.push(x)[0] == a[0]);
        lemma_append_all_push(frob_append(ls, a[0]).0, a.drop_first(), x);
        assert(frob_append_all(ls, a.push(x)) == frob_append_all(frob_append(ls, a[0]).0, a.drop_first().push(x)));
        assert(frob_append_all(ls, a) == frob_append_all(frob_append(ls, a[0]).0, a.drop_first()));
    }
}

impl<Lambda: Label, BlackBoxLabel> Monoidal for FrobeniusMorphism<Lambda, BlackBoxLabel> {
    /// Layer-by-layer tensor product; see `frob_monoidal`.
    fn monoidal(&mut self, other: Self)
        ensures
            final(self).diagram() == frob_monoidal(old(self).diagram(), other.diagram()),
    {
        let ghost s = self.diagram();
        let ghost o = other.diagram();
        let sl = self.layers.len();
        let ol = other.layers.len();
        let ghost lot = frob_pad(o, sl as int);
        let ghost lst = diagram_cod(s);
        let ghost zipped = Seq::new(
            s.len(),
            |n: int|
                if n < ol {
                    layer_tensor(s[n], o[n])
                } else {
                    layer_tensor(s[n], identity_ops::<Lambda, BlackBoxLabel>(lot))
                },
        );
        let ghost extra = Seq::new(
            (if ol > sl {
                ol - sl
            } else {
                0
            }) as nat,
            |k: int| layer_tensor(identity_ops::<Lambda, BlackBoxLabel>(lst), o[sl + k]),
        );
        let mut old_layers: Vec<FrobeniusLayer<Lambda, BlackBoxLabel>> = Vec::new();
        std::mem::swap(&mut old_layers, &mut self.layers);
        let mut other_layers = other.layers;
        let mut built: Vec<FrobeniusLayer<Lambda, BlackBoxLabel>> = Vec::new();
        let mut last_other_type: Vec<Lambda> = Vec::new();
        let mut last_self_type: Vec<Lambda> = Vec::new();
        let mut n: usize = 0;
        while n < sl
            invariant
                sl == s.len(),
                ol == o.len(),
                n <= sl,
                old_layers@.len() == sl - n,
                other_layers@.len() == ol - (if n < ol { n as int } else { ol as int }),
                layer_views(old_layers@) == s.subrange(n as int, sl as int),
                layer_views(other_layers@) == o.subrange(if n < ol { n as int } else { ol as int }, ol as int),
                layer_views(built@) == zipped.subrange(0, n as int),
                last_other_type@ == frob_pad(o, n as int),
                last_self_type@ == diagram_cod(s.subrange(0, n as int)),
                lot == frob_pad(o, sl as int),
                zipped.len() == sl,
                forall|k: int| 0 <= k < sl ==> #[trigger] zipped[k] == if k < ol {
                    layer_tensor(s[k], o[k])
                } else {
                    layer_tensor(s[k], identity_ops::<Lambda, BlackBoxLabel>(lot))
                },
            decreases sl - n,
        {
            let ghost ol0 = old_layers@;
            let ghost oo0 = other_layers@;
            let mut cur = old_layers.remove(0);
            assert(layer_views(ol0)[0] == cur.ops());
            assert(cur.ops() == s[n as int]);
            last_self_type = copy_vec(cur.right_type());
            if n < ol {
                let ghost oo = other_layers@;
                let on = other_layers.remove(0);
                assert(layer_views(oo)[0] == on.ops());
                assert(on.ops() == o[n as int]);
                last_other_type = copy_vec(on.right_type());
                cur.monoidal(on);
            } else {
                let idl = FrobeniusLayer::identity(&last_other_type);
                assert(idl.ops() =~= identity_ops::<Lambda, BlackBoxLabel>(lot));
                cur.monoidal(idl);
            }
            assert(cur.ops() == zipped[n as int]);
            let ghost b0 = built@;
            built.push(cur);
            assert(layer_views(built@) =~= layer_views(b0).push(zipped[n as int]));
            n = n + 1;
            proof {
                lemma_views_remove_first(ol0);
                assert(s.subrange(n - 1, sl as int).drop_first() =~= s.subrange(n as int, sl as int));
                assert(layer_views(old_layers@) =~= s.subrange(n as int, sl as int));
                if n - 1 < ol {
                    lemma_views_remove_first(oo0);
                    assert(o.subrange(n - 1, ol as int).drop_first() =~= o.subrange(if n < ol { n as int } else { ol as int }, ol as int));
                }
                assert(layer_views(other_layers@) =~= o.subrange(if n < ol { n as int } else { ol as int }, ol as int));
                assert(layer_views(built@) =~= zipped.subrange(0, n as int));
                assert(s.subrange(0, n as int).last() == s[n - 1]);
            }
        }
        self.layers = built;
        proof {
            assert(self.diagram() =~= zipped);
            assert(s.subrange(0, sl as int) =~= s);
        }
        let mut m: usize = sl;
        if m < ol {
        while m < ol
            invariant
                sl == s.len(),
                ol == o.len(),
                sl <= m <= ol,
                other_layers@.len() == ol - m,
                layer_views(other_layers@) == o.subrange(m as int, ol as int),
                last_self_type@ == lst,
                extra.len() == ol - sl,
                forall|k: int| 0 <= k < ol - sl ==> #[trigger] extra[k] == layer_tensor(identity_ops::<Lambda, BlackBoxLabel>(lst), o[sl + k]),
                self.diagram() == frob_append_all(zipped, extra.subrange(0, m - sl)),
            decreases ol - m,
        {
            let ghost oo = other_layers@;
            let on = other_layers.remove(0);
            assert(layer_views(oo)[0] == on.ops());
            assert(on.ops() == o[m as int]);
            let mut new_layer = FrobeniusLayer::identity(&last_self_type);
            assert(new_layer.ops() =~= identity_ops::<Lambda, BlackBoxLabel>(lst));
            new_layer.monoidal(on);
            let ghost nl = new_layer.ops();
            assert(nl == extra[m - sl]);
            let _ = self.append_layer(new_layer);
            proof {
                lemma_append_all_push(zipped, extra.subrange(0, m - sl), nl);
                assert(extra.subrange(0, m - sl).push(nl) =~= extra.subrange(0, m + 1 - sl));
            }
            m = m + 1;
            proof {
                lemma_views_remove_first(oo);
                assert(o.subrange(m - 1, ol as int).drop_first() =~= o.subrange(m as int, ol as int));
                assert(layer_views(other_layers@) =~= o.subrange(m as int, ol as int));
            }
        }
        }
        proof {
            assert(extra.subrange(0, m - sl) =~= extra);
        }
    }
}

/// Decides whether the labels of two slices agree; reports the first index
/// where they differ.
fn first_mismatch<Lambda: Label>(a: &[Lambda], b: &[Lambda]) -> (r: Option<usize>)
    requires
        a@.len() == b@.len(),
    ensures
        r is None <==> a@ == b@,
        r matches Some(i) ==> i < a@.len() && a@[i as int] != b@[i as int] && forall|k: int| 0 <= k < i ==> a@[k] == b@[k],
{
    let mut i: usize = 0;
    while i < a.len()
        invariant
            a@.len() == b@.len(),
            i <= a@.len(),
            forall|k: int| 0 <= k < i ==> a@[k] == b@[k],
        decreases a@.len() - i,
    {
        if !a[i].same_label(&b[i]) {
            return Some(i);
        }
        i = i + 1;
    }
    assert(a@ =~= b@);
    None
}

/// The error reported when the codomain `cod` of a diagram with `sl` layers
/// is not the domain `dom` of one with `ol` layers.
pub open spec fn composable_error<L>(sl: nat, ol: nat, cod: Seq<L>, dom: Seq<L>, e: CatgraphError) -> bool {
    if sl == 0 || ol == 0 {
        e == (CatgraphError::CompositionSizeMismatch {
            expected: 0,
            actual: (if sl == 0 {
                dom.len()
            } else {
                cod.len()
            }) as usize,
        })
    } else if cod.len() != dom.len() {
        e == (CatgraphError::CompositionSizeMismatch { expected: cod.len() as usize, actual: dom.len() as usize })
    } else {
        &&& e matches CatgraphError::CompositionLabelMismatch { index, .. }
        &&& e->index < cod.len()
        &&& cod[e->index as int] != dom[e->index as int]
        &&& forall|k: int| 0 <= k < e->index ==> cod[k] == dom[k]
    }
}

impl<Lambda: Label, BlackBoxLabel> ComposableMutating<Vec<Lambda>> for FrobeniusMorphism<Lambda, BlackBoxLabel> {
    /// Ok when the codomain of `self` is the domain of `other`. Otherwise:
    /// when one diagram has no layers, a size error against zero; when the
    /// words differ in length, a size error; else the first index where the
    /// labels differ.
    fn composable(&self, other: &Self) -> (r: Result<(), CatgraphError>)
        ensures
            r is Ok <==> self.cod() == other.dom(),
            r is Err ==> composable_error(self.diagram().len(), other.diagram().len(), self.cod(), other.dom(), r->Err_0),
    {
        let sn = self.layers.len();
        let on = other.layers.len();
        if sn == 0 || on == 0 {
            if sn == 0 && on == 0 {
                return Ok(());
            }
            let len = if sn == 0 {
                other.layers[0].left_type().len()
            } else {
                self.layers[sn - 1].right_type().len()
            };
            proof {
                if sn == 0 {
                    assert(other.diagram()[0] == other.layers@[0].ops());
                } else {
                    assert(self.diagram().last() == self.layers@[sn - 1].ops());
                }
            }
            if len == 0 {
                proof {
                    if sn == 0 {
                        assert(other.dom() =~= self.cod());
                    } else {
                        assert(self.cod() =~= other.dom());
                    }
                }
                return Ok(());
            } else {
                return Err(CatgraphError::CompositionSizeMismatch { expected: 0, actual: len });
            }
        }
        let self_interface = self.layers[sn - 1].right_type();
        let other_interface = other.layers[0].left_type();
        proof {
            assert(self.diagram().last() == self.layers@[sn - 1].ops());
            assert(other.diagram()[0] == other.layers@[0].ops());
        }
        if self_interface.len() != other_interface.len() {
            Err(CatgraphError::CompositionSizeMismatch { expected: self_interface.len(), actual: other_interface.len() })
        } else {
            match first_mismatch(self_interface, other_interface) {
                None => Ok(()),
                Some(idx) => Err(CatgraphError::CompositionLabelMismatch {
                    index: idx,
                    expected: label_text(&self_interface[idx]),
                    actual: label_text(&other_interface[idx]),
                }),
            }
        }
    }

    /// Appends the layers of `other` one at a time (see `frob_compose_layers`)
    /// after checking that the interfaces agree.
    fn compose(&mut self, other: Self) -> (r: Result<(), CatgraphError>)
        ensures
            old(self).cod() != other.dom() ==> r is Err && final(self).diagram() == old(self).diagram(),
            old(self).cod() == other.dom() ==> final(self).diagram() == frob_compose_layers(
                old(self).diagram(),
                other.diagram(),
            ).0,
            old(self).cod() == other.dom() ==> (r is Ok <==> frob_compose_layers(
                old(self).diagram(),
                other.diagram(),
            ).1),
    {
        let c = self.composable(&other);
        assert(c is Ok <==> self.cod() == other.dom());
        match c {
            Ok(()) => {},
            Err(e) => {
                return Err(e);
            },
        }
        let ghost o = other.diagram();
        let ghost d0 = self.diagram();
        let mut rest = other.layers;
        let ghost k0 = 0int;
        let mut k: usize = 0;
        let n = rest.len();
        assert(o.subrange(0, n as int) =~= o);
        while rest.len() > 0
            invariant
                n == o.len(),
                d0 == old(self).diagram(),
                o == other.diagram(),
                old(self).cod() == other.dom(),
                k + rest@.len() == n,
                layer_views(rest@) == o.subrange(k as int, n as int),
                frob_compose_layers(self.diagram(), o.subrange(k as int, n as int)) == frob_compose_layers(d0, o),
            decreases rest@.len(),
        {
            let ghost rr = rest@;
            let next_layer = rest.remove(0);
            let ghost full = o.subrange(k as int, n as int);
            assert(layer_views(rr)[0] == next_layer.ops());
            assert(full[0] == next_layer.ops());
            assert(full.drop_first() =~= o.subrange(k + 1, n as int));
            let ghost before = self.diagram();
            assert(frob_compose_layers(before, full) == (if frob_append(before, full[0]).1 {
                frob_compose_layers(frob_append(before, full[0]).0, full.drop_first())
            } else {
                (frob_append(before, full[0]).0, false)
            }));
            match self.append_layer(next_layer) {
                Ok(()) => {},
                Err(e) => {
                    return Err(e);
                },
            }
            k = k + 1;
            assert(layer_views(rest@) =~= o.subrange(k as int, n as int));
        }
        assert(o.subrange(k as int, n as int) =~= Seq::<Seq<FrobeniusOperation<Lambda, BlackBoxLabel>>>::empty());
        Ok(())
    }

    fn domain(&self) -> (r: Vec<Lambda>)
        ensures
            r@ == self.dom(),
    {
        if self.layers.len() == 0 {
            Vec::new()
        } else {
            assert(self.diagram()[0] == self.layers@[0].ops());
            copy_vec(self.layers[0].left_type())
        }
    }

    fn codomain(&self) -> (r: Vec<Lambda>)
        ensures
            r@ == self.cod(),
    {
        let n = self.layers.len();
        if n == 0 {
            Vec::new()
        } else {
            assert(self.diagram().last() == self.layers@[n - 1].ops());
            copy_vec(self.layers[n - 1].right_type())
        }
    }
}

impl<Lambda: Label, BlackBoxLabel> MonoidalMutatingMorphism<Vec<Lambda>> for FrobeniusMorphism<Lambda, BlackBoxLabel> {

}

impl<Lambda: Label, BlackBoxLabel: Clone> Clone for FrobeniusMorphism<Lambda, BlackBoxLabel> {
    /// A copy; black box labels are cloned.
    fn clone(&self) -> (r: Self)
        ensures
            r.diagram().len() == self.diagram().len(),
            forall|i: int| 0 <= i < self.diagram().len() ==> ops_cloned(self.diagram()[i], #[trigger] r.diagram()[i]),
    {
        let mut layers: Vec<FrobeniusLayer<Lambda, BlackBoxLabel>> = Vec::new();
        let mut i: usize = 0;
        while i < self.layers.len()
            invariant
                i <= self.layers@.len(),
                layers@.len() == i,
                forall|k: int| 0 <= k < i ==> ops_cloned(self.layers@[k].ops(), #[trigger] layers@[k].ops()),
            decreases self.layers@.len() - i,
        {
            let c = self.layers[i].clone();
            layers.push(c);
            i = i + 1;
        }
        Self { layers }
    }
}

impl<Lambda: Label, BlackBoxLabel> From<FrobeniusOperation<Lambda, BlackBoxLabel>> for FrobeniusMorphism<Lambda, BlackBoxLabel> {
    /// The diagram of a single generator.
    fn from(op: FrobeniusOperation<Lambda, BlackBoxLabel>) -> (r: Self)
        ensures
            r.diagram() == seq![seq![op]],
    {
        Self::from_op(op)
    }
}

impl<Lambda: Label, BlackBoxLabel> vstd::std_specs::convert::FromSpecImpl<FrobeniusOperation<Lambda, BlackBoxLabel>> for FrobeniusMorphism<Lambda, BlackBoxLabel> {
    open spec fn obeys_from_spec() -> bool {
        false
    }

    open spec fn from_spec(v: FrobeniusOperation<Lambda, BlackBoxLabel>) -> Self {
        arbitrary()
    }
}

impl<Lambda: Label, BlackBoxLabel: Clone> Contains<BlackBoxLabel> for FrobeniusMorphism<Lambda, BlackBoxLabel> {
    /// The labels of the black boxes, layer after layer.
    fn contained_labels(&self) -> (r: Vec<BlackBoxLabel>)
        ensures
            r@.len() == diagram_box_count(self.diagram()),
    {
        let mut r: Vec<BlackBoxLabel> = Vec::new();
        let mut i: usize = 0;
        while i < self.layers.len()
            invariant
                i <= self.layers@.len(),
                r@.len() == diagram_box_count(self.diagram().subrange(0, i as int)),
            decreases self.layers@.len() - i,
        {
            let mut more = self.layers[i].contained_labels();
            r.append(&mut more);
            i = i + 1;
            proof {
                assert(self.diagram().subrange(0, i as int).drop_last() =~= self.diagram().subrange(0, i - 1));
                assert(self.diagram().subrange(0, i as int).last() == self.layers@[i - 1].ops());
            }
        }
        assert(self.diagram().subrange(0, i as int) =~= self.diagram());
        r
    }
}

/// The number of black boxes in all layers.
pub open spec fn diagram_box_count<L: Label, B>(d: Seq<Seq<FrobeniusOperation<L, B>>>) -> nat
    decreases d.len(),
{
    if d.len() == 0 {
        0
    } else {
        diagram_box_count(d.drop_last()) + box_count(d.last())
    }
}

/// A generator that no simplification starts from.
pub open spec fn inert_op<L: Label, B>(op: FrobeniusOperation<L, B>) -> bool {
    !(op is SymmetricBraiding) && !(op is Unit) && !(op is Spider)
}

/// A multiplication, comultiplication or identity on `z`.
pub open spec fn spider_part<L: Label, B>(op: FrobeniusOperation<L, B>, z: L) -> bool {
    op == FrobeniusOperation::<L, B>::Multiplication(z) || op == FrobeniusOperation::<L, B>::Comultiplication(z)
        || op == FrobeniusOperation::<L, B>::Identity(z)
}

/// A non-empty diagram of multiplications, comultiplications and identities
/// on `z`, whose layers follow each other and are not all identities, with
/// no word longer than `bound`.
pub open spec fn spider_tree<L: Label, B>(d: Seq<Seq<FrobeniusOperation<L, B>>>, z: L, bound: nat) -> bool {
    &&& d.len() > 0
    &&& forall|i: int, j: int| 0 <= i < d.len() && 0 <= j < d[i].len() ==> spider_part(#[trigger] d[i][j], z)
    &&& forall|i: int| 0 <= i < d.len() - 1 ==> ops_targets(#[trigger] d[i]) == ops_sources(d[i + 1])
    &&& forall|i: int| 0 <= i < d.len() ==> !all_identity(#[trigger] d[i])
    &&& forall|i: int| 0 <= i < d.len() ==> ops_sources(#[trigger] d[i]).len() <= bound && ops_targets(d[i]).len() <= bound
}

/// No generator pairs across a seam whose first layer is inert.
proof fn lemma_pairing_none<L: Label, B>(s: Seq<FrobeniusOperation<L, B>>, n: Seq<FrobeniusOperation<L, B>>, j: int)
    requires
        0 <= j <= n.len(),
        forall|i: int| 0 <= i < s.len() ==> inert_op(#[trigger] s[i]),
    ensures
        seam_pairing(s, n, j).0 == Seq::new(s.len(), |i: int| None::<int>),
    decreases j,
{
    if j > 0 {
        lemma_pairing_none(s, n, j - 1);
        lemma_last_target_bound(s, ops_sources(n.subrange(0, j - 1)).len() as int, s.len() as int);
        match last_target_at(s, ops_sources(n.subrange(0, j - 1)).len() as int, s.len() as int) {
            Some(i) => {
                assert(inert_op(s[i]));
                assert(seam_rule(s[i], n[j - 1]) is None);
            },
            None => {},
        }
    }
}

/// Appending a layer below an inert last layer adds it unchanged.
proof fn lemma_append_inert<L: Label, B>(d: Seq<Seq<FrobeniusOperation<L, B>>>, l: Seq<FrobeniusOperation<L, B>>)
    requires
        d.len() > 0,
        forall|k: int| 0 <= k < d.last().len() ==> inert_op(#[trigger] d.last()[k]),
        !all_identity(d.last()),
        !all_identity(l),
        ops_targets(d.last()) == ops_sources(l),
    ensures
        frob_append(d, l) == (d.push(l), true),
{
    let v = d.last();
    lemma_pairing_none(v, l, l.len() as int);
    let sm = seam_pairing(v, l, l.len() as int).0;
    assert(!any_paired(sm)) by {
        assert forall|i: int| 0 <= i < sm.len() implies !(#[trigger] sm[i] is Some) by {
            assert(sm[i] == None::<int>);
        }
    }
    assert(seam_simplify(v, l) == (v, l, false, false, false));
    assert(d.drop_last().push(v) =~= d);
}

/// Appending layers that follow each other below an inert last layer adds
/// them all unchanged.
proof fn lemma_compose_inert<L: Label, B>(d: Seq<Seq<FrobeniusOperation<L, B>>>, os: Seq<Seq<FrobeniusOperation<L, B>>>)
    requires
        d.len() > 0,
        forall|k: int| 0 <= k < d.last().len() ==> inert_op(#[trigger] d.last()[k]),
        !all_identity(d.last()),
        forall|i: int, k: int| 0 <= i < os.len() && 0 <= k < os[i].len() ==> inert_op(#[trigger] os[i][k]),
        forall|i: int| 0 <= i < os.len() ==> !all_identity(#[trigger] os[i]),
        os.len() > 0 ==> ops_targets(d.last()) == ops_sources(os[0]),
        forall|i: int| 0 <= i < os.len() - 1 ==> ops_targets(#[trigger] os[i]) == ops_sources(os[i + 1]),
    ensures
        frob_compose_layers(d, os) == (d + os, true),
    decreases os.len(),
{
    if os.len() == 0 {
        assert(d + os =~= d);
    } else {
        lemma_append_inert(d, os[0]);
        let d2 = d.push(os[0]);
        assert(d2.last() == os[0]);
        assert forall|k: int| 0 <= k < d2.last().len() implies inert_op(#[trigger] d2.last()[k]) by {
            assert(inert_op(os[0][k]));
        }
        let rest = os.drop_first();
        assert forall|i: int, k: int| 0 <= i < rest.len() && 0 <= k < rest[i].len() implies inert_op(#[trigger] rest[i][k]) by {
            assert(rest[i] == os[i + 1]);
            assert(inert_op(os[i + 1][k]));
        }
        assert forall|i: int| 0 <= i < rest.len() implies !all_identity(#[trigger] rest[i]) by {
            assert(rest[i] == os[i + 1]);
        }
        assert forall|i: int| 0 <= i < rest.len() - 1 implies ops_targets(#[trigger] rest[i]) == ops_sources(rest[i + 1]) by {
            assert(rest[i] == os[i + 1]);
            assert(rest[i + 1] == os[i + 2]);
        }
        if rest.len() > 0 {
            assert(rest[0] == os[1]);
        }
        lemma_compose_inert(d2, rest);
        assert(d2 + rest =~= d + os);
    }
}

/// Each layer ends where the next begins.
pub open spec fn chained<L: Label, B>(d: Seq<Seq<FrobeniusOperation<L, B>>>) -> bool {
    forall|i: int| 0 <= i < d.len() - 1 ==> ops_targets(#[trigger] d[i]) == ops_sources(d[i + 1])
}

/// A generator that no simplification pairs with the layer above it.
pub open spec fn quiet_below<L: Label, B>(op: FrobeniusOperation<L, B>) -> bool {
    !(op is SymmetricBraiding) && !(op is Counit) && !(op is Spider)
}

/// Every generator of the diagram is quiet below its layer's predecessor.
pub open spec fn all_quiet<L: Label, B>(d: Seq<Seq<FrobeniusOperation<L, B>>>) -> bool {
    forall|i: int, j: int| 0 <= i < d.len() && 0 <= j < d[i].len() ==> quiet_below(#[trigger] d[i][j])
}

/// A layer of identities has the same inputs and outputs.
pub proof fn lemma_identity_layer_words<L: Label, B>(ops: Seq<FrobeniusOperation<L, B>>)
    requires
        all_identity(ops),
    ensures
        ops_sources(ops) == ops_targets(ops),
    decreases ops.len(),
{
    if ops.len() > 0 {
        assert(all_identity(ops.drop_last())) by {
            assert forall|i: int| 0 <= i < ops.drop_last().len() implies is_identity_op(#[trigger] ops.drop_last()[i]) by {
                assert(ops.drop_last()[i] == ops[i]);
            }
        }
        lemma_identity_layer_words(ops.drop_last());
        let op = ops.last();
        assert(is_identity_op(ops[ops.len() - 1]));
        match op {
            FrobeniusOperation::Spider(z, a, b) => {
                assert(op_sources(op) =~= op_targets(op));
            },
            _ => {},
        }
    }
}

/// No generator pairs across a seam whose second layer is quiet.
proof fn lemma_pairing_none_below<L: Label, B>(s: Seq<FrobeniusOperation<L, B>>, n: Seq<FrobeniusOperation<L, B>>, j: int)
    requires
        0 <= j <= n.len(),
        forall|k: int| 0 <= k < n.len() ==> quiet_below(#[trigger] n[k]),
    ensures
        seam_pairing(s, n, j).0 == Seq::new(s.len(), |i: int| None::<int>),
    decreases j,
{
    if j > 0 {
        lemma_pairing_none_below(s, n, j - 1);
        assert(quiet_below(n[j - 1]));
        lemma_last_target_bound(s, ops_sources(n.subrange(0, j - 1)).len() as int, s.len() as int);
        match last_target_at(s, ops_sources(n.subrange(0, j - 1)).len() as int, s.len() as int) {
            Some(i) => {
                assert(seam_rule(s[i], n[j - 1]) is None);
            },
            None => {},
        }
    }
}

/// Appending a quiet layer whose inputs are the outputs of the last layer
/// goes through and keeps the layers following each other, ending with the
/// outputs of the new layer.
pub proof fn lemma_append_quiet<L: Label, B>(d: Seq<Seq<FrobeniusOperation<L, B>>>, l: Seq<FrobeniusOperation<L, B>>)
    requires
        chained(d),
        d.len() > 0 ==> ops_targets(d.last()) == ops_sources(l),
        forall|k: int| 0 <= k < l.len() ==> quiet_below(#[trigger] l[k]),
    ensures
        frob_append(d, l).1,
        chained(frob_append(d, l).0),
        frob_append(d, l).0.len() > 0,
        ops_targets(frob_append(d, l).0.last()) == ops_targets(l),
        d.len() > 0 ==> diagram_dom(frob_append(d, l).0) == diagram_dom(d),
        d.len() == 0 ==> frob_append(d, l).0 == seq![l],
        forall|i: int|
            0 <= i < frob_append(d, l).0.len() ==> #[trigger] frob_append(d, l).0[i] == l || d.contains(
                frob_append(d, l).0[i],
            ),
{
    if d.len() == 0 {
        assert(chained(seq![l]));
    } else {
        let v = d.last();
        let rest = d.drop_last();
        lemma_pairing_none_below(v, l, l.len() as int);
        let sm = seam_pairing(v, l, l.len() as int).0;
        assert(!any_paired(sm)) by {
            assert forall|i: int| 0 <= i < sm.len() implies !(#[trigger] sm[i] is Some) by {
                assert(sm[i] == None::<int>);
            }
        }
        let r1 = seam_simplify(v, l);
        if all_identity(v) || all_identity(l) {
            assert(r1 == (v, l, all_identity(v), all_identity(l), false));
        } else {
            assert(r1 == (v, l, false, false, false));
        }
        if all_identity(v) {
            lemma_identity_layer_words(v);
        }
        if all_identity(l) {
            lemma_identity_layer_words(l);
        }
        if rest.len() > 0 {
            assert(rest.last() == d[d.len() - 2]);
            assert(ops_targets(d[d.len() - 2]) == ops_sources(d[d.len() - 2 + 1]));
        }
        assert(chained(rest)) by {
            assert forall|i: int| 0 <= i < rest.len() - 1 implies ops_targets(#[trigger] rest[i]) == ops_sources(rest[i + 1]) by {
                assert(rest[i] == d[i] && rest[i + 1] == d[i + 1]);
            }
        }
        let e = frob_append(d, l).0;
        assert forall|i: int| 0 <= i < e.len() - 1 implies ops_targets(#[trigger] e[i]) == ops_sources(e[i + 1]) by {
            if i < rest.len() - 1 {
                assert(e[i] == rest[i] && e[i + 1] == rest[i + 1]);
            }
        }
        assert forall|i: int| 0 <= i < e.len() implies #[trigger] e[i] == l || d.contains(e[i]) by {
            if i < rest.len() {
                assert(e[i] == rest[i]);
                assert(d[i] == rest[i]);
            } else if e[i] != l {
                assert(e[i] == v);
                assert(d[d.len() - 1] == v);
            }
        }
        if rest.len() > 0 {
            assert(e[0] == rest[0]);
            assert(d[0] == rest[0]);
        } else {
            assert(d[0] == v);
        }
    }
}

/// Appending quiet layers that follow each other goes through and keeps
/// the layers following each other.
pub proof fn lemma_compose_quiet<L: Label, B>(d: Seq<Seq<FrobeniusOperation<L, B>>>, os: Seq<Seq<FrobeniusOperation<L, B>>>)
    requires
        chained(d),
        chained(os),
        all_quiet(os),
        d.len() > 0 && os.len() > 0 ==> ops_targets(d.last()) == ops_sources(os[0]),
    ensures
        frob_compose_layers(d, os).1,
        chained(frob_compose_layers(d, os).0),
        os.len() > 0 ==> frob_compose_layers(d, os).0.len() > 0 && ops_targets(frob_compose_layers(d, os).0.last())
            == ops_targets(os.last()),
        os.len() == 0 ==> frob_compose_layers(d, os).0 == d,
        frob_append_all(d, os) == frob_compose_layers(d, os).0,
        d.len() > 0 ==> diagram_dom(frob_compose_layers(d, os).0) == diagram_dom(d),
        d.len() == 0 && os.len() > 0 ==> diagram_dom(frob_compose_layers(d, os).0) == ops_sources(os[0]),
        forall|i: int|
            0 <= i < frob_compose_layers(d, os).0.len() ==> d.contains(#[trigger] frob_compose_layers(d, os).0[i])
                || os.contains(frob_compose_layers(d, os).0[i]),
    decreases os.len(),
{
    if os.len() > 0 {
        assert forall|k: int| 0 <= k < os[0].len() implies quiet_below(#[trigger] os[0][k]) by {
            assert(quiet_below(os[0][k]));
        }
        lemma_append_quiet(d, os[0]);
        let d2 = frob_append(d, os[0]).0;
        let rest = os.drop_first();
        assert(chained(rest)) by {
            assert forall|i: int| 0 <= i < rest.len() - 1 implies ops_targets(#[trigger] rest[i]) == ops_sources(rest[i + 1]) by {
                assert(rest[i] == os[i + 1] && rest[i + 1] == os[i + 2]);
            }
        }
        assert(all_quiet(rest)) by {
            assert forall|i: int, j: int| 0 <= i < rest.len() && 0 <= j < rest[i].len() implies quiet_below(#[trigger] rest[i][j]) by {
                assert(rest[i] == os[i + 1]);
                assert(quiet_below(os[i + 1][j]));
            }
        }
        if rest.len() > 0 {
            assert(rest[0] == os[1]);
            assert(ops_targets(os[0]) == ops_sources(os[1]));
            assert(rest.last() == os.last());
        }
        lemma_compose_quiet(d2, rest);
        let e = frob_compose_layers(d, os).0;
        assert(e == frob_compose_layers(d2, rest).0);
        assert forall|i: int| 0 <= i < e.len() implies d.contains(#[trigger] e[i]) || os.contains(e[i]) by {
            if d2.contains(e[i]) {
                let j = choose|j: int| 0 <= j < d2.len() && d2[j] == e[i];
                assert(d2[j] == os[0] || d.contains(d2[j]));
                if d2[j] == os[0] {
                    assert(os[0] == e[i]);
                }
            } else {
                let j = choose|j: int| 0 <= j < rest.len() && rest[j] == e[i];
                assert(os[j + 1] == e[i]);
            }
        }
        if d.len() == 0 {
            assert(d2 == seq![os[0]]);
            assert(diagram_dom(d2) == ops_sources(os[0]));
        }
    }
}

/// Every layer of the diagram has at most `w` inputs and at most `w` outputs.
pub open spec fn layers_within<L: Label, B>(d: Seq<Seq<FrobeniusOperation<L, B>>>, w: nat) -> bool {
    forall|i: int| 0 <= i < d.len() ==> ops_sources(#[trigger] d[i]).len() <= w && ops_targets(d[i]).len() <= w
}

/// Two diagrams whose layers follow each other, the second quiet, whose
/// widths together fit in memory, tensor into a diagram whose layers follow
/// each other, from the two domains side by side to the two codomains.
pub proof fn lemma_tensor_chained<L: Label, B>(
    s: Seq<Seq<FrobeniusOperation<L, B>>>,
    o: Seq<Seq<FrobeniusOperation<L, B>>>,
    ws: nat,
    wo: nat,
)
    requires
        chained(s),
        chained(o),
        all_quiet(o),
        layers_within(s, ws),
        layers_within(o, wo),
        ws + wo <= usize::MAX,
    ensures
        chained(frob_monoidal(s, o)),
        layers_within(frob_monoidal(s, o), ws + wo),
        diagram_dom(frob_monoidal(s, o)) == diagram_dom(s) + diagram_dom(o),
        diagram_cod(frob_monoidal(s, o)) == diagram_cod(s) + diagram_cod(o),
        all_quiet(s) ==> all_quiet(frob_monoidal(s, o)),
{
    let sl = s.len() as int;
    let ol = o.len() as int;
    let lot = frob_pad(o, sl);
    let lst = diagram_cod(s);
    let zipped = Seq::new(
        s.len(),
        |n: int|
            if n < ol {
                layer_tensor(s[n], o[n])
            } else {
                layer_tensor(s[n], identity_ops::<L, B>(lot))
            },
    );
    let extra = Seq::new(
        (if ol > sl {
            ol - sl
        } else {
            0
        }) as nat,
        |k: int| layer_tensor(identity_ops::<L, B>(lst), o[sl + k]),
    );
    lemma_identity_ops::<L, B>(lot);
    lemma_identity_ops::<L, B>(lst);
    assert(identity_ops::<L, B>(lot) == Seq::new(lot.len(), |i: int| FrobeniusOperation::<L, B>::Identity(lot[i])));
    assert(identity_ops::<L, B>(lst) == Seq::new(lst.len(), |i: int| FrobeniusOperation::<L, B>::Identity(lst[i])));
    assert(lot.len() <= wo) by {
        if sl > 0 && ol > 0 {
            let idx = (if sl < ol { sl } else { ol }) - 1;
            assert(ops_targets(o[idx]).len() <= wo);
        }
    }
    assert(lst.len() <= ws) by {
        if sl > 0 {
            assert(ops_targets(s[sl - 1]).len() <= ws);
        }
    }
    // The layers of `zipped` and `extra` are plain concatenations.
    assert forall|n: int| 0 <= n < sl implies #[trigger] zipped[n] == s[n] + (if n < ol { o[n] } else { identity_ops::<L, B>(lot) })
        && ops_sources(zipped[n]) == ops_sources(s[n]) + ops_sources(if n < ol { o[n] } else { identity_ops::<L, B>(lot) })
        && ops_targets(zipped[n]) == ops_targets(s[n]) + ops_targets(if n < ol { o[n] } else { identity_ops::<L, B>(lot) }) by {
        let other = if n < ol { o[n] } else { identity_ops::<L, B>(lot) };
        assert(ops_sources(s[n]).len() <= ws && ops_targets(s[n]).len() <= ws);
        if n < ol {
            assert(ops_sources(o[n]).len() <= wo && ops_targets(o[n]).len() <= wo);
        }
        lemma_ops_concat(s[n], other);
    }
    assert forall|k: int| 0 <= k < extra.len() implies #[trigger] extra[k] == identity_ops::<L, B>(lst) + o[sl + k]
        && ops_sources(extra[k]) == lst + ops_sources(o[sl + k]) && ops_targets(extra[k]) == lst + ops_targets(o[sl + k]) by {
        assert(ops_sources(o[sl + k]).len() <= wo && ops_targets(o[sl + k]).len() <= wo);
        lemma_ops_concat(identity_ops::<L, B>(lst), o[sl + k]);
    }
    assert(chained(zipped)) by {
        assert forall|n: int| 0 <= n < zipped.len() - 1 implies ops_targets(#[trigger] zipped[n]) == ops_sources(zipped[n + 1]) by {
            assert(ops_targets(s[n]) == ops_sources(s[n + 1]));
            assert(zipped[n + 1] == s[n + 1] + (if n + 1 < ol { o[n + 1] } else { identity_ops::<L, B>(lot) }));
            if n + 1 < ol {
                assert(ops_targets(o[n]) == ops_sources(o[n + 1]));
            } else if n < ol {
                assert(n == ol - 1);
                assert(lot == ops_targets(o[ol - 1]));
            }
        }
    }
    assert(chained(extra)) by {
        assert forall|k: int| 0 <= k < extra.len() - 1 implies ops_targets(#[trigger] extra[k]) == ops_sources(extra[k + 1]) by {
            assert(extra[k + 1] == identity_ops::<L, B>(lst) + o[sl + k + 1]);
            assert(ops_targets(o[sl + k]) == ops_sources(o[sl + k + 1]));
        }
    }
    assert(all_quiet(extra)) by {
        assert forall|k: int, j: int| 0 <= k < extra.len() && 0 <= j < extra[k].len() implies quiet_below(#[trigger] extra[k][j]) by {
            assert(extra[k] == identity_ops::<L, B>(lst) + o[sl + k]);
            if j >= lst.len() {
                assert(extra[k][j] == o[sl + k][j - lst.len()]);
            }
        }
    }
    if zipped.len() > 0 && extra.len() > 0 {
        assert(zipped.last() == zipped[sl - 1]);
        assert(extra[0] == identity_ops::<L, B>(lst) + o[sl]);
        assert(ops_targets(o[sl - 1]) == ops_sources(o[sl]));
    }
    lemma_compose_quiet(zipped, extra);
    let r = frob_monoidal(s, o);
    assert(r == frob_append_all(zipped, extra));
    assert(r == frob_compose_layers(zipped, extra).0);
    assert(layers_within(r, ws + wo)) by {
        assert forall|i: int| 0 <= i < r.len() implies ops_sources(#[trigger] r[i]).len() <= ws + wo && ops_targets(r[i]).len()
            <= ws + wo by {
            if zipped.contains(r[i]) {
                let n = choose|n: int| 0 <= n < zipped.len() && zipped[n] == r[i];
                assert(ops_sources(s[n]).len() <= ws && ops_targets(s[n]).len() <= ws);
                if n < ol {
                    assert(ops_sources(o[n]).len() <= wo && ops_targets(o[n]).len() <= wo);
                }
            } else {
                let k = choose|k: int| 0 <= k < extra.len() && extra[k] == r[i];
                assert(ops_sources(o[sl + k]).len() <= wo && ops_targets(o[sl + k]).len() <= wo);
            }
        }
    }
    if all_quiet(s) {
        assert forall|i: int, j: int| 0 <= i < r.len() && 0 <= j < r[i].len() implies quiet_below(#[trigger] r[i][j]) by {
            if zipped.contains(r[i]) {
                let n = choose|n: int| 0 <= n < zipped.len() && zipped[n] == r[i];
                if j < s[n].len() {
                    assert(r[i][j] == s[n][j]);
                } else {
                    let other = if n < ol { o[n] } else { identity_ops::<L, B>(lot) };
                    assert(r[i][j] == other[j - s[n].len()]);
                }
            } else {
                let k = choose|k: int| 0 <= k < extra.len() && extra[k] == r[i];
                assert(extra[k][j] == r[i][j]);
            }
        }
    }
    // Domain and codomain.
    if sl > 0 {
        assert(diagram_dom(r) == ops_sources(zipped[0]));
        if ol == 0 {
            assert(lot =~= Seq::<L>::empty());
            assert(diagram_dom(s) + diagram_dom(o) =~= diagram_dom(s));
        }
    } else {
        assert(lst =~= Seq::<L>::empty());
        if ol > 0 {
            assert(extra[0] == identity_ops::<L, B>(lst) + o[0]);
            assert(diagram_dom(s) + diagram_dom(o) =~= diagram_dom(o));
        } else {
            assert(r =~= Seq::<Seq<FrobeniusOperation<L, B>>>::empty());
            assert(diagram_dom(s) + diagram_dom(o) =~= Seq::<L>::empty());
            assert(diagram_cod(s) + diagram_cod(o) =~= Seq::<L>::empty());
        }
    }
    if ol > sl {
        assert(extra.last() == extra[ol - sl - 1]);
        assert(o.last() == o[ol - 1]);
    } else if sl > 0 {
        assert(r == zipped);
        assert(r.last() == zipped[sl - 1]);
        if ol == 0 {
            assert(lot =~= Seq::<L>::empty());
            assert(diagram_cod(s) + diagram_cod(o) =~= diagram_cod(s));
        } else if ol < sl {
            assert(lot == ops_targets(o[ol - 1]));
        }
    }
}

/// The words of `k` copies of `z`.
pub open spec fn copies<L>(k: nat, z: L) -> Seq<L> {
    Seq::new(k, |i: int| z)
}

/// The recursion measure of `special_frobenius_morphism`: the larger arity.
pub open spec fn spider_size(m: nat, n: nat) -> nat {
    if m >= n && m >= 1 {
        m
    } else if n >= 1 {
        n
    } else {
        1
    }
}

/// The tie-break of the recursion measure among equal sizes.
pub open spec fn spider_rank(m: nat, n: nat) -> nat {
    if n == 1 {
        0
    } else if m > n {
        1
    } else if m < n {
        2
    } else {
        3
    }
}

/// Layers cloned from layers without black boxes are equal to them.
proof fn lemma_clone_equal<L: Label, B>(d: Seq<Seq<FrobeniusOperation<L, B>>>, c: Seq<Seq<FrobeniusOperation<L, B>>>, z: L, bound: nat)
    requires
        spider_tree(d, z, bound),
        c.len() == d.len(),
        forall|i: int| 0 <= i < d.len() ==> ops_cloned(d[i], #[trigger] c[i]),
    ensures
        c == d,
{
    assert forall|i: int| 0 <= i < d.len() implies #[trigger] c[i] == d[i] by {
        assert forall|j: int| 0 <= j < d[i].len() implies #[trigger] c[i][j] == d[i][j] by {
            assert(spider_part(d[i][j], z));
        }
        assert(c[i] =~= d[i]);
    }
    assert(c =~= d);
}

/// Flipping a spider tree gives a spider tree.
proof fn lemma_flip_tree<L: Label, B, F: Fn(B) -> B>(
    d: Seq<Seq<FrobeniusOperation<L, B>>>,
    e: Seq<Seq<FrobeniusOperation<L, B>>>,
    z: L,
    bound: nat,
    f: F,
)
    requires
        spider_tree(d, z, bound),
        e.len() == d.len(),
        forall|i: int| 0 <= i < d.len() ==> all_flipped(d[d.len() - 1 - i], #[trigger] e[i], f),
    ensures
        spider_tree(e, z, bound),
        forall|i: int| 0 <= i < d.len() ==> ops_sources(#[trigger] e[i]) == ops_targets(d[d.len() - 1 - i]) && ops_targets(e[i])
            == ops_sources(d[d.len() - 1 - i]),
{
    let n = d.len();
    assert forall|i: int| 0 <= i < n implies ops_sources(#[trigger] e[i]) == ops_targets(d[n - 1 - i]) && ops_targets(e[i])
        == ops_sources(d[n - 1 - i]) by {
        lemma_flipped_ops(d[n - 1 - i], e[i], f);
    }
    assert forall|i: int, j: int| 0 <= i < n && 0 <= j < e[i].len() implies spider_part(#[trigger] e[i][j], z) by {
        assert(all_flipped(d[n - 1 - i], e[i], f));
        assert(is_flipped_op(d[n - 1 - i][j], e[i][j], f));
        assert(spider_part(d[n - 1 - i][j], z));
    }
    assert forall|i: int| 0 <= i < n implies !all_identity(#[trigger] e[i]) by {
        assert(!all_identity(d[n - 1 - i]));
        let j = choose|j: int| 0 <= j < d[n - 1 - i].len() && !is_identity_op(#[trigger] d[n - 1 - i][j]);
        assert(all_flipped(d[n - 1 - i], e[i], f));
        assert(is_flipped_op(d[n - 1 - i][j], e[i][j], f));
        assert(spider_part(d[n - 1 - i][j], z));
        assert(!is_identity_op(e[i][j]));
    }
    assert forall|i: int| 0 <= i < n - 1 implies ops_targets(#[trigger] e[i]) == ops_sources(e[i + 1]) by {
        assert(ops_targets(d[n - 2 - i]) == ops_sources(d[n - 1 - i]));
    }
    assert forall|i: int| 0 <= i < n implies ops_sources(#[trigger] e[i]).len() <= bound && ops_targets(e[i]).len() <= bound by {
        assert(ops_sources(d[n - 1 - i]).len() <= bound);
    }
}

/// A spider tree side by side with itself, layer by layer.
proof fn lemma_tensor_self<L: Label, B>(d: Seq<Seq<FrobeniusOperation<L, B>>>, z: L, bound: nat)
    requires
        spider_tree(d, z, bound),
        2 * bound <= usize::MAX,
    ensures
        frob_monoidal(d, d) == Seq::new(d.len(), |i: int| d[i] + d[i]),
        spider_tree(frob_monoidal(d, d), z, 2 * bound),
        diagram_dom(frob_monoidal(d, d)) == diagram_dom(d) + diagram_dom(d),
        diagram_cod(frob_monoidal(d, d)) == diagram_cod(d) + diagram_cod(d),
{
    let t = Seq::new(d.len(), |i: int| d[i] + d[i]);
    let lot = frob_pad(d, d.len() as int);
    let zipped = Seq::new(
        d.len(),
        |n: int|
            if n < d.len() {
                layer_tensor(d[n], d[n])
            } else {
                layer_tensor(d[n], identity_ops::<L, B>(lot))
            },
    );
    assert forall|i: int| 0 <= i < d.len() implies #[trigger] zipped[i] == t[i] by {
        assert(ops_sources(d[i]).len() <= bound);
    }
    assert(zipped =~= t);
    assert(frob_append_all(zipped, Seq::<Seq<FrobeniusOperation<L, B>>>::empty()) == zipped);
    assert forall|i: int| 0 <= i < t.len() implies ops_sources(#[trigger] t[i]) == ops_sources(d[i]) + ops_sources(d[i])
        && ops_targets(t[i]) == ops_targets(d[i]) + ops_targets(d[i]) by {
        lemma_ops_concat(d[i], d[i]);
    }
    assert forall|i: int, j: int| 0 <= i < t.len() && 0 <= j < t[i].len() implies spider_part(#[trigger] t[i][j], z) by {
        if j < d[i].len() {
            assert(t[i][j] == d[i][j]);
        } else {
            assert(t[i][j] == d[i][j - d[i].len()]);
        }
    }
    assert forall|i: int| 0 <= i < t.len() implies !all_identity(#[trigger] t[i]) by {
        let j = choose|j: int| 0 <= j < d[i].len() && !is_identity_op(#[trigger] d[i][j]);
        assert(t[i][j] == d[i][j]);
    }
    assert forall|i: int| 0 <= i < t.len() - 1 implies ops_targets(#[trigger] t[i]) == ops_sources(t[i + 1]) by {
        assert(ops_targets(d[i]) == ops_sources(d[i + 1]));
    }
}

/// A spider tree with an identity wire on `z` below every layer.
proof fn lemma_tensor_wire<L: Label, B>(d: Seq<Seq<FrobeniusOperation<L, B>>>, z: L, bound: nat)
    requires
        spider_tree(d, z, bound),
        bound + 1 <= usize::MAX,
    ensures
        frob_monoidal(d, seq![seq![FrobeniusOperation::<L, B>::Identity(z)]]) == Seq::new(
            d.len(),
            |i: int| d[i] + seq![FrobeniusOperation::<L, B>::Identity(z)],
        ),
        spider_tree(frob_monoidal(d, seq![seq![FrobeniusOperation::<L, B>::Identity(z)]]), z, bound + 1),
        diagram_dom(frob_monoidal(d, seq![seq![FrobeniusOperation::<L, B>::Identity(z)]])) == diagram_dom(d) + seq![z],
        diagram_cod(frob_monoidal(d, seq![seq![FrobeniusOperation::<L, B>::Identity(z)]])) == diagram_cod(d) + seq![z],
{
    let w = seq![FrobeniusOperation::<L, B>::Identity(z)];
    let o = seq![w];
    let t = Seq::new(d.len(), |i: int| d[i] + w);
    lemma_ops_single(FrobeniusOperation::<L, B>::Identity(z));
    let lot = frob_pad(o, d.len() as int);
    assert(lot == seq![z]);
    assert(identity_ops::<L, B>(lot) =~= w);
    let zipped = Seq::new(
        d.len(),
        |n: int|
            if n < o.len() {
                layer_tensor(d[n], o[n])
            } else {
                layer_tensor(d[n], identity_ops::<L, B>(lot))
            },
    );
    assert forall|i: int| 0 <= i < d.len() implies #[trigger] zipped[i] == t[i] by {
        assert(ops_sources(d[i]).len() <= bound);
        assert(ops_targets(d[i]).len() <= bound);
    }
    assert(zipped =~= t);
    assert(frob_append_all(zipped, Seq::<Seq<FrobeniusOperation<L, B>>>::empty()) == zipped);
    assert forall|i: int| 0 <= i < t.len() implies ops_sources(#[trigger] t[i]) == ops_sources(d[i]) + seq![z]
        && ops_targets(t[i]) == ops_targets(d[i]) + seq![z] by {
        lemma_ops_concat(d[i], w);
    }
    assert forall|i: int, j: int| 0 <= i < t.len() && 0 <= j < t[i].len() implies spider_part(#[trigger] t[i][j], z) by {
        if j < d[i].len() {
            assert(t[i][j] == d[i][j]);
        } else {
            assert(t[i][j] == FrobeniusOperation::<L, B>::Identity(z));
        }
    }
    assert forall|i: int| 0 <= i < t.len() implies !all_identity(#[trigger] t[i]) by {
        let j = choose|j: int| 0 <= j < d[i].len() && !is_identity_op(#[trigger] d[i][j]);
        assert(t[i][j] == d[i][j]);
    }
    assert forall|i: int| 0 <= i < t.len() - 1 implies ops_targets(#[trigger] t[i]) == ops_sources(t[i + 1]) by {
        assert(ops_targets(d[i]) == ops_sources(d[i + 1]));
    }
}

/// Appending a multiplication on `z` below a spider tree ending in two wires.
proof fn lemma_append_mult<L: Label, B>(d: Seq<Seq<FrobeniusOperation<L, B>>>, z: L, bound: nat)
    requires
        spider_tree(d, z, bound),
        diagram_cod(d) == seq![z, z],
        bound >= 2,
    ensures
        frob_compose_layers(d, seq![seq![FrobeniusOperation::<L, B>::Multiplication(z)]]) == (
            d.push(seq![FrobeniusOperation::<L, B>::Multiplication(z)]),
            true,
        ),
        spider_tree(d.push(seq![FrobeniusOperation::<L, B>::Multiplication(z)]), z, bound),
{
    let mu = seq![FrobeniusOperation::<L, B>::Multiplication(z)];
    lemma_ops_single(FrobeniusOperation::<L, B>::Multiplication(z));
    assert(!all_identity(mu)) by {
        assert(!is_identity_op(mu[0]));
    }
    assert forall|k: int| 0 <= k < d.last().len() implies inert_op(#[trigger] d.last()[k]) by {
        assert(spider_part(d[d.len() - 1][k], z));
    }
    assert(!all_identity(d[d.len() - 1]));
    lemma_compose_inert(d, seq![mu]);
    assert(d + seq![mu] =~= d.push(mu));
    let e = d.push(mu);
    assert forall|i: int, j: int| 0 <= i < e.len() && 0 <= j < e[i].len() implies spider_part(#[trigger] e[i][j], z) by {
        if i < d.len() {
            assert(e[i] == d[i]);
        }
    }
    assert forall|i: int| 0 <= i < e.len() implies !all_identity(#[trigger] e[i]) by {
        if i < d.len() {
            assert(e[i] == d[i]);
        }
    }
    assert forall|i: int| 0 <= i < e.len() - 1 implies ops_targets(#[trigger] e[i]) == ops_sources(e[i + 1]) by {
        if i < d.len() - 1 {
            assert(e[i] == d[i]);
            assert(e[i + 1] == d[i + 1]);
        }
    }
    assert forall|i: int| 0 <= i < e.len() implies ops_sources(#[trigger] e[i]).len() <= bound && ops_targets(e[i]).len() <= bound by {
        if i < d.len() {
            assert(e[i] == d[i]);
        }
    }
}

/// Two spider trees that meet at their seam form one.
proof fn lemma_tree_concat<L: Label, B>(
    x: Seq<Seq<FrobeniusOperation<L, B>>>,
    y: Seq<Seq<FrobeniusOperation<L, B>>>,
    z: L,
    b1: nat,
    b2: nat,
    b: nat,
)
    requires
        spider_tree(x, z, b1),
        spider_tree(y, z, b2),
        b1 <= b,
        b2 <= b,
        ops_targets(x.last()) == ops_sources(y[0]),
    ensures
        spider_tree(x + y, z, b),
{
    let e = x + y;
    assert forall|i: int, j: int| 0 <= i < e.len() && 0 <= j < e[i].len() implies spider_part(#[trigger] e[i][j], z) by {
        if i < x.len() {
            assert(e[i] == x[i]);
        } else {
            assert(e[i] == y[i - x.len()]);
        }
    }
    assert forall|i: int| 0 <= i < e.len() implies !all_identity(#[trigger] e[i]) by {
        if i < x.len() {
            assert(e[i] == x[i]);
        } else {
            assert(e[i] == y[i - x.len()]);
        }
    }
    assert forall|i: int| 0 <= i < e.len() - 1 implies ops_targets(#[trigger] e[i]) == ops_sources(e[i + 1]) by {
        if i < x.len() - 1 {
            assert(e[i] == x[i]);
            assert(e[i + 1] == x[i + 1]);
        } else if i == x.len() - 1 {
            assert(e[i] == x.last());
            assert(e[i + 1] == y[0]);
        } else {
            assert(e[i] == y[i - x.len()]);
            assert(e[i + 1] == y[i + 1 - x.len()]);
        }
    }
    assert forall|i: int| 0 <= i < e.len() implies ops_sources(#[trigger] e[i]).len() <= b && ops_targets(e[i]).len() <= b by {
        if i < x.len() {
            assert(e[i] == x[i]);
        } else {
            assert(e[i] == y[i - x.len()]);
        }
    }
}

/// A unit followed by a counit on the same label cancels to one empty layer.
proof fn lemma_unit_counit<L: Label, B>(z: L)
    ensures
        frob_compose_layers(
            seq![seq![FrobeniusOperation::<L, B>::Unit(z)]],
            seq![seq![FrobeniusOperation::<L, B>::Counit(z)]],
        ) == (seq![Seq::<FrobeniusOperation<L, B>>::empty()], true),
{
    let u = seq![FrobeniusOperation::<L, B>::Unit(z)];
    let c = seq![FrobeniusOperation::<L, B>::Counit(z)];
    let e = Seq::<FrobeniusOperation<L, B>>::empty();
    lemma_ops_single(FrobeniusOperation::<L, B>::Unit(z));
    lemma_ops_single(FrobeniusOperation::<L, B>::Counit(z));
    assert(!all_identity(u)) by {
        assert(!is_identity_op(u[0]));
    }
    assert(!all_identity(c)) by {
        assert(!is_identity_op(c[0]));
    }
    assert(c.subrange(0, 0) =~= e);
    assert(u.subrange(0, 0) =~= e);
    assert(ops_sources(e) =~= Seq::<L>::empty());
    assert(ops_targets(e) =~= Seq::<L>::empty());
    assert(last_target_at(u, 0, 1) == Some(0int));
    let p0 = seam_pairing(u, c, 0);
    assert(p0.0 =~= seq![None::<int>]);
    let p1 = seam_pairing(u, c, 1);
    assert(seam_rule(u[0], c[0]) == Some((e, e)));
    assert(p1.0 =~= seq![Some(0int)]);
    assert(p1.1 =~= seq![Some(0int)]);
    assert(expand_first(u, c, p1.0, 0) == e);
    assert(expand_first(u, c, p1.0, 1) =~= e);
    assert(expand_second(u, c, p1.1, 0) == e);
    assert(expand_second(u, c, p1.1, 1) =~= e);
    assert(any_paired(p1.0)) by {
        assert(p1.0[0] is Some);
    }
    assert(all_identity(e));
    assert(seam_simplify(u, c) == (e, e, true, true, true));
    let ls = seq![u];
    assert(ls.drop_last() =~= Seq::<Seq<FrobeniusOperation<L, B>>>::empty());
    assert(ls.drop_last().push(e) =~= seq![e]);
    assert(frob_append(ls, c) == (seq![e], true));
    let os = seq![c];
    assert(os[0] == c);
    assert(os.drop_first() =~= Seq::<Seq<FrobeniusOperation<L, B>>>::empty());
    assert(frob_compose_layers(seq![e], os.drop_first()) == (seq![e], true));
    assert(frob_compose_layers(ls, os) == frob_compose_layers(frob_append(ls, os[0]).0, os.drop_first()));
}

/// A unit, counit, multiplication, comultiplication or identity.
pub open spec fn generator_op<L: Label, B>(op: FrobeniusOperation<L, B>) -> bool {
    op is Unit || op is Counit || op is Multiplication || op is Comultiplication || op is Identity
}

/// Every generator of the diagram is a unit, counit, multiplication,
/// comultiplication or identity.
pub open spec fn generators_only<L: Label, B>(d: Seq<Seq<FrobeniusOperation<L, B>>>) -> bool {
    forall|i: int, j: int| 0 <= i < d.len() && 0 <= j < d[i].len() ==> generator_op(#[trigger] d[i][j])
}

/// A spider tree holds generators only.
proof fn lemma_tree_generators<L: Label, B>(d: Seq<Seq<FrobeniusOperation<L, B>>>, z: L, bound: nat)
    requires
        spider_tree(d, z, bound),
    ensures
        generators_only(d),
{
    assert forall|i: int, j: int| 0 <= i < d.len() && 0 <= j < d[i].len() implies generator_op(#[trigger] d[i][j]) by {
        assert(spider_part(d[i][j], z));
    }
}

/// The special Frobenius morphism (spider) with `m` inputs and `n` outputs,
/// all labelled `wire_type`: a generator for the small arities, else built
/// from trees of multiplications and comultiplications.
pub fn special_frobenius_morphism<Lambda: Label, BlackBoxLabel: Clone>(m: usize, n: usize, wire_type: Lambda) -> (r:
    FrobeniusMorphism<Lambda, BlackBoxLabel>)
    ensures
        r.dom() == copies(m as nat, wire_type),
        r.cod() == copies(n as nat, wire_type),
        m >= 2 && n == 1 ==> spider_tree(r.diagram(), wire_type, m as nat) && r.diagram().last() == seq![
            FrobeniusOperation::<Lambda, BlackBoxLabel>::Multiplication(wire_type),
        ],
        m == 1 && n >= 2 ==> spider_tree(r.diagram(), wire_type, n as nat) && r.diagram()[0] == seq![
            FrobeniusOperation::<Lambda, BlackBoxLabel>::Comultiplication(wire_type),
        ],
        m >= 2 && n >= 2 ==> spider_tree(r.diagram(), wire_type, spider_size(m as nat, n as nat)),
        m == 1 && n == 0 ==> r.diagram() == seq![seq![FrobeniusOperation::<Lambda, BlackBoxLabel>::Counit(wire_type)]],
        m == 0 && n == 1 ==> r.diagram() == seq![seq![FrobeniusOperation::<Lambda, BlackBoxLabel>::Unit(wire_type)]],
        m == 2 && n == 1 ==> r.diagram() == seq![
            seq![FrobeniusOperation::<Lambda, BlackBoxLabel>::Multiplication(wire_type)],
        ],
        m == 1 && n == 2 ==> r.diagram() == seq![
            seq![FrobeniusOperation::<Lambda, BlackBoxLabel>::Comultiplication(wire_type)],
        ],
        m == 1 && n == 1 ==> r.diagram() == seq![seq![FrobeniusOperation::<Lambda, BlackBoxLabel>::Identity(wire_type)]],
        generators_only(r.diagram()),
    decreases spider_size(m as nat, n as nat), spider_rank(m as nat, n as nat),
{
    let z = wire_type;
    if m == 2 && n == 1 {
        let r = FrobeniusMorphism::from_op(FrobeniusOperation::Multiplication(z));
        proof {
            lemma_ops_single(FrobeniusOperation::<Lambda, BlackBoxLabel>::Multiplication(z));
            assert(r.dom() =~= copies(2, z));
            assert(r.cod() =~= copies(1, z));
            assert(!is_identity_op(r.diagram()[0][0]));
        }
        return r;
    }
    if m == 1 && n == 2 {
        let r = FrobeniusMorphism::from_op(FrobeniusOperation::Comultiplication(z));
        proof {
            lemma_ops_single(FrobeniusOperation::<Lambda, BlackBoxLabel>::Comultiplication(z));
            assert(r.dom() =~= copies(1, z));
            assert(r.cod() =~= copies(2, z));
            assert(!is_identity_op(r.diagram()[0][0]));
        }
        return r;
    }
    if m == 1 && n == 0 {
        let r = FrobeniusMorphism::from_op(FrobeniusOperation::Counit(z));
        proof {
            lemma_ops_single(FrobeniusOperation::<Lambda, BlackBoxLabel>::Counit(z));
            assert(r.dom() =~= copies(1, z));
            assert(r.cod() =~= copies(0, z));
        }
        return r;
    }
    if m == 0 && n == 1 {
        let r = FrobeniusMorphism::from_op(FrobeniusOperation::Unit(z));
        proof {
            lemma_ops_single(FrobeniusOperation::<Lambda, BlackBoxLabel>::Unit(z));
            assert(r.dom() =~= copies(0, z));
            assert(r.cod() =~= copies(1, z));
        }
        return r;
    }
    if m == 1 && n == 1 {
        let r = FrobeniusMorphism::from_op(FrobeniusOperation::Identity(z));
        proof {
            lemma_ops_single(FrobeniusOperation::<Lambda, BlackBoxLabel>::Identity(z));
            assert(r.dom() =~= copies(1, z));
            assert(r.cod() =~= copies(1, z));
        }
        return r;
    }
    if m < n {
        let mut x = special_frobenius_morphism::<Lambda, BlackBoxLabel>(n, m, z);
        let ghost d = x.diagram();
        let keep = |l: BlackBoxLabel| l;
        x.hflip(&keep);
        proof {
            if m == 1 && n >= 2 {
                lemma_flip_tree(d, x.diagram(), z, n as nat, keep);
                assert(all_flipped(d[d.len() - 1], x.diagram()[0], keep));
                assert(x.diagram()[0] =~= seq![FrobeniusOperation::<Lambda, BlackBoxLabel>::Comultiplication(z)]);
            }
            if m >= 2 && n >= 2 {
                lemma_flip_tree(d, x.diagram(), z, spider_size(n as nat, m as nat), keep);
            }
        }
        x
    } else if n != 1 {
        let mut x = special_frobenius_morphism::<Lambda, BlackBoxLabel>(m, 1, z);
        let y = special_frobenius_morphism::<Lambda, BlackBoxLabel>(1, n, z);
        let ghost dx = x.diagram();
        let ghost dy = y.diagram();
        let _ = x.compose(y);
        proof {
            if m == 0 {
                lemma_unit_counit::<Lambda, BlackBoxLabel>(z);
                lemma_ops_single(FrobeniusOperation::<Lambda, BlackBoxLabel>::Unit(z));
                lemma_ops_single(FrobeniusOperation::<Lambda, BlackBoxLabel>::Counit(z));
                assert(ops_sources(Seq::<FrobeniusOperation<Lambda, BlackBoxLabel>>::empty()) =~= copies(0, z));
                assert(ops_targets(Seq::<FrobeniusOperation<Lambda, BlackBoxLabel>>::empty()) =~= copies(0, z));
            } else if n == 0 {
                lemma_ops_single(FrobeniusOperation::<Lambda, BlackBoxLabel>::Counit(z));
                let cu = seq![FrobeniusOperation::<Lambda, BlackBoxLabel>::Counit(z)];
                assert(!all_identity(cu)) by {
                    assert(!is_identity_op(cu[0]));
                }
                assert forall|k: int| 0 <= k < dx.last().len() implies inert_op(#[trigger] dx.last()[k]) by {
                    assert(spider_part(dx[dx.len() - 1][k], z));
                }
                assert(!all_identity(dx[dx.len() - 1]));
                lemma_compose_inert(dx, dy);
                assert(dx + dy =~= dx.push(cu));
                assert(copies(0, z) =~= Seq::<Lambda>::empty());
            } else {
                assert forall|k: int| 0 <= k < dx.last().len() implies inert_op(#[trigger] dx.last()[k]) by {
                    assert(spider_part(dx[dx.len() - 1][k], z));
                }
                assert(!all_identity(dx[dx.len() - 1]));
                assert forall|i: int, k: int| 0 <= i < dy.len() && 0 <= k < dy[i].len() implies inert_op(#[trigger] dy[i][k]) by {
                    assert(spider_part(dy[i][k], z));
                }
                lemma_ops_single(FrobeniusOperation::<Lambda, BlackBoxLabel>::Multiplication(z));
                lemma_ops_single(FrobeniusOperation::<Lambda, BlackBoxLabel>::Comultiplication(z));
                lemma_compose_inert(dx, dy);
                lemma_tree_concat(dx, dy, z, m as nat, n as nat, spider_size(m as nat, n as nat));
                assert((dx + dy)[0] == dx[0]);
                assert((dx + dy).last() == dy.last());
            }
        }
        x
    } else if m % 2 == 0 {
        let mut answer = special_frobenius_morphism::<Lambda, BlackBoxLabel>(m / 2, 1, z);
        let ghost d = answer.diagram();
        let c = answer.clone();
        proof {
            lemma_clone_equal(d, c.diagram(), z, (m / 2) as nat);
        }
        answer.monoidal(c);
        proof {
            lemma_tensor_self(d, z, (m / 2) as nat);
            assert(copies((m / 2) as nat, z) + copies((m / 2) as nat, z) =~= copies(m as nat, z));
            assert(copies(1, z) + copies(1, z) =~= seq![z, z]);
        }
        let ghost t = answer.diagram();
        let mu = FrobeniusMorphism::from_op(FrobeniusOperation::Multiplication(z));
        proof {
            lemma_ops_single(FrobeniusOperation::<Lambda, BlackBoxLabel>::Multiplication(z));
            lemma_append_mult(t, z, m as nat);
        }
        let _ = answer.compose(mu);
        proof {
            let e = t.push(seq![FrobeniusOperation::<Lambda, BlackBoxLabel>::Multiplication(z)]);
            assert(e[0] == t[0]);
            assert(ops_targets(e.last()) =~= copies(1, z));
        }
        answer
    } else {
        let mut answer = special_frobenius_morphism::<Lambda, BlackBoxLabel>(m - 1, 1, z);
        let ghost d = answer.diagram();
        let w = FrobeniusMorphism::from_op(FrobeniusOperation::Identity(z));
        answer.monoidal(w);
        proof {
            lemma_tensor_wire(d, z, (m - 1) as nat);
            assert(copies((m - 1) as nat, z) + seq![z] =~= copies(m as nat, z));
            assert(copies(1, z) + seq![z] =~= seq![z, z]);
        }
        let ghost t = answer.diagram();
        let mu = FrobeniusMorphism::from_op(FrobeniusOperation::Multiplication(z));
        proof {
            lemma_ops_single(FrobeniusOperation::<Lambda, BlackBoxLabel>::Multiplication(z));
            lemma_append_mult(t, z, m as nat);
        }
        let _ = answer.compose(mu);
        proof {
            let e = t.push(seq![FrobeniusOperation::<Lambda, BlackBoxLabel>::Multiplication(z)]);
            assert(e[0] == t[0]);
            assert(ops_targets(e.last()) =~= copies(1, z));
        }
        answer
    }
}

} // verus!
