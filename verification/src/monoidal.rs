//! Monoidal structure: tensor products of morphisms, and morphisms built from
//! layers of black boxes in a monoidal category whose objects are words of
//! labels.
use vstd::prelude::*;

use crate::category::{Composable, ComposableMutating, HasIdentity};
use crate::errors::CatgraphError;
use crate::label::{labels_equal, Label};
use crate::permutation::perm_values;
use crate::utils::copy_vec;

use permutations::Permutation;

verus! {

/// Morphisms with a tensor product: `monoidal` changes `self` into `self ⊗ other`.
pub trait Monoidal: Sized {
    fn monoidal(&mut self, other: Self);
}

/// Morphisms of a monoidal category that compose by value.
pub trait MonoidalMorphism<T: Eq>: Monoidal + Composable<T> {

}

/// Morphisms of a monoidal category that compose in place.
pub trait MonoidalMutatingMorphism<T: Eq>: Monoidal + ComposableMutating<T> {

}

/// Morphisms of a symmetric monoidal category whose objects are words of
/// labels: a side can be reordered by a permutation, and a permutation of a
/// word gives a morphism.
pub trait SymmetricMonoidalMorphism<T: Label>: Sized {
    /// Whether `permute_side` can reorder that side by the permutation with
    /// the images `p`.
    spec fn permutable(&self, p: Seq<usize>, of_codomain: bool) -> bool;

    /// Whether `from_permutation` can be asked for the permutation with the
    /// images `p` of the word `types`.
    spec fn permutation_fits(p: Seq<usize>, types: Seq<T>) -> bool;

    /// Pre- or post-composes with the permutation `p`.
    fn permute_side(&mut self, p: &Permutation, of_codomain: bool)
        requires
            old(self).permutable(perm_values(*p), of_codomain),
    ;

    /// The morphism that permutes the word `types` by `p`; `types` is its
    /// domain when `types_as_on_domain` holds and its codomain otherwise.
    fn from_permutation(p: Permutation, types: &[T], types_as_on_domain: bool) -> (r: Result<Self, CatgraphError>)
        requires
            Self::permutation_fits(perm_values(p), types@),
    ;
}

/// Morphisms of finite sets, whose objects are sizes: a side can be
/// reordered by a permutation, and a permutation gives a morphism.
pub trait SymmetricMonoidalDiscreteMorphism<T>: Sized {
    /// Whether `permute_side` can reorder that side by the permutation with
    /// the images `p`.
    spec fn permutable(&self, p: Seq<usize>, of_codomain: bool) -> bool;

    /// Whether `from_permutation` can be asked for the permutation with the
    /// images `p` on the object `types`.
    spec fn permutation_fits(p: Seq<usize>, types: T) -> bool;

    /// Pre- or post-composes with the permutation `p`.
    fn permute_side(&mut self, p: &Permutation, of_codomain: bool)
        requires
            old(self).permutable(perm_values(*p), of_codomain),
    ;

    /// The morphism that permutes `types` by `p`.
    fn from_permutation(p: Permutation, types: T, types_as_on_domain: bool) -> (r: Self)
        requires
            Self::permutation_fits(perm_values(p), types),
    ;
}

/// Structures that hold black-box labels.
pub trait Contains<T>: Sized {
    fn contained_labels(&self) -> Vec<T>;
}

/// One layer of a black-box morphism: the boxes side by side, with the
/// labels of the layer's domain and codomain.
#[derive(PartialEq, Eq, Clone)]
pub struct GenericMonoidalMorphismLayer<BoxType: Clone, Lambda: Label> {
    pub blocks: Vec<BoxType>,
    pub left_type: Vec<Lambda>,
    pub right_type: Vec<Lambda>,
}

/// `r` is the layer `a` with `b` placed after it.
pub open spec fn is_tensor_layer<B: Clone, L: Label>(
    r: GenericMonoidalMorphismLayer<B, L>,
    a: GenericMonoidalMorphismLayer<B, L>,
    b: GenericMonoidalMorphismLayer<B, L>,
) -> bool {
    &&& r.blocks@ == a.blocks@ + b.blocks@
    &&& r.left_type@ == a.left_type@ + b.left_type@
    &&& r.right_type@ == a.right_type@ + b.right_type@
}

/// `r` is the layer `a` followed by a layer of identity boxes on the labels `t`.
pub open spec fn is_tensor_identity_right<B: Clone, L: Label>(
    r: GenericMonoidalMorphismLayer<B, L>,
    a: GenericMonoidalMorphismLayer<B, L>,
    t: Seq<L>,
) -> bool {
    &&& r.blocks@.len() == a.blocks@.len() + t.len()
    &&& r.blocks@.subrange(0, a.blocks@.len() as int) == a.blocks@
    &&& r.left_type@ == a.left_type@ + t
    &&& r.right_type@ == a.right_type@ + t
}

/// `r` is a layer of identity boxes on the labels `t` followed by the layer `b`.
pub open spec fn is_tensor_identity_left<B: Clone, L: Label>(
    r: GenericMonoidalMorphismLayer<B, L>,
    t: Seq<L>,
    b: GenericMonoidalMorphismLayer<B, L>,
) -> bool {
    &&& r.blocks@.len() == t.len() + b.blocks@.len()
    &&& r.blocks@.subrange(t.len() as int, r.blocks@.len() as int) == b.blocks@
    &&& r.left_type@ == t + b.left_type@
    &&& r.right_type@ == t + b.right_type@
}

impl<BoxType: Clone, Lambda: Label> Contains<BoxType> for GenericMonoidalMorphismLayer<BoxType, Lambda> {
    /// Clones of the boxes, in order.
    fn contained_labels(&self) -> (r: Vec<BoxType>)
        ensures
            r@.len() == self.blocks@.len(),
            forall|i: int| 0 <= i < r@.len() ==> cloned::<BoxType>(self.blocks@[i], #[trigger] r@[i]),
    {
        self.blocks.clone()
    }
}

impl<BoxType: Clone, Lambda: Label> GenericMonoidalMorphismLayer<BoxType, Lambda> {
    /// The empty layer.
    pub fn new() -> (r: Self)
        ensures
            r.blocks@ == Seq::<BoxType>::empty(),
            r.left_type@ == Seq::<Lambda>::empty(),
            r.right_type@ == Seq::<Lambda>::empty(),
    {
        Self { blocks: Vec::new(), left_type: Vec::new(), right_type: Vec::new() }
    }
}

impl<BoxType: Clone, Lambda: Label> Default for GenericMonoidalMorphismLayer<BoxType, Lambda> {
    fn default() -> (r: Self)
        ensures
            r.blocks@ == Seq::<BoxType>::empty(),
            r.left_type@ == Seq::<Lambda>::empty(),
            r.right_type@ == Seq::<Lambda>::empty(),
    {
        Self::new()
    }
}

impl<BoxType: Clone + HasIdentity<Lambda>, Lambda: Label> HasIdentity<Vec<Lambda>> for GenericMonoidalMorphismLayer<
    BoxType,
    Lambda,
> {
    /// One identity box per label.
    fn identity(on_type: &Vec<Lambda>) -> (r: Self)
        ensures
            r.blocks@.len() == on_type@.len(),
            r.left_type@ == on_type@,
            r.right_type@ == on_type@,
    {
        let mut answer = Self::new();
        let mut i: usize = 0;
        while i < on_type.len()
            invariant
                i <= on_type@.len(),
                answer.blocks@.len() == i,
                answer.left_type@ == on_type@.subrange(0, i as int),
                answer.right_type@ == on_type@.subrange(0, i as int),
            decreases on_type@.len() - i,
        {
            let cur_type = on_type[i];
            let op = BoxType::identity(&cur_type);
            answer.blocks.push(op);
            answer.left_type.push(cur_type);
            answer.right_type.push(cur_type);
            i = i + 1;
            assert(answer.left_type@ =~= on_type@.subrange(0, i as int));
            assert(answer.right_type@ =~= on_type@.subrange(0, i as int));
        }
        assert(on_type@.subrange(0, i as int) =~= on_type@);
        answer
    }
}

impl<BoxType: Clone, Lambda: Label> Monoidal for GenericMonoidalMorphismLayer<BoxType, Lambda> {
    /// Places the boxes of `other` after those of `self`.
    fn monoidal(&mut self, other: Self)
        ensures
            is_tensor_layer(*final(self), *old(self), other),
    {
        let mut other = other;
        self.blocks.append(&mut other.blocks);
        self.left_type.append(&mut other.left_type);
        self.right_type.append(&mut other.right_type);
    }
}

/// A black-box morphism: a sequence of layers, each read from left to right,
/// composed from first to last.
#[derive(Clone, PartialEq, Eq)]
pub struct GenericMonoidalMorphism<BoxType: Clone, Lambda: Label> {
    layers: Vec<GenericMonoidalMorphismLayer<BoxType, Lambda>>,
}

/// The layers after appending `l`: always onto no layers, else only when the
/// codomain of the last layer is the domain of `l`.
pub open spec fn append_spec<B: Clone, L: Label>(
    ls: Seq<GenericMonoidalMorphismLayer<B, L>>,
    l: GenericMonoidalMorphismLayer<B, L>,
) -> Option<Seq<GenericMonoidalMorphismLayer<B, L>>> {
    if ls.len() == 0 {
        Some(seq![l])
    } else if ls.last().right_type@ == l.left_type@ {
        Some(ls.push(l))
    } else {
        None
    }
}

/// Appends the layers of `os` one at a time, stopping at the first that does
/// not fit; the flag tells whether all were appended.
pub open spec fn compose_layers<B: Clone, L: Label>(
    ls: Seq<GenericMonoidalMorphismLayer<B, L>>,
    os: Seq<GenericMonoidalMorphismLayer<B, L>>,
) -> (Seq<GenericMonoidalMorphismLayer<B, L>>, bool)
    decreases os.len(),
{
    if os.len() == 0 {
        (ls, true)
    } else {
        match append_spec(ls, os[0]) {
            Some(n) => compose_layers(n, os.drop_first()),
            None => (ls, false),
        }
    }
}

/// The domain of a sequence of layers: that of the first, or no labels.
pub open spec fn layers_domain<B: Clone, L: Label>(ls: Seq<GenericMonoidalMorphismLayer<B, L>>) -> Seq<L> {
    if ls.len() == 0 {
        Seq::empty()
    } else {
        ls[0].left_type@
    }
}

/// The codomain of a sequence of layers: that of the last, or no labels.
pub open spec fn layers_codomain<B: Clone, L: Label>(ls: Seq<GenericMonoidalMorphismLayer<B, L>>) -> Seq<L> {
    if ls.len() == 0 {
        Seq::empty()
    } else {
        ls.last().right_type@
    }
}

/// The boxes of all layers, layer after layer.
pub open spec fn all_blocks<B: Clone, L: Label>(ls: Seq<GenericMonoidalMorphismLayer<B, L>>) -> Seq<B>
    decreases ls.len(),
{
    if ls.len() == 0 {
        Seq::empty()
    } else {
        all_blocks(ls.drop_last()) + ls.last().blocks@
    }
}

/// The indices `n ≥ start` of the layers of `o` that the tensor product
/// appends below a shorter morphism: the layer `n` (with identities on `lst`
/// in front) is appended when there is no last layer yet (`cur` is `None`) or
/// when the codomain `cur` of the last layer is its domain.
pub open spec fn accepted_layers<B: Clone, L: Label>(
    o: Seq<GenericMonoidalMorphismLayer<B, L>>,
    lst: Seq<L>,
    start: int,
    cur: Option<Seq<L>>,
) -> Seq<int>
    decreases o.len() - start,
{
    if start < 0 || start >= o.len() {
        Seq::empty()
    } else {
        let ok = match cur {
            None => true,
            Some(r) => r == lst + o[start].left_type@,
        };
        if ok {
            seq![start] + accepted_layers(o, lst, start + 1, Some(lst + o[start].right_type@))
        } else {
            accepted_layers(o, lst, start + 1, cur)
        }
    }
}

/// The codomain labels of the last layer of `o` paired with a layer of `s`
/// when `s` has `sl` layers: identities on them pad the deeper layers of `s`.
pub open spec fn pad_labels<B: Clone, L: Label>(o: Seq<GenericMonoidalMorphismLayer<B, L>>, sl: int) -> Seq<L> {
    if sl > 0 && o.len() > 0 {
        o[(if sl < o.len() {
            sl
        } else {
            o.len() as int
        }) - 1].right_type@
    } else {
        Seq::empty()
    }
}

/// The codomain labels of the last layer of `s`, or no labels.
pub open spec fn last_right<B: Clone, L: Label>(s: Seq<GenericMonoidalMorphismLayer<B, L>>) -> Seq<L> {
    if s.len() > 0 {
        s.last().right_type@
    } else {
        Seq::empty()
    }
}

impl<BoxType: Clone, Lambda: Label> Contains<BoxType> for GenericMonoidalMorphism<BoxType, Lambda> {
    /// Clones of the boxes of all layers, layer after layer.
    fn contained_labels(&self) -> (r: Vec<BoxType>)
        ensures
            r@.len() == all_blocks(self.layers()).len(),
            forall|i: int| 0 <= i < r@.len() ==> cloned::<BoxType>(all_blocks(self.layers())[i], #[trigger] r@[i]),
    {
        let mut r: Vec<BoxType> = Vec::new();
        let mut k: usize = 0;
        while k < self.layers.len()
            invariant
                k <= self.layers@.len(),
                r@.len() == all_blocks(self.layers@.subrange(0, k as int)).len(),
                forall|i: int|
                    0 <= i < r@.len() ==> cloned::<BoxType>(
                        all_blocks(self.layers@.subrange(0, k as int))[i],
                        #[trigger] r@[i],
                    ),
            decreases self.layers@.len() - k,
        {
            let mut more = self.layers[k].contained_labels();
            let ghost before = r@;
            let ghost pre = all_blocks(self.layers@.subrange(0, k as int));
            let ghost m0 = more@;
            r.append(&mut more);
            proof {
                let next = self.layers@.subrange(0, k + 1);
                assert(next.drop_last() =~= self.layers@.subrange(0, k as int));
                assert(all_blocks(next) == pre + self.layers@[k as int].blocks@);
                assert forall|i: int| 0 <= i < r@.len() implies cloned::<BoxType>(all_blocks(next)[i], #[trigger] r@[i]) by {
                    if i >= before.len() {
                        let j = i - before.len();
                        assert(r@[i] == m0[j]);
                    } else {
                        assert(r@[i] == before[i]);
                    }
                }
            }
            k = k + 1;
        }
        assert(self.layers@.subrange(0, k as int) =~= self.layers@);
        r
    }
}

impl<BoxType: Clone, Lambda: Label> Default for GenericMonoidalMorphism<BoxType, Lambda> {
    fn default() -> (r: Self)
        ensures
            r.layers() == Seq::<GenericMonoidalMorphismLayer<BoxType, Lambda>>::empty(),
    {
        Self { layers: Vec::new() }
    }
}

impl<BoxType: Clone, Lambda: Label> GenericMonoidalMorphism<BoxType, Lambda> {
    /// The layers, first to last.
    pub closed spec fn layers(&self) -> Seq<GenericMonoidalMorphismLayer<BoxType, Lambda>> {
        self.layers@
    }

    /// The morphism with no layers.
    pub fn new() -> (r: Self)
        ensures
            r.layers() == Seq::<GenericMonoidalMorphismLayer<BoxType, Lambda>>::empty(),
    {
        Self { layers: Vec::new() }
    }

    /// The number of layers.
    pub fn depth(&self) -> (r: usize)
        ensures
            r == self.layers().len(),
    {
        self.layers.len()
    }

    /// Appends a layer below the last one; fails, leaving `self` unchanged,
    /// when the codomain of the last layer is not the domain of the new one.
    pub fn append_layer(&mut self, next_layer: GenericMonoidalMorphismLayer<BoxType, Lambda>) -> (r: Result<
        (),
        CatgraphError,
    >)
        ensures
            append_spec(old(self).layers(), next_layer) matches Some(n) ==> r is Ok && final(self).layers() == n,
            append_spec(old(self).layers(), next_layer) is None ==> r is Err && final(self).layers()
                == old(self).layers() && r->Err_0 is Composition,
    {
        let n = self.layers.len();
        if n > 0 {
            if !labels_equal(self.layers[n - 1].right_type.as_slice(), next_layer.left_type.as_slice()) {
                return Err(CatgraphError::Composition {
                    message: String::from_str("type mismatch in morphims composition"),
                });
            }
        }
        self.layers.push(next_layer);
        proof {
            if n == 0 {
                assert(self.layers@ =~= seq![next_layer]);
            }
        }
        Ok(())
    }

    /// The layers, first to last.
    pub fn extract_layers(self) -> (r: Vec<GenericMonoidalMorphismLayer<BoxType, Lambda>>)
        ensures
            r@ == self.layers(),
    {
        self.layers
    }
}

impl<BoxType: Clone + HasIdentity<Lambda>, Lambda: Label> HasIdentity<Vec<Lambda>> for GenericMonoidalMorphism<
    BoxType,
    Lambda,
> {
    /// A single layer of identity boxes.
    fn identity(on_this: &Vec<Lambda>) -> (r: Self)
        ensures
            r.layers().len() == 1,
            r.layers()[0].blocks@.len() == on_this@.len(),
            r.layers()[0].left_type@ == on_this@,
            r.layers()[0].right_type@ == on_this@,
    {
        let mut layers = Vec::new();
        layers.push(GenericMonoidalMorphismLayer::identity(on_this));
        Self { layers }
    }
}

impl<BoxType: Clone + HasIdentity<Lambda>, Lambda: Label> Monoidal for GenericMonoidalMorphism<BoxType, Lambda> {
    /// Tensor product layer by layer. Where one morphism is deeper, the other
    /// is padded: the extra layers of `self` get identities on the last
    /// codomain seen in `other`, and the extra layers of `other` get
    /// identities on the codomain of the last layer of `self` in front and are
    /// appended below, each only when it fits the layer above it.
    fn monoidal(&mut self, other: Self)
        ensures
            ({
                let s = old(self).layers();
                let o = other.layers();
                let sl = s.len() as int;
                let lot = pad_labels(o, sl);
                let lst = last_right(s);
                let init = if sl == 0 {
                    None::<Seq<Lambda>>
                } else {
                    Some(lst + lot)
                };
                let idx = accepted_layers(o, lst, sl, init);
                &&& final(self).layers().len() == sl + idx.len()
                &&& forall|n: int|
                    0 <= n < sl && n < o.len() ==> is_tensor_layer(
                        #[trigger] final(self).layers()[n],
                        s[n],
                        o[n],
                    )
                &&& forall|n: int|
                    0 <= n < sl && n >= o.len() ==> is_tensor_identity_right(
                        #[trigger] final(self).layers()[n],
                        s[n],
                        lot,
                    )
                &&& forall|j: int|
                    0 <= j < idx.len() ==> is_tensor_identity_left(
                        #[trigger] final(self).layers()[sl + j],
                        lst,
                        o[idx[j]],
                    )
            }),
    {
        let ghost s = self.layers@;
        let ghost o = other.layers@;
        let sl = self.layers.len();
        let ol = other.layers.len();
        let mut old_layers: Vec<GenericMonoidalMorphismLayer<BoxType, Lambda>> = Vec::new();
        std::mem::swap(&mut old_layers, &mut self.layers);
        let mut other_layers = other.layers;
        let mut built: Vec<GenericMonoidalMorphismLayer<BoxType, Lambda>> = Vec::new();
        let mut last_other_type: Vec<Lambda> = Vec::new();
        let mut last_self_type: Vec<Lambda> = Vec::new();
        let mut n: usize = 0;
        while n < sl
            invariant
                sl == s.len(),
                ol == o.len(),
                n <= sl,
                old_layers@ == s.subrange(n as int, sl as int),
                other_layers@ == o.subrange(if n < ol { n as int } else { ol as int }, ol as int),
                built@.len() == n,
                last_other_type@ == pad_labels(o, n as int),
                last_self_type@ == last_right(s.subrange(0, n as int)),
                forall|k: int| 0 <= k < n && k < ol ==> is_tensor_layer(#[trigger] built@[k], s[k], o[k]),
                forall|k: int|
                    0 <= k < n && k >= ol ==> is_tensor_identity_right(
                        #[trigger] built@[k],
                        s[k],
                        pad_labels(o, k + 1),
                    ),
            decreases sl - n,
        {
            let mut cur = old_layers.remove(0);
            assert(cur == s[n as int]);
            last_self_type = copy_vec(cur.right_type.as_slice());
            if n < ol {
                let on = other_layers.remove(0);
                assert(on == o[n as int]);
                last_other_type = copy_vec(on.right_type.as_slice());
                cur.monoidal(on);
            } else {
                let idl = GenericMonoidalMorphismLayer::identity(&last_other_type);
                let ghost c0 = cur;
                cur.monoidal(idl);
                assert(cur.blocks@.subrange(0, c0.blocks@.len() as int) =~= c0.blocks@);
            }
            built.push(cur);
            n = n + 1;
            proof {
                assert(old_layers@ =~= s.subrange(n as int, sl as int));
                assert(other_layers@ =~= o.subrange(if n < ol { n as int } else { ol as int }, ol as int));
                let sp = s.subrange(0, n as int);
                assert(sp.last() == s[n - 1]);
            }
        }
        self.layers = built;
        let ghost lst = last_right(s);
        let ghost lot = pad_labels(o, sl as int);
        let ghost init = if sl == 0 {
            None::<Seq<Lambda>>
        } else {
            Some(lst + lot)
        };
        let ghost idx = accepted_layers(o, lst, sl as int, init);
        let ghost prefix = self.layers@;
        proof {
            assert(s.subrange(0, sl as int) =~= s);
            assert forall|k: int| 0 <= k < sl && k >= ol implies #[trigger] pad_labels(o, k + 1) == lot by {}
            if sl > 0 {
                if (sl - 1) < ol {
                    assert(self.layers@[sl - 1].right_type@ == s[sl - 1].right_type@ + o[sl - 1].right_type@);
                } else {
                    assert(self.layers@[sl - 1].right_type@ == s[sl - 1].right_type@ + lot);
                }
            }
        }
        let ghost mut done: Seq<int> = Seq::empty();
        let ghost mut cur_right: Option<Seq<Lambda>> = init;
        let mut m: usize = sl;
        if m < ol {
            while m < ol
                invariant
                    sl == s.len(),
                    ol == o.len(),
                    sl <= m <= ol,
                    other_layers@ == o.subrange(m as int, ol as int),
                    last_self_type@ == lst,
                    self.layers@.len() == sl + done.len(),
                    self.layers@.subrange(0, sl as int) == prefix,
                    done + accepted_layers(o, lst, m as int, cur_right) == idx,
                    cur_right == (if self.layers@.len() == 0 {
                        None::<Seq<Lambda>>
                    } else {
                        Some(self.layers@.last().right_type@)
                    }),
                    forall|j: int| 0 <= j < done.len() ==> sl <= #[trigger] done[j] < m,
                    forall|j: int|
                        0 <= j < done.len() ==> is_tensor_identity_left(
                            #[trigger] self.layers@[sl + j],
                            lst,
                            o[done[j]],
                        ),
                decreases ol - m,
            {
                let on = other_layers.remove(0);
                assert(on == o[m as int]);
                let mut new_layer = GenericMonoidalMorphismLayer::identity(&last_self_type);
                let ghost idl = new_layer;
                new_layer.monoidal(on);
                let ghost nl = new_layer;
                let ghost before = self.layers@;
                proof {
                    assert(nl.blocks@.subrange(lst.len() as int, nl.blocks@.len() as int) =~= on.blocks@);
                }
                let _ = self.append_layer(new_layer);
                proof {
                    let ok = match cur_right {
                        None => true,
                        Some(r) => r == lst + o[m as int].left_type@,
                    };
                    assert(accepted_layers(o, lst, m as int, cur_right) == if ok {
                        seq![m as int] + accepted_layers(o, lst, m + 1, Some(lst + o[m as int].right_type@))
                    } else {
                        accepted_layers(o, lst, m + 1, cur_right)
                    });
                    if ok {
                        assert(self.layers@ == before.push(nl));
                        let d2 = done.push(m as int);
                        assert(d2 + accepted_layers(o, lst, m + 1, Some(lst + o[m as int].right_type@))
                            =~= done + (seq![m as int] + accepted_layers(
                            o,
                            lst,
                            m + 1,
                            Some(lst + o[m as int].right_type@),
                        )));
                        assert(self.layers@.subrange(0, sl as int) =~= before.subrange(0, sl as int));
                        assert forall|j: int| 0 <= j < d2.len() implies is_tensor_identity_left(
                            #[trigger] self.layers@[sl + j],
                            lst,
                            o[d2[j]],
                        ) by {
                            if j < done.len() {
                                assert(self.layers@[sl + j] == before[sl + j]);
                            }
                        }
                        done = d2;
                        cur_right = Some(lst + o[m as int].right_type@);
                    } else {
                        assert(self.layers@ == before);
                    }
                }
                m = m + 1;
                proof {
                    assert(other_layers@ =~= o.subrange(m as int, ol as int));
                }
            }
        }
        proof {
            assert(accepted_layers(o, lst, m as int, cur_right) == Seq::<int>::empty());
            assert(done + Seq::<int>::empty() =~= done);
            assert forall|n: int| 0 <= n < sl implies #[trigger] self.layers@[n] == prefix[n] by {
                assert(self.layers@.subrange(0, sl as int)[n] == self.layers@[n]);
            }
        }
    }
}

/// Decides whether the layers `r` can follow the layers `l`: the codomain of
/// the last layer of `l` must be the domain of the first layer of `r`, where
/// no layers have no labels.
pub fn layers_composable<BoxType: Clone, Lambda: Label>(
    l: &[GenericMonoidalMorphismLayer<BoxType, Lambda>],
    r: &[GenericMonoidalMorphismLayer<BoxType, Lambda>],
) -> (res: Result<(), CatgraphError>)
    ensures
        res is Ok <==> layers_codomain(l@) == layers_domain(r@),
        res is Err ==> res->Err_0 is Composition,
{
    if l.len() == 0 || r.len() == 0 {
        if l.len() == 0 && r.len() == 0 {
            return Ok(());
        }
        let empty = if l.len() == 0 {
            r[0].left_type.len() == 0
        } else {
            l[l.len() - 1].right_type.len() == 0
        };
        if empty {
            proof {
                if l@.len() == 0 {
                    assert(r@[0].left_type@ =~= Seq::<Lambda>::empty());
                } else {
                    assert(l@.last().right_type@ =~= Seq::<Lambda>::empty());
                }
            }
            return Ok(());
        } else {
            return Err(CatgraphError::Composition {
                message: String::from_str("Mismatch in cardinalities of common interface"),
            });
        }
    }
    let self_interface = l[l.len() - 1].right_type.as_slice();
    let other_interface = r[0].left_type.as_slice();
    if self_interface.len() != other_interface.len() {
        Err(CatgraphError::Composition {
            message: String::from_str("Mismatch in cardinalities of common interface"),
        })
    } else if !labels_equal(self_interface, other_interface) {
        Err(CatgraphError::Composition {
            message: String::from_str("Mismatch in labels of common interface"),
        })
    } else {
        Ok(())
    }
}

impl<BoxType: Clone, Lambda: Label> ComposableMutating<Vec<Lambda>> for GenericMonoidalMorphism<BoxType, Lambda> {
    fn composable(&self, other: &Self) -> (r: Result<(), CatgraphError>)
        ensures
            r is Ok <==> layers_codomain(self.layers()) == layers_domain(other.layers()),
            r is Err ==> r->Err_0 is Composition,
    {
        layers_composable(self.layers.as_slice(), other.layers.as_slice())
    }

    /// Appends the layers of `other` one at a time; at the first that does not
    /// fit, stops with an error, keeping the layers appended so far.
    fn compose(&mut self, other: Self) -> (r: Result<(), CatgraphError>)
        ensures
            final(self).layers() == compose_layers(old(self).layers(), other.layers()).0,
            r is Ok <==> compose_layers(old(self).layers(), other.layers()).1,
            r is Err ==> r->Err_0 is Composition,
    {
        let ghost o = other.layers@;
        let mut rest = other.layers;
        while rest.len() > 0
            invariant
                o == other.layers(),
                compose_layers(self.layers@, rest@) == compose_layers(old(self).layers(), o),
            decreases rest@.len(),
        {
            let ghost full = rest@;
            let next_layer = rest.remove(0);
            let ghost before = self.layers@;
            proof {
                assert(rest@ =~= full.drop_first());
                assert(next_layer == full[0]);
                assert(compose_layers(before, full) == match append_spec(before, full[0]) {
                    Some(n) => compose_layers(n, full.drop_first()),
                    None => (before, false),
                });
            }
            match self.append_layer(next_layer) {
                Ok(()) => {},
                Err(e) => {
                    return Err(e);
                },
            }
        }
        Ok(())
    }

    fn domain(&self) -> (r: Vec<Lambda>)
        ensures
            r@ == layers_domain(self.layers()),
    {
        if self.layers.len() == 0 {
            Vec::new()
        } else {
            copy_vec(self.layers[0].left_type.as_slice())
        }
    }

    fn codomain(&self) -> (r: Vec<Lambda>)
        ensures
            r@ == layers_codomain(self.layers()),
    {
        let n = self.layers.len();
        if n == 0 {
            Vec::new()
        } else {
            copy_vec(self.layers[n - 1].right_type.as_slice())
        }
    }
}

impl<BoxType: Clone + HasIdentity<Lambda>, Lambda: Label> MonoidalMutatingMorphism<Vec<Lambda>> for GenericMonoidalMorphism<
    BoxType,
    Lambda,
> {

}

} // verus!
