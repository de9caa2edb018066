use catgraph::category::{ComposableMutating, HasIdentity};
use catgraph::finset::Decomposition;
use catgraph::frobenius::{special_frobenius_morphism, FrobeniusLayer, FrobeniusMorphism, FrobeniusOperation};
use catgraph::frobenius_permutation::from_decomposition;
use catgraph::label::Label;
use catgraph::monoidal::SymmetricMonoidalMorphism;
use permutations::Permutation;
use rand::rngs::StdRng;
use rand::SeedableRng;
use rand::RngExt;
use rand::distr::Uniform;
use rand::prelude::Distribution;

/// The one-element label set.
#[derive(Clone, Copy, Debug, PartialEq, Eq)]
struct Unit;

impl Label for Unit {
    fn same_label(&self, other: &Self) -> bool {
        self == other
    }
}

/// A random permutation of `n` elements, by exchanges drawn from `rng`.
fn rand_perm(n: usize, max_depth: usize, rng: &mut StdRng) -> Permutation {
    let mut images: Vec<usize> = (0..n).collect();
    for _ in 0..max_depth {
        let a = rng.random_range(0..n);
        let b = rng.random_range(0..n);
        images.swap(a, b);
    }
    Permutation::try_from(images).unwrap()
}

#[test]
fn rand_spiders() {
    let between = Uniform::try_from(0..5).unwrap();
    let mut rng = StdRng::seed_from_u64(3001);
    for _ in 0..10 {
        let m = between.sample(&mut rng);
        let n = between.sample(&mut rng);
        let rand_spider: FrobeniusMorphism<Unit, ()> = special_frobenius_morphism(m, n, Unit);
        let exp_source_type = vec![Unit; m];
        let exp_target_type = vec![Unit; n];
        assert_eq!(exp_source_type, rand_spider.domain());
        assert_eq!(exp_target_type, rand_spider.codomain());
    }
    let between = Uniform::try_from(128..255).unwrap();
    let mut rng = StdRng::seed_from_u64(3002);
    for _ in 0..5 {
        let m = between.sample(&mut rng);
        let n = between.sample(&mut rng);
        let rand_spider: FrobeniusMorphism<Unit, ()> = special_frobenius_morphism(m, n, Unit);
        let exp_source_type = vec![Unit; m];
        let exp_target_type = vec![Unit; n];
        assert_eq!(exp_source_type, rand_spider.domain());
        assert_eq!(exp_target_type, rand_spider.codomain());
        assert!(
            rand_spider.depth() <= 4 * 8,
            "Depth of {} to {} was {} instead of {}",
            m,
            n,
            rand_spider.depth(),
            4 * 8
        );
    }
}

#[test]
fn basic_spiders() {
    let counit_spider: FrobeniusMorphism<Unit, ()> = special_frobenius_morphism(1, 0, Unit);
    let exp_counit_spider: FrobeniusMorphism<_, _> = FrobeniusOperation::Counit(Unit).into();
    assert!(exp_counit_spider == counit_spider);
    assert_eq!(counit_spider.depth(), 1);

    let comul_spider: FrobeniusMorphism<Unit, ()> = special_frobenius_morphism(1, 2, Unit);
    let exp_comul_spider: FrobeniusMorphism<_, _> = FrobeniusOperation::Comultiplication(Unit).into();
    assert!(exp_comul_spider == comul_spider);
    assert_eq!(comul_spider.depth(), 1);

    let mul_spider: FrobeniusMorphism<Unit, ()> = special_frobenius_morphism(2, 1, Unit);
    let exp_mul_spider: FrobeniusMorphism<_, _> = FrobeniusOperation::Multiplication(Unit).into();
    assert!(exp_mul_spider == mul_spider);
    assert_eq!(mul_spider.depth(), 1);

    let unit_spider: FrobeniusMorphism<Unit, ()> = special_frobenius_morphism(0, 1, Unit);
    let exp_unit_spider: FrobeniusMorphism<_, _> = FrobeniusOperation::Unit(Unit).into();
    assert!(exp_unit_spider == unit_spider);
    assert_eq!(unit_spider.depth(), 1);

    let id_spider: FrobeniusMorphism<Unit, ()> = special_frobenius_morphism(1, 1, Unit);
    let exp_id_spider: FrobeniusMorphism<_, _> = FrobeniusOperation::Identity(Unit).into();
    assert!(exp_id_spider == id_spider);
    assert_eq!(id_spider.depth(), 1);
}

#[test]
fn basic_typed_spiders() {
    let counit_spider: FrobeniusMorphism<bool, ()> = special_frobenius_morphism(1, 0, true);
    let exp_counit_spider: FrobeniusMorphism<_, _> = FrobeniusOperation::Counit(true).into();
    assert!(exp_counit_spider == counit_spider);

    let comul_spider: FrobeniusMorphism<bool, ()> = special_frobenius_morphism(1, 2, false);
    let exp_comul_spider: FrobeniusMorphism<_, _> = FrobeniusOperation::Comultiplication(false).into();
    assert!(exp_comul_spider == comul_spider);

    #[derive(PartialEq, Eq, Clone, Copy, Debug)]
    enum Color {
        Red,
        Green,
        Blue,
    }
    impl Label for Color {
        fn same_label(&self, other: &Self) -> bool {
            self == other
        }
    }
    let mul_spider: FrobeniusMorphism<Color, ()> = special_frobenius_morphism(2, 1, Color::Red);
    let exp_mul_spider: FrobeniusMorphism<_, _> = FrobeniusOperation::Multiplication(Color::Red).into();
    assert!(exp_mul_spider == mul_spider);
    let exp_mul_spider: FrobeniusMorphism<_, _> = FrobeniusOperation::Multiplication(Color::Green).into();
    assert!(exp_mul_spider != mul_spider);

    let unit_spider: FrobeniusMorphism<Color, ()> = special_frobenius_morphism(0, 1, Color::Blue);
    let exp_unit_spider: FrobeniusMorphism<_, _> = FrobeniusOperation::Unit(Color::Blue).into();
    assert!(exp_unit_spider == unit_spider);

    let id_spider: FrobeniusMorphism<Color, ()> = special_frobenius_morphism(1, 1, Color::Green);
    let exp_id_spider: FrobeniusMorphism<_, _> = FrobeniusOperation::Identity(Color::Green).into();
    assert!(exp_id_spider == id_spider);
    let exp_id_spider: FrobeniusMorphism<_, _> = FrobeniusOperation::Identity(Color::Blue).into();
    assert!(exp_id_spider != id_spider);

    let zero_zero_spider: FrobeniusMorphism<Color, ()> = special_frobenius_morphism(0, 0, Color::Green);
    let mut exp_zero_zero_spider: FrobeniusMorphism<_, _> = FrobeniusOperation::Unit(Color::Green).into();
    let composition_worked = exp_zero_zero_spider.compose(FrobeniusOperation::Counit(Color::Green).into());
    if composition_worked.is_ok() {
        assert!(exp_zero_zero_spider == zero_zero_spider);
    } else {
        assert!(false, "Unit and counit do compose");
    }
}

#[test]
fn decomposition_automatic() {
    let in_max = 20;
    let out_max = 20;
    let mut rng = StdRng::seed_from_u64(3004);
    let between = Uniform::<usize>::try_from(2..in_max).unwrap();
    let in_ = between.sample(&mut rng);
    let between = Uniform::<usize>::try_from(2..out_max).unwrap();
    let out_ = between.sample(&mut rng);
    let cur_test = (0..in_)
        .map(|_| Uniform::<usize>::try_from(0..out_).unwrap().sample(&mut rng))
        .collect::<Vec<usize>>();
    let domain_types = (0..in_).map(|idx| cur_test[idx] + 100).collect::<Vec<usize>>();
    let mut codomain_types = (0..out_).map(|idx| idx + 40).collect::<Vec<usize>>();
    for (idx, idx_goes) in cur_test.iter().enumerate() {
        codomain_types[*idx_goes] = domain_types[idx];
    }
    let cur_res = Decomposition::try_from((cur_test.clone(), 0));
    if let Ok(cur_decomp) = cur_res {
        let _x: FrobeniusMorphism<_, ()> = from_decomposition(cur_decomp, &domain_types, &codomain_types).unwrap();
    } else {
        assert!(false, "All maps of finite sets decompose");
    }
}

#[test]
fn frobenius_permute_side_codomain_with_swap() {
    let types = vec!['a', 'b'];
    let mut morph: FrobeniusMorphism<char, ()> = FrobeniusMorphism::identity(&types);
    let swap = Permutation::transposition(2, 0, 1);
    morph.permute_side(&swap, true);
    assert_eq!(morph.domain(), vec!['a', 'b']);
    assert_eq!(morph.codomain(), swap.permute(&types));
}

#[test]
fn frobenius_permute_side_domain_with_swap() {
    let types = vec!['a', 'b'];
    let mut morph: FrobeniusMorphism<char, ()> = FrobeniusMorphism::identity(&types);
    let swap = Permutation::transposition(2, 0, 1);
    morph.permute_side(&swap, false);
    assert_eq!(morph.domain(), swap.permute(&types));
    assert_eq!(morph.codomain(), vec!['a', 'b']);
}

#[test]
fn frobenius_permute_side_codomain_rotation() {
    let types = vec!['a', 'b', 'c'];
    let rotation = Permutation::rotation_left(3, 1);
    let mut morph: FrobeniusMorphism<char, ()> = FrobeniusMorphism::identity(&types);
    morph.permute_side(&rotation, true);
    assert_eq!(morph.domain(), vec!['a', 'b', 'c']);
    assert_eq!(morph.codomain(), rotation.permute(&types));
}

#[test]
fn frobenius_permute_side_domain_rotation() {
    let types = vec!['a', 'b', 'c'];
    let rotation = Permutation::rotation_left(3, 1);
    let mut morph: FrobeniusMorphism<char, ()> = FrobeniusMorphism::identity(&types);
    morph.permute_side(&rotation, false);
    assert_eq!(morph.domain(), rotation.permute(&types));
    assert_eq!(morph.codomain(), vec!['a', 'b', 'c']);
}

#[test]
fn frobenius_permute_side_random() {
    let mut rng = StdRng::seed_from_u64(3005);
    for _ in 0..20 {
        let n = Uniform::<usize>::try_from(2..8).unwrap().sample(&mut rng);
        let types: Vec<usize> = (0..n).map(|i| i + 100).collect();
        let p = rand_perm(n, n * 2, &mut rng);

        let mut morph_cod: FrobeniusMorphism<usize, ()> = FrobeniusMorphism::identity(&types);
        morph_cod.permute_side(&p, true);
        assert_eq!(morph_cod.domain(), types, "domain unchanged after cod permute");
        assert_eq!(morph_cod.codomain(), p.permute(&types), "codomain = p.permute(types) for n={n}, p={p:?}");

        let mut morph_dom: FrobeniusMorphism<usize, ()> = FrobeniusMorphism::identity(&types);
        morph_dom.permute_side(&p, false);
        assert_eq!(morph_dom.domain(), p.permute(&types), "domain = p.permute(types) for n={n}, p={p:?}");
        assert_eq!(morph_dom.codomain(), types, "codomain unchanged after dom permute");
    }
}

#[test]
fn frobenius_permute_side_compose_roundtrip() {
    let types = vec![10, 20, 30, 40];
    let p = Permutation::rotation_left(4, 1);

    let mut morph: FrobeniusMorphism<i32, ()> = FrobeniusMorphism::identity(&types);
    morph.permute_side(&p, true);
    let permuted_cod = morph.codomain();
    assert_eq!(permuted_cod, p.permute(&types));

    let inv_morph: FrobeniusMorphism<i32, ()> =
        FrobeniusMorphism::from_permutation(p.clone(), &permuted_cod, true).unwrap();
    assert_eq!(inv_morph.domain(), permuted_cod);
    let compose_result = morph.compose(inv_morph);
    assert!(compose_result.is_ok(), "composition after permute_side should type-check");
}

#[test]
fn frobenius_permute_side_on_spider() {
    let mut spider: FrobeniusMorphism<Unit, ()> = special_frobenius_morphism(3, 2, Unit);
    let original_domain = spider.domain();
    let original_codomain = spider.codomain();
    assert_eq!(original_domain, vec![Unit; 3]);
    assert_eq!(original_codomain, vec![Unit; 2]);

    let p_dom = Permutation::rotation_left(3, 1);
    spider.permute_side(&p_dom, false);
    assert_eq!(spider.domain(), vec![Unit; 3]);
    assert_eq!(spider.codomain(), vec![Unit; 2]);

    let p_cod = Permutation::transposition(2, 0, 1);
    spider.permute_side(&p_cod, true);
    assert_eq!(spider.domain(), vec![Unit; 3]);
    assert_eq!(spider.codomain(), vec![Unit; 2]);
}

#[test]
fn test_identity_layers_simplify() {
    let mut layer1: FrobeniusLayer<char, ()> = FrobeniusLayer::new();
    layer1.append_block(FrobeniusOperation::Identity('a'));
    layer1.append_block(FrobeniusOperation::Identity('b'));

    let mut layer2: FrobeniusLayer<char, ()> = FrobeniusLayer::new();
    layer2.append_block(FrobeniusOperation::Identity('a'));
    layer2.append_block(FrobeniusOperation::Identity('b'));

    let result = layer1.two_layer_simplify(&mut layer2);
    assert_eq!(result, (true, true, false));

    let mut id_layer: FrobeniusLayer<char, ()> = FrobeniusLayer::new();
    id_layer.append_block(FrobeniusOperation::Identity('x'));

    let mut non_id_layer: FrobeniusLayer<char, ()> = FrobeniusLayer::new();
    non_id_layer.append_block(FrobeniusOperation::Comultiplication('x'));

    let result = id_layer.two_layer_simplify(&mut non_id_layer);
    assert_eq!(result, (true, false, false));

    let mut non_id_layer2: FrobeniusLayer<char, ()> = FrobeniusLayer::new();
    non_id_layer2.append_block(FrobeniusOperation::Multiplication('y'));

    let mut id_layer2: FrobeniusLayer<char, ()> = FrobeniusLayer::new();
    id_layer2.append_block(FrobeniusOperation::Identity('y'));

    let result = non_id_layer2.two_layer_simplify(&mut id_layer2);
    assert_eq!(result, (false, true, false));
}

#[test]
fn test_braiding_self_inverse() {
    let mut layer1: FrobeniusLayer<char, ()> = FrobeniusLayer::new();
    layer1.append_block(FrobeniusOperation::SymmetricBraiding('a', 'b'));

    let mut layer2: FrobeniusLayer<char, ()> = FrobeniusLayer::new();
    layer2.append_block(FrobeniusOperation::SymmetricBraiding('b', 'a'));

    let (self_id, next_id, mutations) = layer1.two_layer_simplify(&mut layer2);

    assert!(mutations, "braiding cancellation should mutate");
    assert!(self_id, "self should become identity after braiding cancel");
    assert!(next_id, "next should become identity after braiding cancel");

    assert!(layer1.is_identity());
    assert!(layer2.is_identity());

    assert_eq!(layer1.left_type(), &['a', 'b']);
    assert_eq!(layer1.right_type(), &['a', 'b']);
    assert_eq!(layer2.left_type(), &['b', 'a']);
    assert_eq!(layer2.right_type(), &['b', 'a']);
}

#[test]
fn test_braiding_no_cancel_different_types() {
    let mut layer1: FrobeniusLayer<char, ()> = FrobeniusLayer::new();
    layer1.append_block(FrobeniusOperation::SymmetricBraiding('a', 'b'));

    let mut layer2: FrobeniusLayer<char, ()> = FrobeniusLayer::new();
    layer2.append_block(FrobeniusOperation::SymmetricBraiding('a', 'b'));

    let (_, _, mutations) = layer1.two_layer_simplify(&mut layer2);
    assert!(!mutations, "non-inverse braidings should not cancel");
}

#[test]
fn test_unit_counit_cancel() {
    let mut layer1: FrobeniusLayer<char, ()> = FrobeniusLayer::new();
    layer1.append_block(FrobeniusOperation::Unit('z'));

    let mut layer2: FrobeniusLayer<char, ()> = FrobeniusLayer::new();
    layer2.append_block(FrobeniusOperation::Counit('z'));

    let (_, _, mutations) = layer1.two_layer_simplify(&mut layer2);
    assert!(mutations, "unit-counit should cancel");

    assert!(layer1.blocks().is_empty(), "self should have no blocks after unit-counit cancel");
    assert!(layer2.blocks().is_empty(), "next should have no blocks after unit-counit cancel");
    assert!(layer1.left_type().is_empty());
    assert!(layer1.right_type().is_empty());
    assert!(layer2.left_type().is_empty());
    assert!(layer2.right_type().is_empty());
}

#[test]
fn test_unit_counit_no_cancel_different_labels() {
    let mut layer1: FrobeniusLayer<char, ()> = FrobeniusLayer::new();
    layer1.append_block(FrobeniusOperation::Unit('a'));

    let mut layer2: FrobeniusLayer<char, ()> = FrobeniusLayer::new();
    layer2.append_block(FrobeniusOperation::Counit('b'));

    let (_, _, mutations) = layer1.two_layer_simplify(&mut layer2);
    assert!(!mutations, "unit(a) and counit(b) should not cancel");
}

#[test]
fn test_spider_fusion() {
    let mut layer1: FrobeniusLayer<char, ()> = FrobeniusLayer::new();
    layer1.append_block(FrobeniusOperation::Spider('z', 1, 2));

    let mut layer2: FrobeniusLayer<char, ()> = FrobeniusLayer::new();
    layer2.append_block(FrobeniusOperation::Spider('z', 2, 1));

    let (self_id, _, mutations) = layer1.two_layer_simplify(&mut layer2);
    assert!(mutations, "spider fusion should mutate");

    assert!(self_id, "Spider(z,1,1) should be identity");
    assert!(layer1.blocks().len() == 1, "expected 1 block, got {}", layer1.blocks().len());
    assert!(
        matches!(layer1.blocks()[0].op(), FrobeniusOperation::Spider('z', 1, 1)),
        "expected Spider(z,1,1)"
    );

    assert!(layer2.blocks().is_empty());
}

#[test]
fn test_spider_fusion_general() {
    let mut layer1: FrobeniusLayer<char, ()> = FrobeniusLayer::new();
    layer1.append_block(FrobeniusOperation::Spider('z', 3, 2));

    let mut layer2: FrobeniusLayer<char, ()> = FrobeniusLayer::new();
    layer2.append_block(FrobeniusOperation::Spider('z', 2, 4));

    let (_, _, mutations) = layer1.two_layer_simplify(&mut layer2);
    assert!(mutations, "spider fusion should mutate");

    assert!(layer1.blocks().len() == 1, "expected 1 block, got {}", layer1.blocks().len());
    assert!(
        matches!(layer1.blocks()[0].op(), FrobeniusOperation::Spider('z', 3, 4)),
        "expected Spider(z,3,4)"
    );
    assert!(layer2.blocks().is_empty());

    assert_eq!(layer1.left_type(), vec!['z'; 3].as_slice());
    assert_eq!(layer1.right_type(), vec!['z'; 4].as_slice());
}

#[test]
fn test_spider_no_fusion_different_labels() {
    let mut layer1: FrobeniusLayer<char, ()> = FrobeniusLayer::new();
    layer1.append_block(FrobeniusOperation::Spider('a', 1, 2));

    let mut layer2: FrobeniusLayer<char, ()> = FrobeniusLayer::new();
    layer2.append_block(FrobeniusOperation::Spider('b', 2, 1));

    let (_, _, mutations) = layer1.two_layer_simplify(&mut layer2);
    assert!(!mutations, "spiders with different labels should not fuse");
}

#[test]
fn test_braiding_cancel_via_compose() {
    let braiding1: FrobeniusMorphism<char, ()> = FrobeniusOperation::SymmetricBraiding('a', 'b').into();
    let braiding2: FrobeniusMorphism<char, ()> = FrobeniusOperation::SymmetricBraiding('b', 'a').into();

    let mut composed = braiding1;
    composed.compose(braiding2).unwrap();

    assert_eq!(composed.domain(), vec!['a', 'b']);
    assert_eq!(composed.codomain(), vec!['a', 'b']);
    assert!(
        composed.depth() <= 1,
        "braiding self-inverse should simplify depth to at most 1, got {}",
        composed.depth()
    );
}

#[test]
fn test_unit_counit_cancel_via_compose() {
    let unit: FrobeniusMorphism<char, ()> = FrobeniusOperation::Unit('z').into();
    let counit: FrobeniusMorphism<char, ()> = FrobeniusOperation::Counit('z').into();

    let mut composed = unit;
    composed.compose(counit).unwrap();

    assert_eq!(composed.domain(), Vec::<char>::new());
    assert_eq!(composed.codomain(), Vec::<char>::new());
}

/// The braid diagram of a permutation holds only identities and braidings,
/// and its codomain carries `types[i]` at position `p(i)`.
#[test]
fn from_permutation_braids_only() {
    let types = vec!['a', 'b', 'c', 'd'];
    let p = Permutation::rotation_left(4, 1);
    let m: FrobeniusMorphism<char, ()> = FrobeniusMorphism::from_permutation(p.clone(), &types, true).unwrap();
    assert_eq!(m.domain(), types);
    let cod = m.codomain();
    for i in 0..4 {
        assert_eq!(cod[p.apply(i)], types[i]);
    }
    for layer in m.layers() {
        for block in layer.blocks() {
            assert!(matches!(
                block.op(),
                FrobeniusOperation::Identity(_) | FrobeniusOperation::SymmetricBraiding(_, _)
            ));
        }
    }
    let m2: FrobeniusMorphism<char, ()> = FrobeniusMorphism::from_permutation(p.clone(), &types, false).unwrap();
    assert_eq!(m2.codomain(), types);
    assert_eq!(m2.domain(), p.permute(&types));
}

#[test]
fn swap_on_equal_labels_is_a_braiding() {
    let p = Permutation::try_from(vec![1, 0]).unwrap();
    let m: FrobeniusMorphism<char, String> =
        FrobeniusMorphism::from_permutation(p, &['a', 'a'], true).unwrap();
    assert_eq!(m.depth(), 1);
    let ops: Vec<FrobeniusOperation<char, String>> =
        m.layers()[0].blocks().iter().map(|b| b.op().clone()).collect();
    assert_eq!(ops, vec![FrobeniusOperation::SymmetricBraiding('a', 'a')]);
}
