use catgraph::category::{Composable, HasIdentity};
use catgraph::cospan::Cospan;
use catgraph::monoidal::{Monoidal, SymmetricMonoidalMorphism};
use catgraph::span::Span;
use permutations::Permutation;

#[test]
fn span_from_permutation_identity_domain() {
    let types = vec!['a', 'b', 'c'];
    let id_perm = Permutation::identity(3);
    let span = Span::from_permutation(id_perm, &types, true).unwrap();

    assert_eq!(span.domain(), types);
    assert_eq!(span.codomain(), types);
    assert_eq!(span.middle_to_left(), vec![0, 1, 2]);
    assert_eq!(span.middle_to_right(), vec![0, 1, 2]);
}

#[test]
fn span_from_permutation_identity_codomain() {
    let types = vec!['x', 'y'];
    let id_perm = Permutation::identity(2);
    let span = Span::from_permutation(id_perm, &types, false).unwrap();

    assert_eq!(span.domain(), types);
    assert_eq!(span.codomain(), types);
    assert_eq!(span.middle_to_left(), vec![0, 1]);
    assert_eq!(span.middle_to_right(), vec![0, 1]);
}

#[test]
fn span_from_permutation_rotation_domain() {
    let types = vec!['a', 'b', 'c'];
    let rot = Permutation::rotation_left(3, 1);
    let span = Span::from_permutation(rot, &types, true).unwrap();

    assert_eq!(span.domain(), vec!['a', 'b', 'c']);
    assert_eq!(span.codomain().len(), 3);
    for (left_idx, right_idx) in span.middle_pairs().iter().copied() {
        assert_eq!(span.left()[left_idx], span.right()[right_idx]);
    }
}

#[test]
fn span_from_permutation_rotation_codomain() {
    let types = vec!['a', 'b', 'c'];
    let rot = Permutation::rotation_left(3, 1);
    let span = Span::from_permutation(rot, &types, false).unwrap();

    assert_eq!(span.codomain(), vec!['a', 'b', 'c']);
    assert_eq!(span.domain().len(), 3);
    for (left_idx, right_idx) in span.middle_pairs().iter().copied() {
        assert_eq!(span.left()[left_idx], span.right()[right_idx]);
    }
}

/// With the types on the domain, codomain position `p(i)` carries `types[i]`.
#[test]
fn span_from_permutation_places_labels() {
    let types = vec!['a', 'b', 'c'];
    let rot = Permutation::rotation_left(3, 1);
    let span = Span::from_permutation(rot.clone(), &types, true).unwrap();
    for i in 0..3 {
        assert_eq!(span.right()[rot.apply(i)], types[i]);
    }
    assert_eq!(span.middle_pairs(), &[(0, 1), (1, 2), (2, 0)]);
    assert!(span.is_left_identity());
    assert!(!span.is_right_identity());
}

/// An involution on the codomain of a span keeps its pairs linking equal labels.
#[test]
fn span_permute_side_codomain_by_swap() {
    let mut span = Span::new(vec!['a', 'b'], vec!['a', 'b'], vec![(0, 0), (1, 1)]);
    let swap = Permutation::transposition(2, 0, 1);
    span.permute_side(&swap, true);
    assert_eq!(span.right(), &['b', 'a']);
    assert_eq!(span.middle_pairs(), &[(0, 1), (1, 0)]);
    assert!(!span.is_right_identity());
}

#[test]
fn span_tensor_combines_middle_pairs() {
    let s1 = Span::<char>::identity(&vec!['a', 'b']);
    let s2 = Span::<char>::identity(&vec!['c']);

    let mut product = s1.clone();
    product.monoidal(s2.clone());

    assert_eq!(product.left(), &['a', 'b', 'c'], "tensor left");
    assert_eq!(product.right(), &['a', 'b', 'c'], "tensor right");
    assert_eq!(product.middle_pairs(), &[(0, 0), (1, 1), (2, 2)], "tensor middle_pairs");

    let s3 = Span::new(vec!['x', 'y'], vec!['y', 'x'], vec![(0, 1), (1, 0)]);

    let mut s1_s3 = s1;
    s1_s3.monoidal(s3);

    assert_eq!(s1_s3.left(), &['a', 'b', 'x', 'y'], "non-trivial tensor left");
    assert_eq!(s1_s3.right(), &['a', 'b', 'y', 'x'], "non-trivial tensor right");
    assert_eq!(s1_s3.middle_pairs(), &[(0, 0), (1, 1), (2, 3), (3, 2)], "non-trivial tensor middle_pairs");
}

fn sample_cospan_abc() -> Cospan<char> {
    Cospan::new(vec![0, 1], vec![1, 2], vec!['a', 'b', 'c'])
}

fn sample_cospan_xy() -> Cospan<char> {
    Cospan::new(vec![0], vec![0, 1], vec!['x', 'y'])
}

fn sample_cospan_pq() -> Cospan<char> {
    Cospan::new(vec![0, 1], vec![0], vec!['p', 'q'])
}

fn assert_cospan_shape(a: &Cospan<char>, b: &Cospan<char>, what: &str) {
    assert_eq!(a.left_to_middle(), b.left_to_middle(), "{what}: left leg");
    assert_eq!(a.right_to_middle(), b.right_to_middle(), "{what}: right leg");
    assert_eq!(a.middle(), b.middle(), "{what}: middle");
}

#[test]
fn tensor_associativity_cospan() {
    let f = sample_cospan_abc();
    let g = sample_cospan_xy();
    let h = sample_cospan_pq();

    let mut fg = f.clone();
    fg.monoidal(g.clone());
    let mut fg_h = fg.clone();
    fg_h.monoidal(h.clone());

    let mut gh = g.clone();
    gh.monoidal(h.clone());
    let mut f_gh = f.clone();
    f_gh.monoidal(gh);

    assert_cospan_shape(&fg_h, &f_gh, "tensor associativity");
}

#[test]
fn tensor_unit_cospan() {
    let f = sample_cospan_abc();
    let unit = Cospan::<char>::empty();

    let mut left = unit.clone();
    left.monoidal(f.clone());
    assert_cospan_shape(&left, &f, "left unit");

    let mut right = f.clone();
    right.monoidal(unit);
    assert_cospan_shape(&right, &f, "right unit");
}

#[test]
fn permutation_cospan_compose() {
    let types: Vec<char> = vec!['a', 'a', 'a'];
    let p1 = Permutation::rotation_left(3, 1);
    let p2 = Permutation::transposition(3, 0, 2);

    let c1 = Cospan::from_permutation(p1.clone(), &types, true).unwrap();
    let c2 = Cospan::from_permutation(p2.clone(), &types, true).unwrap();

    assert!(c1.composable(&c2).is_ok(), "c1;c2 should be composable");

    let composed = c1.compose(&c2).expect("compose should succeed");

    let p12 = p1 * p2;
    let expected = Cospan::from_permutation(p12, &types, true).unwrap();

    assert_eq!(composed.domain(), expected.domain(), "domain after compose");
    assert_eq!(composed.codomain(), expected.codomain(), "codomain after compose");

    let mid_len = composed.middle().len();
    assert!(mid_len >= types.len(), "middle should have at least {n} nodes, got {mid_len}", n = types.len());

    composed.assert_valid(false, true);
}

#[test]
fn symmetric_braiding_involutive() {
    let types: Vec<char> = vec!['a', 'a'];
    let swap = Permutation::transposition(2, 0, 1);
    let sigma = Cospan::from_permutation(swap.clone(), &types, true).unwrap();

    assert!(sigma.composable(&sigma).is_ok(), "swap should be self-composable");
    let sigma_sq = sigma.compose(&sigma).expect("compose should succeed");

    let id = Cospan::<char>::identity(&types);

    assert_eq!(sigma_sq.domain(), id.domain(), "domain");
    assert_eq!(sigma_sq.codomain(), id.codomain(), "codomain");

    for i in 0..types.len() {
        assert_eq!(
            sigma_sq.left_to_middle()[i],
            sigma_sq.right_to_middle()[i],
            "wire {i} should connect domain and codomain to the same middle node"
        );
    }

    sigma_sq.assert_valid(false, true);
}

#[test]
fn permute_side_reorders_domain() {
    let types = vec!['a', 'b', 'c'];
    let mut c = Cospan::<char>::identity(&types);

    assert_eq!(c.domain(), vec!['a', 'b', 'c']);
    assert_eq!(c.left_to_middle(), &[0, 1, 2]);

    let rot = Permutation::rotation_left(3, 1);
    c.permute_side(&rot, false);

    let new_domain = c.domain();
    assert_eq!(new_domain.len(), 3, "domain size unchanged");

    assert_ne!(c.left_to_middle(), &[0, 1, 2], "left leg should no longer be identity");
    assert!(!c.is_left_identity(), "left identity flag should be cleared");

    assert_eq!(c.codomain(), vec!['a', 'b', 'c'], "codomain unchanged");
    assert_eq!(c.right_to_middle(), &[0, 1, 2], "right leg unchanged");
    assert!(c.is_right_identity(), "right identity flag preserved");
}
