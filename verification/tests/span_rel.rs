use std::collections::HashSet;

use catgraph::category::{Composable, HasIdentity};
use catgraph::monoidal::Monoidal;
use catgraph::span::{Either, Rel, Span};

#[test]
fn span_new_and_accessors() {
    let left = vec!['a', 'b'];
    let right = vec!['a', 'b'];
    let middle = vec![(0, 0), (1, 1)];
    let span = Span::new(left.clone(), right.clone(), middle);
    assert_eq!(span.domain(), left);
    assert_eq!(span.codomain(), right);
    assert_eq!(span.middle_to_left(), vec![0, 1]);
    assert_eq!(span.middle_to_right(), vec![0, 1]);
}

#[test]
fn span_identity() {
    let types = vec!['x', 'y', 'z'];
    let id = Span::identity(&types);
    assert_eq!(id.domain(), types);
    assert_eq!(id.codomain(), types);
    assert_eq!(id.middle_to_left(), vec![0, 1, 2]);
    assert_eq!(id.middle_to_right(), vec![0, 1, 2]);
    assert!(id.is_jointly_injective());
}

#[test]
fn span_compose_identity() {
    let types = vec!['a', 'b'];
    let id = Span::identity(&types);
    let result = id.compose(&id);
    assert!(result.is_ok());
    let composed = result.unwrap();
    assert_eq!(composed.domain(), types);
    assert_eq!(composed.codomain(), types);
}

#[test]
fn span_compose_general() {
    let left = vec!['a', 'b'];
    let right = vec!['a', 'b'];
    let f = Span::new(left.clone(), right.clone(), vec![(0, 0), (1, 1)]);
    let g = Span::new(left.clone(), right.clone(), vec![(0, 0), (1, 1)]);
    let result = f.compose(&g);
    assert!(result.is_ok());
}

#[test]
fn span_compose_mismatch() {
    let span1 = Span::new(vec!['a'], vec!['a'], vec![(0, 0)]);
    let span2 = Span::new(vec!['b'], vec!['b'], vec![(0, 0)]);
    let result = span1.compose(&span2);
    assert!(result.is_err());
}

#[test]
fn span_monoidal() {
    let span1 = Span::new(vec!['a'], vec!['a'], vec![(0, 0)]);
    let span2 = Span::new(vec!['b'], vec!['b'], vec![(0, 0)]);
    let mut combined = span1;
    combined.monoidal(span2);
    assert_eq!(combined.domain(), vec!['a', 'b']);
    assert_eq!(combined.codomain(), vec!['a', 'b']);
}

#[test]
fn span_dagger() {
    let span = Span::new(vec!['a', 'b'], vec!['a', 'b'], vec![(0, 0), (1, 1)]);
    let dagger = span.dagger();
    assert_eq!(dagger.domain(), vec!['a', 'b']);
    assert_eq!(dagger.codomain(), vec!['a', 'b']);
}

#[test]
fn span_is_jointly_injective() {
    let span1 = Span::new(vec!['a', 'b'], vec!['a', 'b'], vec![(0, 0), (1, 1)]);
    assert!(span1.is_jointly_injective());
    let span2 = Span::new(vec!['a', 'b'], vec!['a', 'b'], vec![(0, 0), (0, 0)]);
    assert!(!span2.is_jointly_injective());
}

#[test]
fn span_add_middle() {
    let mut span = Span::new(vec!['a', 'b'], vec!['a', 'b'], vec![]);
    let result = span.add_middle((0, 0));
    assert!(result.is_ok());
    let result = span.add_middle((0, 1));
    assert!(result.is_err());
}

#[test]
fn span_map() {
    let span = Span::new(vec![1, 2], vec![1, 2], vec![(0, 0), (1, 1)]);
    let mapped = span.map(|x| x * 10);
    assert_eq!(mapped.domain(), vec![10, 20]);
    assert_eq!(mapped.codomain(), vec![10, 20]);
}

#[test]
fn span_add_boundary_node() {
    let mut span = Span::new(vec!['a'], vec!['a'], vec![(0, 0)]);
    let left_idx = span.add_boundary_node(Either::Left('c'));
    assert!(matches!(left_idx, Either::Left(1)));
    let right_idx = span.add_boundary_node(Either::Right('d'));
    assert!(matches!(right_idx, Either::Right(1)));
}

#[test]
fn rel_identity() {
    let types = vec!['a', 'b', 'c'];
    let id = Rel::identity(&types);
    assert_eq!(id.domain(), types);
    assert_eq!(id.codomain(), types);
}

#[test]
fn rel_compose() {
    let types = vec!['a', 'b'];
    let id = Rel::identity(&types);
    let result = id.compose(&id);
    assert!(result.is_ok());
}

#[test]
fn rel_monoidal() {
    let rel1 = Rel::identity(&vec!['a']);
    let rel2 = Rel::identity(&vec!['b']);
    let mut combined = rel1;
    combined.monoidal(rel2);
    assert_eq!(combined.domain(), vec!['a', 'b']);
}

#[test]
fn rel_subsumes() {
    let types = vec!['a', 'b'];
    let full = Rel::new(Span::new(types.clone(), types.clone(), vec![(0, 0), (1, 1)])).unwrap();
    let partial = Rel::new(Span::new(types.clone(), types.clone(), vec![(0, 0)])).unwrap();
    assert!(full.subsumes(&partial).unwrap());
    assert!(!partial.subsumes(&full).unwrap());
}

#[test]
fn rel_intersection() {
    let types = vec!['a', 'b'];
    let rel1 = Rel::new(Span::new(types.clone(), types.clone(), vec![(0, 0), (1, 1)])).unwrap();
    let rel2 = Rel::new(Span::new(types.clone(), types.clone(), vec![(0, 0)])).unwrap();
    let intersect = rel1.intersection(&rel2).unwrap();
    assert_eq!(intersect.as_span().middle_pairs().len(), 1);
}

#[test]
fn rel_union() {
    let types = vec!['a', 'b'];
    let rel1 = Rel::new(Span::new(types.clone(), types.clone(), vec![(0, 0)])).unwrap();
    let rel2 = Rel::new(Span::new(types.clone(), types.clone(), vec![(1, 1)])).unwrap();
    let union = rel1.union(&rel2).unwrap();
    assert_eq!(union.as_span().middle_pairs().len(), 2);
}

#[test]
fn rel_is_homogeneous() {
    let same = Rel::new(Span::new(vec!['a'], vec!['a'], vec![(0, 0)])).unwrap();
    assert!(same.is_homogeneous());
    let diff = Rel::new(Span::new(vec!['a'], vec!['b'], vec![])).unwrap();
    assert!(!diff.is_homogeneous());
}

#[test]
fn rel_is_reflexive() {
    let types = vec!['a', 'b'];
    let reflexive = Rel::identity(&types);
    assert!(reflexive.is_reflexive());
    let same_types = vec!['a', 'a'];
    let not_reflexive =
        Rel::new(Span::new(same_types.clone(), same_types.clone(), vec![(0, 1)])).unwrap();
    assert!(!not_reflexive.is_reflexive());
}

#[test]
fn rel_is_symmetric() {
    let types = vec!['a', 'a'];
    let symmetric = Rel::new(Span::new(types.clone(), types.clone(), vec![(0, 1), (1, 0)])).unwrap();
    assert!(symmetric.is_symmetric());
    let not_symmetric = Rel::new(Span::new(types.clone(), types.clone(), vec![(0, 1)])).unwrap();
    assert!(!not_symmetric.is_symmetric());
}

#[test]
fn rel_is_antisymmetric() {
    let types = vec!['a', 'a'];
    let antisymmetric = Rel::identity(&types);
    assert!(antisymmetric.is_antisymmetric());
}

#[test]
fn rel_is_transitive() {
    let types = vec!['a', 'a', 'a'];
    let transitive = Rel::identity(&types);
    assert!(transitive.is_transitive());
}

#[test]
fn rel_is_equivalence() {
    let types = vec!['a', 'a'];
    let equiv = Rel::identity(&types);
    assert!(equiv.is_equivalence_rel());
}

#[test]
fn rel_is_partial_order() {
    let types = vec!['a', 'a'];
    let po = Rel::identity(&types);
    assert!(po.is_partial_order());
}

#[test]
fn rel_complement_non_square() {
    let domain = vec!['a', 'a', 'a'];
    let codomain = vec!['a', 'a'];
    let pairs = vec![(0, 0), (2, 1)];
    let original_count = pairs.len();
    let rel = Rel::new(Span::new(domain.clone(), codomain.clone(), pairs)).unwrap();
    let comp = rel.complement().expect("complement should succeed");
    let expected_complement_size = 3 * 2 - original_count;
    assert_eq!(
        comp.as_span().middle_pairs().len(),
        expected_complement_size,
        "complement of non-square relation should have source_size*target_size - original_count pairs"
    );
    let comp_pairs: HashSet<(usize, usize)> =
        HashSet::from_iter(comp.as_span().middle_pairs().iter().copied());
    assert!(!comp_pairs.contains(&(0, 0)), "(0,0) was in original");
    assert!(!comp_pairs.contains(&(2, 1)), "(2,1) was in original");
    assert!(comp_pairs.contains(&(0, 1)));
    assert!(comp_pairs.contains(&(1, 0)));
    assert!(comp_pairs.contains(&(1, 1)));
    assert!(comp_pairs.contains(&(2, 0)));
    let double_comp = comp.complement().expect("double complement should succeed");
    let original_pairs: HashSet<(usize, usize)> =
        HashSet::from_iter(rel.as_span().middle_pairs().iter().copied());
    let roundtrip_pairs: HashSet<(usize, usize)> =
        HashSet::from_iter(double_comp.as_span().middle_pairs().iter().copied());
    assert_eq!(original_pairs, roundtrip_pairs, "complement(complement(r)) should equal r");
}

#[test]
fn span_monoidal_identity_flag_tells_the_truth() {
    let mut s = Span::new(vec!['a', 'b'], vec!['a', 'b'], vec![(0, 0)]);
    assert!(s.is_left_identity());
    s.monoidal(Span::identity(&vec!['c']));
    assert_eq!(s.middle_to_left(), vec![0, 2]);
    assert!(!s.is_left_identity());
    assert!(!s.is_right_identity());
    let mut t = Span::new(vec!['a'], vec!['a'], vec![(0, 0)]);
    t.monoidal(Span::identity(&vec!['c']));
    assert!(t.is_left_identity());
    assert!(t.is_right_identity());
}
