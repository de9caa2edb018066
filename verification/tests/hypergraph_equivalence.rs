use std::sync::Arc;

use catgraph::category::{Composable, HasIdentity};
use catgraph::cospan::Cospan;
use catgraph::cospan_algebra::{CospanAlgebra, PartitionAlgebra};
use catgraph::equivalence::{comp_cospan, CospanAlgebraMorphism};
use catgraph::hypergraph_category::HypergraphCategory;
use catgraph::monoidal::Monoidal;

type PartMorph = CospanAlgebraMorphism<PartitionAlgebra, char>;

fn part_algebra() -> Arc<PartitionAlgebra> {
    Arc::new(PartitionAlgebra)
}

fn structural_elem(alg: &PartitionAlgebra, cospan_s: &Cospan<char>) -> Cospan<char> {
    alg.map_cospan(cospan_s, &alg.unit()).expect("structural element")
}

#[test]
fn comp_cospan_single_type_each() {
    let comp = comp_cospan(&['a'], &['b'], &['c']);
    assert_eq!(comp.domain(), vec!['a', 'b', 'b', 'c']);
    assert_eq!(comp.codomain(), vec!['a', 'c']);
    assert_eq!(comp.middle(), &['a', 'b', 'c']);
}

#[test]
fn comp_cospan_multi_type() {
    let comp = comp_cospan(&['a', 'b'], &['c'], &['d', 'e']);
    assert_eq!(comp.domain(), vec!['a', 'b', 'c', 'c', 'd', 'e']);
    assert_eq!(comp.codomain(), vec!['a', 'b', 'd', 'e']);
    assert_eq!(comp.middle(), &['a', 'b', 'c', 'd', 'e']);
}

#[test]
fn comp_cospan_empty_y() {
    let comp = comp_cospan(&['a'], &[], &['b']);
    assert_eq!(comp.domain(), vec!['a', 'b']);
    assert_eq!(comp.codomain(), vec!['a', 'b']);
}

#[test]
fn comp_cospan_empty_x_and_z() {
    let comp = comp_cospan::<char>(&[], &['a'], &[]);
    assert_eq!(comp.domain(), vec!['a', 'a']);
    assert!(comp.codomain().is_empty());
    assert_eq!(comp.middle(), &['a']);
}

#[test]
fn comp_cospan_legs() {
    let comp = comp_cospan(&['a'], &['b', 'c'], &['d']);
    assert_eq!(comp.left_to_middle(), &[0, 1, 2, 1, 2, 3]);
    assert_eq!(comp.right_to_middle(), &[0, 3]);
}

#[test]
fn identity_domain_codomain() {
    let alg = part_algebra();
    let id = PartMorph::identity_in(Arc::clone(&alg), &['a', 'b']);
    assert_eq!(id.domain(), vec!['a', 'b']);
    assert_eq!(id.codomain(), vec!['a', 'b']);
}

#[test]
fn identity_empty_object() {
    let alg = part_algebra();
    let id = PartMorph::identity_in(Arc::clone(&alg), &[]);
    assert!(id.domain().is_empty());
    assert!(id.codomain().is_empty());
}

#[test]
fn identity_element_is_cup() {
    let alg = part_algebra();
    let id = PartMorph::identity_in(Arc::clone(&alg), &['a', 'b']);
    assert_eq!(id.element().codomain(), vec!['a', 'b', 'a', 'b']);
    assert!(id.element().domain().is_empty());
}

#[test]
fn compose_types() {
    let alg = part_algebra();
    let s_ab = Cospan::new(vec![], vec![0, 1], vec!['a', 'b']);
    let s_bc = Cospan::new(vec![], vec![0, 1], vec!['b', 'c']);
    let f = PartMorph::new(Arc::clone(&alg), structural_elem(&alg, &s_ab), vec!['a'], vec!['b']);
    let g = PartMorph::new(Arc::clone(&alg), structural_elem(&alg, &s_bc), vec!['b'], vec!['c']);
    let fg = f.compose(&g).unwrap();
    assert_eq!(fg.domain(), vec!['a']);
    assert_eq!(fg.codomain(), vec!['c']);
}

#[test]
fn compose_mismatched_fails() {
    let alg = part_algebra();
    let s_ab = Cospan::new(vec![], vec![0, 1], vec!['a', 'b']);
    let s_cd = Cospan::new(vec![], vec![0, 1], vec!['c', 'd']);
    let f = PartMorph::new(Arc::clone(&alg), structural_elem(&alg, &s_ab), vec!['a'], vec!['b']);
    let g = PartMorph::new(Arc::clone(&alg), structural_elem(&alg, &s_cd), vec!['c'], vec!['d']);
    assert!(f.compose(&g).is_err());
}

#[test]
fn compose_mismatch_reports_labels() {
    let alg = part_algebra();
    let f = PartMorph::identity_in(Arc::clone(&alg), &['a']);
    let g = PartMorph::identity_in(Arc::clone(&alg), &['b']);
    let err = f.compose(&g).err().unwrap();
    assert!(matches!(err, catgraph::errors::CatgraphError::CompositionLabelMismatch { index: 0, .. }));
}

#[test]
fn has_identity_via_default() {
    let id = PartMorph::identity(&vec!['x']);
    assert_eq!(id.domain(), vec!['x']);
    assert_eq!(id.codomain(), vec!['x']);
}

#[test]
fn monoidal_product_domain_codomain() {
    let alg = part_algebra();
    let mut f = PartMorph::identity_in(Arc::clone(&alg), &['a']);
    let g = PartMorph::identity_in(Arc::clone(&alg), &['b']);
    f.monoidal(g);
    assert_eq!(f.domain(), vec!['a', 'b']);
    assert_eq!(f.codomain(), vec!['a', 'b']);
}

#[test]
fn monoidal_product_reorders_element() {
    let alg = part_algebra();
    let mut f = PartMorph::identity_in(Arc::clone(&alg), &['a']);
    let g = PartMorph::identity_in(Arc::clone(&alg), &['b']);
    f.monoidal(g);
    assert_eq!(f.element().codomain(), vec!['a', 'b', 'a', 'b']);
}

#[test]
fn frobenius_unit_types() {
    let alg = part_algebra();
    let eta = PartMorph::unit_in(Arc::clone(&alg), 'a');
    assert!(eta.domain().is_empty());
    assert_eq!(eta.codomain(), vec!['a']);
}

#[test]
fn frobenius_counit_types() {
    let alg = part_algebra();
    let eps = PartMorph::counit_in(Arc::clone(&alg), 'a');
    assert_eq!(eps.domain(), vec!['a']);
    assert!(eps.codomain().is_empty());
}

#[test]
fn frobenius_multiplication_types() {
    let alg = part_algebra();
    let mu = PartMorph::multiplication_in(Arc::clone(&alg), 'a');
    assert_eq!(mu.domain(), vec!['a', 'a']);
    assert_eq!(mu.codomain(), vec!['a']);
}

#[test]
fn frobenius_comultiplication_types() {
    let alg = part_algebra();
    let delta = PartMorph::comultiplication_in(Arc::clone(&alg), 'a');
    assert_eq!(delta.domain(), vec!['a']);
    assert_eq!(delta.codomain(), vec!['a', 'a']);
}

#[test]
fn special_frobenius_in_h_part() {
    let alg = part_algebra();
    let delta = PartMorph::comultiplication_in(Arc::clone(&alg), 'a');
    let mu = PartMorph::multiplication_in(Arc::clone(&alg), 'a');
    let result = delta.compose(&mu).unwrap();
    assert_eq!(result.domain(), vec!['a']);
    assert_eq!(result.codomain(), vec!['a']);
}

#[test]
fn cup_and_cap_in_h_part() {
    let cup = PartMorph::cup('a').unwrap();
    assert!(cup.domain().is_empty());
    assert_eq!(cup.codomain(), vec!['a', 'a']);
    let cap = PartMorph::cap('a').unwrap();
    assert_eq!(cap.domain(), vec!['a', 'a']);
    assert!(cap.codomain().is_empty());
}

#[test]
fn multiplication_element_is_structural_cospan() {
    let alg = part_algebra();
    let mu = PartMorph::multiplication_in(Arc::clone(&alg), 'a');
    assert!(mu.element().domain().is_empty());
    assert_eq!(mu.element().codomain(), vec!['a', 'a', 'a']);
}

#[test]
fn composite_element_is_action_on_product() {
    let alg = part_algebra();
    let mu = PartMorph::multiplication_in(Arc::clone(&alg), 'a');
    let eps = PartMorph::counit_in(Arc::clone(&alg), 'a');
    let c = mu.compose(&eps).unwrap();
    let product = alg.lax_monoidal(mu.element(), eps.element());
    let comp = comp_cospan(&['a', 'a'], &['a'], &[]);
    let expected = alg.map_cospan(&comp, &product).unwrap();
    assert_eq!(c.element().domain(), expected.domain());
    assert_eq!(c.element().codomain(), expected.codomain());
    assert_eq!(c.element().middle(), expected.middle());
}

#[test]
fn compose_mismatch_names_both_words() {
    let alg = part_algebra();
    let f = PartMorph::identity_in(Arc::clone(&alg), &['a']);
    let g = PartMorph::identity_in(Arc::clone(&alg), &['b']);
    let err = f.compose(&g).err().unwrap();
    assert_eq!(
        err,
        catgraph::errors::CatgraphError::CompositionLabelMismatch {
            index: 0,
            expected: format!("{:?}", vec!['a']),
            actual: format!("{:?}", vec!['b']),
        }
    );
}

#[test]
fn monoidal_with_empty_morphism_takes_the_product() {
    let alg = part_algebra();
    let mut mu = PartMorph::multiplication_in(Arc::clone(&alg), 'a');
    let empty = PartMorph::identity_in(Arc::clone(&alg), &[]);
    let product = alg.lax_monoidal(mu.element(), empty.element());
    mu.monoidal(empty);
    assert_eq!(mu.domain(), vec!['a', 'a']);
    assert_eq!(mu.codomain(), vec!['a']);
    assert_eq!(mu.element().middle(), product.middle());
    assert_eq!(mu.element().codomain(), product.codomain());
}
