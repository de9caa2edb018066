use catgraph::category::{Composable, HasIdentity};
use catgraph::cospan::Cospan;
use catgraph::category::ComposableMutating;
use catgraph::compact_closed::cup_single;
use catgraph::cospan_algebra::{cospan_to_frobenius, CospanAlgebra, NameAlgebra, PartitionAlgebra};
use catgraph::frobenius::{FrobeniusMorphism, FrobeniusOperation};

#[test]
fn partition_unit_is_empty_cospan() {
    let alg = PartitionAlgebra;
    let u: Cospan<char> = alg.unit();
    assert!(u.domain().is_empty());
    assert!(u.codomain().is_empty());
}

#[test]
fn partition_identity_cospan_preserves_element() {
    let alg = PartitionAlgebra;
    let element = Cospan::new(vec![], vec![0, 1], vec!['a', 'b']);
    let id = Cospan::<char>::identity(&vec!['a', 'b']);
    let mapped = alg.map_cospan(&id, &element).unwrap();
    assert_eq!(mapped.domain(), element.domain());
    assert_eq!(mapped.codomain(), element.codomain());
}

#[test]
fn partition_composition_is_sequential() {
    let alg = PartitionAlgebra;
    let element = Cospan::new(vec![], vec![0], vec!['a']);
    let c1 = Cospan::<char>::identity(&vec!['a']);
    let mapped = alg.map_cospan(&c1, &element).unwrap();
    assert_eq!(mapped.codomain(), vec!['a']);
}

#[test]
fn partition_lax_monoidal_is_tensor() {
    let alg = PartitionAlgebra;
    let a = Cospan::new(vec![], vec![0], vec!['a']);
    let b = Cospan::new(vec![], vec![0], vec!['b']);
    let combined = alg.lax_monoidal(&a, &b);
    assert!(combined.domain().is_empty());
    assert_eq!(combined.codomain(), vec!['a', 'b']);
}

#[test]
fn partition_map_rejects_wrong_word() {
    let alg = PartitionAlgebra;
    let element = Cospan::new(vec![], vec![0], vec!['a']);
    let c = Cospan::<char>::identity(&vec!['b']);
    let err = alg.map_cospan(&c, &element).err().unwrap();
    assert!(matches!(err, catgraph::errors::CatgraphError::Composition { .. }));
}

#[test]
fn partition_merge_glues_groups() {
    let alg = PartitionAlgebra;
    // [] -> [a, a] with two separate groups, then merge both into one.
    let element = Cospan::new(vec![], vec![0, 1], vec!['a', 'a']);
    let merge = Cospan::new(vec![0, 0], vec![0], vec!['a']);
    let mapped = alg.map_cospan(&merge, &element).unwrap();
    assert_eq!(mapped.codomain(), vec!['a']);
    assert_eq!(mapped.middle().len(), 1);
}

type FM = FrobeniusMorphism<char, String>;

#[test]
fn name_unit_is_empty_identity() {
    let alg = NameAlgebra::<String>::new();
    let u: FM = alg.unit();
    assert!(u.domain().is_empty());
    assert!(u.codomain().is_empty());
}

#[test]
fn name_identity_cospan_preserves_element() {
    let alg = NameAlgebra::<String>::new();
    // element: [] → [a] (a named morphism — use unit η: [] → [a])
    let element: FM = FrobeniusOperation::Unit('a').into();
    let id_cospan = Cospan::<char>::identity(&vec!['a']);
    let mapped = alg.map_cospan(&id_cospan, &element).unwrap();
    assert_eq!(mapped.domain(), element.domain());
    assert_eq!(mapped.codomain(), element.codomain());
}

#[test]
fn name_lax_monoidal_is_tensor() {
    let alg = NameAlgebra::<String>::new();
    let a: FM = FrobeniusOperation::Unit('a').into();
    let b: FM = FrobeniusOperation::Unit('b').into();
    let combined = alg.lax_monoidal(&a, &b);
    assert!(combined.domain().is_empty());
    assert_eq!(combined.codomain(), vec!['a', 'b']);
}

#[test]
fn name_map_through_merge_cospan() {
    let alg = NameAlgebra::<String>::new();
    // element: [] → [a, a] (name of something with codomain [a,a])
    let element: FM = cup_single('a');
    assert!(element.domain().is_empty());
    assert_eq!(element.codomain(), vec!['a', 'a']);

    // merge cospan: [a, a] → [a] (both inputs map to same middle node)
    let merge = Cospan::new(vec![0, 0], vec![0], vec!['a']);
    let mapped = alg.map_cospan(&merge, &element).unwrap();
    assert!(mapped.domain().is_empty());
    assert_eq!(mapped.codomain(), vec!['a']);
}

#[test]
fn cospan_to_frobenius_identity() {
    let id = Cospan::<char>::identity(&vec!['a', 'b']);
    let morph: FM = cospan_to_frobenius(&id).unwrap();
    assert_eq!(morph.domain(), vec!['a', 'b']);
    assert_eq!(morph.codomain(), vec!['a', 'b']);
}

#[test]
fn cospan_to_frobenius_merge() {
    // [a, a] → [a]: both left nodes map to middle node 0
    let merge = Cospan::new(vec![0, 0], vec![0], vec!['a']);
    let morph: FM = cospan_to_frobenius(&merge).unwrap();
    assert_eq!(morph.domain(), vec!['a', 'a']);
    assert_eq!(morph.codomain(), vec!['a']);
}

#[test]
fn cospan_to_frobenius_split() {
    // [a] → [a, a]: right nodes both map to middle node 0
    let split = Cospan::new(vec![0], vec![0, 0], vec!['a']);
    let morph: FM = cospan_to_frobenius(&split).unwrap();
    assert_eq!(morph.domain(), vec!['a']);
    assert_eq!(morph.codomain(), vec!['a', 'a']);
}

#[test]
fn name_identity_cospan_rejects_other_word() {
    let alg = NameAlgebra::<String>::new();
    let element: FM = FrobeniusOperation::Unit('a').into();
    let id_cospan = Cospan::<char>::identity(&vec!['b']);
    assert!(alg.map_cospan(&id_cospan, &element).is_err());
}
