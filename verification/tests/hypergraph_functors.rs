use catgraph::category::{Composable, HasIdentity};
use catgraph::cospan::Cospan;
use catgraph::hypergraph_functor::{HypergraphFunctor, RelabelingFunctor};

fn char_to_u32(c: char) -> u32 {
    c as u32
}

#[test]
fn relabeling_map_ob() {
    let f = RelabelingFunctor::new(char_to_u32);
    assert_eq!(f.map_ob('a'), 97);
    assert_eq!(f.map_ob('z'), 122);
}

#[test]
fn relabeling_map_mor_identity() {
    let f = RelabelingFunctor::new(char_to_u32);
    let id = Cospan::<char>::identity(&vec!['a', 'b']);
    let mapped = f.map_mor(&id).unwrap();
    assert_eq!(mapped.domain(), vec![97, 98]);
    assert_eq!(mapped.codomain(), vec![97, 98]);
    assert!(mapped.is_left_identity());
    assert!(mapped.is_right_identity());
}

#[test]
fn relabeling_map_mor_preserves_structure() {
    let f = RelabelingFunctor::new(char_to_u32);
    let merge = Cospan::new(vec![0, 0], vec![0], vec!['a']);
    let mapped = f.map_mor(&merge).unwrap();
    assert_eq!(mapped.left_to_middle(), merge.left_to_middle());
    assert_eq!(mapped.right_to_middle(), merge.right_to_middle());
    assert_eq!(mapped.middle(), &[97]);
}

#[test]
fn relabeling_empty_cospan() {
    let f = RelabelingFunctor::new(char_to_u32);
    let empty = Cospan::<char>::empty();
    let mapped = f.map_mor(&empty).unwrap();
    assert!(mapped.domain().is_empty());
    assert!(mapped.codomain().is_empty());
    assert!(mapped.middle().is_empty());
}

#[test]
fn relabeling_commutes_with_composition() {
    let f = RelabelingFunctor::new(char_to_u32);
    let merge = Cospan::new(vec![0, 0], vec![0], vec!['a']);
    let split = Cospan::new(vec![0], vec![0, 0], vec!['a']);
    let composite = merge.compose(&split).unwrap();
    let image_of_composite = f.map_mor(&composite).unwrap();
    let composite_of_images = f.map_mor(&merge).unwrap().compose(&f.map_mor(&split).unwrap()).unwrap();
    assert_eq!(image_of_composite.left_to_middle(), composite_of_images.left_to_middle());
    assert_eq!(image_of_composite.right_to_middle(), composite_of_images.right_to_middle());
    assert_eq!(image_of_composite.middle(), composite_of_images.middle());
}
