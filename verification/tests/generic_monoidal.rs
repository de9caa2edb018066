use catgraph::category::{ComposableMutating, HasIdentity};
use catgraph::monoidal::{
    layers_composable, Contains, GenericMonoidalMorphism, GenericMonoidalMorphismLayer, Monoidal,
};

#[derive(Clone, PartialEq, Eq, Debug)]
struct SimpleBox {
    input: Vec<char>,
    output: Vec<char>,
}

impl HasIdentity<char> for SimpleBox {
    fn identity(on_this: &char) -> Self {
        SimpleBox { input: vec![*on_this], output: vec![*on_this] }
    }
}

#[test]
fn layer_new() {
    let layer: GenericMonoidalMorphismLayer<SimpleBox, char> = GenericMonoidalMorphismLayer::new();
    assert!(layer.blocks.is_empty());
    assert!(layer.left_type.is_empty());
    assert!(layer.right_type.is_empty());
}

#[test]
fn layer_identity() {
    let types = vec!['a', 'b', 'c'];
    let layer: GenericMonoidalMorphismLayer<SimpleBox, char> =
        GenericMonoidalMorphismLayer::identity(&types);
    assert_eq!(layer.blocks.len(), 3);
    assert_eq!(layer.left_type, types);
    assert_eq!(layer.right_type, types);
}

#[test]
fn layer_monoidal() {
    let layer1: GenericMonoidalMorphismLayer<SimpleBox, char> =
        GenericMonoidalMorphismLayer::identity(&vec!['a']);
    let layer2: GenericMonoidalMorphismLayer<SimpleBox, char> =
        GenericMonoidalMorphismLayer::identity(&vec!['b']);
    let mut combined = layer1;
    combined.monoidal(layer2);
    assert_eq!(combined.blocks.len(), 2);
    assert_eq!(combined.left_type, vec!['a', 'b']);
    assert_eq!(combined.right_type, vec!['a', 'b']);
}

#[test]
fn layer_contained_labels() {
    let types = vec!['a', 'b'];
    let layer: GenericMonoidalMorphismLayer<SimpleBox, char> =
        GenericMonoidalMorphismLayer::identity(&types);
    let labels = layer.contained_labels();
    assert_eq!(labels.len(), 2);
}

#[test]
fn morphism_new() {
    let morphism: GenericMonoidalMorphism<SimpleBox, char> = GenericMonoidalMorphism::new();
    assert_eq!(morphism.depth(), 0);
}

#[test]
fn morphism_identity() {
    let types = vec!['a', 'b'];
    let morphism: GenericMonoidalMorphism<SimpleBox, char> = GenericMonoidalMorphism::identity(&types);
    assert_eq!(morphism.depth(), 1);
    assert_eq!(morphism.domain(), types);
    assert_eq!(morphism.codomain(), types);
}

#[test]
fn morphism_monoidal() {
    let m1: GenericMonoidalMorphism<SimpleBox, char> = GenericMonoidalMorphism::identity(&vec!['a']);
    let m2: GenericMonoidalMorphism<SimpleBox, char> = GenericMonoidalMorphism::identity(&vec!['b']);
    let mut combined = m1;
    combined.monoidal(m2);
    assert_eq!(combined.domain(), vec!['a', 'b']);
    assert_eq!(combined.codomain(), vec!['a', 'b']);
}

#[test]
fn morphism_compose() {
    let types = vec!['a', 'b'];
    let m1: GenericMonoidalMorphism<SimpleBox, char> = GenericMonoidalMorphism::identity(&types);
    let m2: GenericMonoidalMorphism<SimpleBox, char> = GenericMonoidalMorphism::identity(&types);
    let mut composed = m1;
    let result = composed.compose(m2);
    assert!(result.is_ok());
    assert_eq!(composed.depth(), 2);
}

#[test]
fn morphism_compose_mismatch() {
    let m1: GenericMonoidalMorphism<SimpleBox, char> = GenericMonoidalMorphism::identity(&vec!['a']);
    let m2: GenericMonoidalMorphism<SimpleBox, char> = GenericMonoidalMorphism::identity(&vec!['b']);
    let mut composed = m1;
    let result = composed.compose(m2);
    assert!(result.is_err());
}

#[test]
fn morphism_composable() {
    let types = vec!['a'];
    let m1: GenericMonoidalMorphism<SimpleBox, char> = GenericMonoidalMorphism::identity(&types);
    let m2: GenericMonoidalMorphism<SimpleBox, char> = GenericMonoidalMorphism::identity(&types);
    assert!(m1.composable(&m2).is_ok());
    let m3: GenericMonoidalMorphism<SimpleBox, char> = GenericMonoidalMorphism::identity(&vec!['b']);
    assert!(m1.composable(&m3).is_err());
}

#[test]
fn morphism_extract_layers() {
    let types = vec!['a', 'b'];
    let morphism: GenericMonoidalMorphism<SimpleBox, char> = GenericMonoidalMorphism::identity(&types);
    let layers = morphism.extract_layers();
    assert_eq!(layers.len(), 1);
}

#[test]
fn morphism_contained_labels() {
    let types = vec!['a', 'b'];
    let morphism: GenericMonoidalMorphism<SimpleBox, char> = GenericMonoidalMorphism::identity(&types);
    let labels = morphism.contained_labels();
    assert_eq!(labels.len(), 2);
}

#[test]
fn morphism_append_layer() {
    let types = vec!['a'];
    let mut morphism: GenericMonoidalMorphism<SimpleBox, char> =
        GenericMonoidalMorphism::identity(&types);
    let layer: GenericMonoidalMorphismLayer<SimpleBox, char> =
        GenericMonoidalMorphismLayer::identity(&types);
    let result = morphism.append_layer(layer);
    assert!(result.is_ok());
    assert_eq!(morphism.depth(), 2);
}

#[test]
fn morphism_append_layer_empty() {
    let types = vec!['a'];
    let mut morphism: GenericMonoidalMorphism<SimpleBox, char> = GenericMonoidalMorphism::new();
    let layer: GenericMonoidalMorphismLayer<SimpleBox, char> =
        GenericMonoidalMorphismLayer::identity(&types);
    let result = morphism.append_layer(layer);
    assert!(result.is_ok());
    assert_eq!(morphism.depth(), 1);
}

#[test]
fn layers_composable_both_empty() {
    let l: Vec<GenericMonoidalMorphismLayer<SimpleBox, char>> = vec![];
    let r: Vec<GenericMonoidalMorphismLayer<SimpleBox, char>> = vec![];
    assert!(layers_composable(&l, &r).is_ok());
}

#[test]
fn layers_composable_one_empty() {
    let types = vec!['a'];
    let layer: GenericMonoidalMorphismLayer<SimpleBox, char> =
        GenericMonoidalMorphismLayer::identity(&types);
    let l = vec![layer];
    let r: Vec<GenericMonoidalMorphismLayer<SimpleBox, char>> = vec![];
    assert!(layers_composable(&l, &r).is_err());
}

#[test]
fn monoidal_different_depths() {
    let mut m1: GenericMonoidalMorphism<SimpleBox, char> = GenericMonoidalMorphism::identity(&vec!['a']);
    let mut m2: GenericMonoidalMorphism<SimpleBox, char> = GenericMonoidalMorphism::identity(&vec!['b']);
    let m2_copy: GenericMonoidalMorphism<SimpleBox, char> = GenericMonoidalMorphism::identity(&vec!['b']);
    let _ = m2.compose(m2_copy);
    m1.monoidal(m2);
    assert_eq!(m1.domain(), vec!['a', 'b']);
}

#[test]
fn monoidal_different_depths_pads_with_identities() {
    let mut m1: GenericMonoidalMorphism<SimpleBox, char> = GenericMonoidalMorphism::identity(&vec!['a']);
    let mut m2: GenericMonoidalMorphism<SimpleBox, char> = GenericMonoidalMorphism::identity(&vec!['b']);
    let m2_copy: GenericMonoidalMorphism<SimpleBox, char> = GenericMonoidalMorphism::identity(&vec!['b']);
    m2.compose(m2_copy).unwrap();
    m1.monoidal(m2);
    assert_eq!(m1.depth(), 2);
    assert_eq!(m1.codomain(), vec!['a', 'b']);
    let layers = m1.extract_layers();
    assert_eq!(layers[1].blocks.len(), 2);
    assert_eq!(layers[1].blocks[1], SimpleBox { input: vec!['b'], output: vec!['b'] });
}

#[test]
fn compose_mismatch_keeps_layers() {
    let mut m1: GenericMonoidalMorphism<SimpleBox, char> = GenericMonoidalMorphism::identity(&vec!['a']);
    let other: GenericMonoidalMorphism<SimpleBox, char> = GenericMonoidalMorphism::identity(&vec!['b']);
    assert!(m1.compose(other).is_err());
    assert_eq!(m1.depth(), 1);
    assert_eq!(m1.codomain(), vec!['a']);
}
