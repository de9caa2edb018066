use catgraph::category::HasIdentity;
use catgraph::errors::CatgraphError;
use catgraph::frobenius::{special_frobenius_morphism, FrobeniusMorphism, FrobeniusOperation};
use catgraph::frobenius_interpret::Frobenius;

type FM = FrobeniusMorphism<char, String>;

fn refuse_boxes(_: &String, _: &[char], _: &[char]) -> Result<FM, CatgraphError> {
    Err(CatgraphError::Interpret { context: String::new() })
}

#[test]
fn generators_interpret_as_themselves() {
    for op in [
        FrobeniusOperation::Unit('a'),
        FrobeniusOperation::Counit('a'),
        FrobeniusOperation::Multiplication('a'),
        FrobeniusOperation::Comultiplication('a'),
        FrobeniusOperation::Identity('a'),
        FrobeniusOperation::SymmetricBraiding('a', 'b'),
        FrobeniusOperation::Spider('a', 2, 3),
        FrobeniusOperation::UnSpecifiedBox("f".to_string(), vec!['a'], vec!['b']),
    ] {
        let m = FM::basic_interpret(&op, &refuse_boxes).unwrap();
        assert_eq!(m, op.clone().into());
    }
}

#[test]
fn generator_constructors() {
    assert_eq!(FM::interpret_unit('q'), FrobeniusOperation::Unit('q').into());
    assert_eq!(FM::interpret_counit('q'), FrobeniusOperation::Counit('q').into());
    assert_eq!(FM::interpret_multiplication('q'), FrobeniusOperation::Multiplication('q').into());
    assert_eq!(FM::interpret_comultiplication('q'), FrobeniusOperation::Comultiplication('q').into());
}

#[test]
fn diagrams_interpret_as_their_copies() {
    let d: FM = special_frobenius_morphism(3, 2, 'q');
    assert_eq!(FM::interpret_frob(&d, &refuse_boxes).unwrap(), d);
    let empty_layer: FM = FrobeniusMorphism::identity(&vec![]);
    assert_eq!(FM::interpret_frob(&empty_layer, &refuse_boxes).unwrap(), empty_layer);
}

#[test]
fn flipping_twice_gives_the_diagram_back() {
    let d: FM = special_frobenius_morphism(3, 2, 'q');
    let mut twice = d.clone();
    twice.hflip(&|l: String| l);
    twice.hflip(&|l: String| l);
    assert_eq!(twice, d);
}
