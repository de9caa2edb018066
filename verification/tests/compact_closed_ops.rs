use catgraph::category::{ComposableMutating, HasIdentity};
use catgraph::compact_closed::{cap, cap_single, cap_tensor, compose_names, cup, cup_single, cup_tensor, name, unname};
use catgraph::frobenius::{FrobeniusMorphism, FrobeniusOperation};
use catgraph::monoidal::Monoidal;

type FM = FrobeniusMorphism<char, String>;

// --- Per-type cup/cap ---

#[test]
fn cup_single_domain_codomain() {
    let c: FM = cup_single('a');
    assert!(c.domain().is_empty(), "cup domain should be empty (I)");
    assert_eq!(c.codomain(), vec!['a', 'a'], "cup codomain should be [a, a]");
}

#[test]
fn cap_single_domain_codomain() {
    let c: FM = cap_single('a');
    assert_eq!(c.domain(), vec!['a', 'a'], "cap domain should be [a, a]");
    assert!(c.codomain().is_empty(), "cap codomain should be empty (I)");
}

#[test]
fn cup_multi_type_domain_codomain() {
    let c: FM = cup(&['a', 'b']);
    assert!(c.domain().is_empty());
    assert_eq!(c.codomain(), vec!['a', 'a', 'b', 'b']);
}

#[test]
fn cap_multi_type_domain_codomain() {
    let c: FM = cap(&['a', 'b']);
    assert_eq!(c.domain(), vec!['a', 'a', 'b', 'b']);
    assert!(c.codomain().is_empty());
}

#[test]
fn cup_empty_is_identity() {
    let c: FM = cup(&[]);
    assert!(c.domain().is_empty());
    assert!(c.codomain().is_empty());
}

#[test]
fn cap_empty_is_identity() {
    let c: FM = cap(&[]);
    assert!(c.domain().is_empty());
    assert!(c.codomain().is_empty());
}

// --- Zigzag identities ---

#[test]
fn zigzag_right_snake_single_type() {
    let z = 'x';
    let mut left_half: FM = FrobeniusMorphism::identity(&vec![z]);
    left_half.monoidal(cap_single(z));
    let mut right_half: FM = cup_single(z);
    right_half.monoidal(FrobeniusMorphism::identity(&vec![z]));
    let mut snake = right_half;
    snake.compose(left_half).expect("interfaces match");
    assert_eq!(snake.domain(), vec![z]);
    assert_eq!(snake.codomain(), vec![z]);
}

#[test]
fn zigzag_left_snake_single_type() {
    let z = 'x';
    let mut left_half: FM = cap_single(z);
    left_half.monoidal(FrobeniusMorphism::identity(&vec![z]));
    let mut right_half: FM = FrobeniusMorphism::identity(&vec![z]);
    right_half.monoidal(cup_single(z));
    let mut snake = right_half;
    snake.compose(left_half).expect("interfaces match");
    assert_eq!(snake.domain(), vec![z]);
    assert_eq!(snake.codomain(), vec![z]);
}

#[test]
fn zigzag_right_snake_multi_type() {
    for z in ['a', 'b'] {
        let mut right_half: FM = cup_single(z);
        right_half.monoidal(FrobeniusMorphism::identity(&vec![z]));
        let mut left_half: FM = FrobeniusMorphism::identity(&vec![z]);
        left_half.monoidal(cap_single(z));
        let mut snake = right_half;
        snake.compose(left_half).expect("interfaces match");
        assert_eq!(snake.domain(), vec![z]);
        assert_eq!(snake.codomain(), vec![z]);
    }
}

#[test]
fn cap_cup_composition_types() {
    let z = 'q';
    let cap_z: FM = cap_single(z);
    let cup_z: FM = cup_single(z);
    let mut composed = cap_z;
    composed.compose(cup_z).expect("[] interface matches");
    assert_eq!(composed.domain(), vec![z, z]);
    assert_eq!(composed.codomain(), vec![z, z]);
}

// --- Tensor-ordered cup/cap ---

#[test]
fn cup_tensor_single_type() {
    let c: FM = cup_tensor(&['a']);
    assert!(c.domain().is_empty());
    assert_eq!(c.codomain(), vec!['a', 'a']);
}

#[test]
fn cup_tensor_multi_type() {
    let c: FM = cup_tensor(&['a', 'b']);
    assert!(c.domain().is_empty());
    assert_eq!(c.codomain(), vec!['a', 'b', 'a', 'b']);
}

#[test]
fn cup_tensor_three_types() {
    let c: FM = cup_tensor(&['x', 'y', 'z']);
    assert!(c.domain().is_empty());
    assert_eq!(c.codomain(), vec!['x', 'y', 'z', 'x', 'y', 'z']);
}

#[test]
fn cap_tensor_multi_type() {
    let c: FM = cap_tensor(&['a', 'b']);
    assert_eq!(c.domain(), vec!['a', 'b', 'a', 'b']);
    assert!(c.codomain().is_empty());
}

#[test]
fn cup_tensor_cap_tensor_roundtrip() {
    // cup_tensor ; cap_tensor should compose through X⊗X
    let types = &['a', 'b'];
    let mut dim: FM = cup_tensor(types);
    dim.compose(cap_tensor(types)).expect("X⊗X interface");
    assert!(dim.domain().is_empty());
    assert!(dim.codomain().is_empty());
}

// --- Name bijection ---

#[test]
fn name_identity_single_type() {
    let id: FM = FrobeniusMorphism::identity(&vec!['a']);
    let named = name(&id).unwrap();
    assert!(named.domain().is_empty());
    assert_eq!(named.codomain(), vec!['a', 'a']);
}

#[test]
fn name_identity_multi_type() {
    let id: FM = FrobeniusMorphism::identity(&vec!['a', 'b']);
    let named = name(&id).unwrap();
    assert!(named.domain().is_empty());
    assert_eq!(named.codomain(), vec!['a', 'b', 'a', 'b']);
}

#[test]
fn name_unit_morphism() {
    // η: [] → [z] has name cup_[] ; (id_[] ⊗ η) = η : [] → [z]
    let unit: FM = FrobeniusOperation::Unit('a').into();
    let named = name(&unit).unwrap();
    assert!(named.domain().is_empty());
    assert_eq!(named.codomain(), vec!['a']);
}

#[test]
fn unname_roundtrip_single() {
    let z = 'x';
    let id: FM = FrobeniusMorphism::identity(&vec![z]);
    let named = name(&id).unwrap();
    let recovered = unname(&named, 1).unwrap();
    assert_eq!(recovered.domain(), vec![z]);
    assert_eq!(recovered.codomain(), vec![z]);
}

#[test]
fn unname_roundtrip_multi_type() {
    let types = vec!['a', 'b'];
    let id: FM = FrobeniusMorphism::identity(&types);
    let named = name(&id).unwrap();
    let recovered = unname(&named, 2).unwrap();
    assert_eq!(recovered.domain(), types);
    assert_eq!(recovered.codomain(), types);
}

#[test]
fn unname_error_nonempty_domain() {
    let f: FM = FrobeniusMorphism::identity(&vec!['a']);
    assert!(unname(&f, 1).is_err());
}

#[test]
fn unname_error_x_len_too_large() {
    let g: FM = cup_single('a');
    assert!(unname(&g, 5).is_err());
}

// --- Compose names ---

#[test]
fn compose_names_identity_identity() {
    let id: FM = FrobeniusMorphism::identity(&vec!['a']);
    let f_hat = name(&id).unwrap();
    let g_hat = name(&id).unwrap();
    let result = compose_names(&f_hat, &g_hat, 1, 1).unwrap();
    assert!(result.domain().is_empty());
    assert_eq!(result.codomain(), vec!['a', 'a']);
}
