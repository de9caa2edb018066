use catgraph::category::{Composable, HasIdentity};
use catgraph::errors::CatgraphError;
use catgraph::span::Either::{Left, Right};
use catgraph::label::Label;
use catgraph::span::Span;

fn span_eq<L: Label>(a: &Span<L>, b: &Span<L>) -> bool {
    a.left() == b.left() && a.right() == b.right() && a.middle_pairs() == b.middle_pairs()
}

fn assert_span_eq<L: Label>(a: &Span<L>, b: &Span<L>) {
    assert!(
        span_eq(a, b),
        "Spans differ:\n  left:   {:?} vs {:?}\n  right:  {:?} vs {:?}\n  middle: {:?} vs {:?}",
        a.left(),
        b.left(),
        a.right(),
        b.right(),
        a.middle_pairs(),
        b.middle_pairs(),
    );
}

/// Span f: left=['a','b'], right=['a','b'], pairs=[(0,0),(1,1)].
fn span_f() -> Span<char> {
    Span::new(vec!['a', 'b'], vec!['a', 'b'], vec![(0, 0), (1, 1)])
}

/// Span g: swap — left=['a','b'], right=['b','a'], pairs=[(0,1),(1,0)].
fn span_g() -> Span<char> {
    Span::new(vec!['a', 'b'], vec!['b', 'a'], vec![(0, 1), (1, 0)])
}

#[test]
fn span_add_boundary_left_then_compose() {
    // Start with span f: left=['a','b'], right=['a','b'], pairs=[(0,0),(1,1)].
    // Add a left boundary 'c'. Domain becomes ['a','b','c'].
    let mut f = span_f();
    let added = f.add_boundary_node(Left('c'));
    assert_eq!(added, Left(2));

    assert_eq!(f.left(), &['a', 'b', 'c']);
    assert_eq!(f.right(), &['a', 'b']); // unchanged
    // The new left boundary has no middle pair connecting to it yet.

    // Compose with identity on f's codomain (['a','b']).
    let id = Span::<char>::identity(&f.codomain());
    let result = f.compose(&id).expect("span left-add compose");
    // Result domain = f's left = ['a','b','c'].
    assert_eq!(result.left(), &['a', 'b', 'c']);
    assert_eq!(result.right(), &['a', 'b']);
    // Only 2 pairs survive (the 'c' boundary has no connection through middle).
    assert_eq!(result.middle_pairs().len(), 2);
}

#[test]
fn span_add_boundary_right_then_compose() {
    let mut f = span_f();
    let added = f.add_boundary_node(Right('c'));
    assert_eq!(added, Right(2));

    assert_eq!(f.right(), &['a', 'b', 'c']);

    // Compose with identity on f's domain (['a','b']).
    let id = Span::<char>::identity(&f.domain());
    let result = id.compose(&f).expect("id compose span right-add");
    assert_eq!(result.left(), &['a', 'b']);
    assert_eq!(result.right(), &['a', 'b', 'c']);
    assert_eq!(result.middle_pairs().len(), 2);
}

#[test]
fn span_add_middle_valid_matching_types() {
    // left=['a','b'], right=['a','b']. The pair (0,0) links 'a' with 'a'.
    let mut s = Span::new(vec!['a', 'b'], vec!['a', 'b'], vec![]);
    let result = s.add_middle((0, 0));
    assert!(result.is_ok());
    assert_eq!(result.unwrap(), 0);
    assert_eq!(s.middle_pairs().len(), 1);
    assert_eq!(s.middle_pairs()[0], (0, 0));

    // Add another: (1,1): left[1]='b' == right[1]='b'. Valid.
    let result2 = s.add_middle((1, 1));
    assert!(result2.is_ok());
    assert_eq!(result2.unwrap(), 1);
}

#[test]
fn span_add_middle_type_mismatch_returns_error() {
    let mut s = Span::new(vec!['a', 'b'], vec!['a', 'b'], vec![]);
    // Add middle pair (0,1): left[0]='a' != right[1]='b'. Should fail.
    let result = s.add_middle((0, 1));
    assert!(result.is_err());
    match result {
        Err(CatgraphError::Composition { message }) => {
            assert!(message.contains("Mismatched"));
        }
        other => panic!("Expected Composition error, got {other:?}"),
    }
    // The middle should not have grown.
    assert!(s.middle_pairs().is_empty());
}

#[test]
fn span_map_then_compose() {
    let f = span_f(); // left=['a','b'], right=['a','b'], pairs=[(0,0),(1,1)]
    let mapped = f.map(|c| c as u32);

    let g = span_g(); // left=['a','b'], right=['b','a'], pairs=[(0,1),(1,0)]
    let g_mapped = g.map(|c| c as u32);

    // f's codomain (mapped) = [97,98], g's domain (mapped) = [97,98]. Composable.
    let result = mapped.compose(&g_mapped).expect("mapped spans compose");
    assert_eq!(result.left(), &['a' as u32, 'b' as u32]);
    assert_eq!(result.right(), &['b' as u32, 'a' as u32]);
}

#[test]
fn span_middle_to_left_right_projections() {
    // Use uniform labels so type checks pass for arbitrary pair patterns.
    let s2 = Span::new(
        vec!['t', 't', 't'],
        vec!['t', 't', 't'],
        vec![(0, 2), (1, 0), (2, 1)],
    );
    assert_eq!(s2.middle_to_left(), vec![0, 1, 2]);
    assert_eq!(s2.middle_to_right(), vec![2, 0, 1]);
}

#[test]
fn span_add_boundary_then_dagger() {
    let mut s = span_f(); // left=['a','b'], right=['a','b'], pairs=[(0,0),(1,1)]
    s.add_boundary_node(Left('c'));
    // left=['a','b','c'], right=['a','b'], pairs=[(0,0),(1,1)]

    let dag = s.dagger();
    // Dagger swaps left/right and flips pairs.
    assert_eq!(dag.left(), &['a', 'b']); // was right
    assert_eq!(dag.right(), &['a', 'b', 'c']); // was left
    assert_eq!(dag.middle_pairs(), &[(0, 0), (1, 1)]); // flipped from (0,0),(1,1)

    // Compose dagger with identity on its codomain.
    let id = Span::<char>::identity(&dag.codomain());
    let result = dag.compose(&id).expect("dagger compose identity");
    assert_eq!(result.left(), dag.left());
    assert_eq!(result.right(), dag.right());
}

#[test]
fn span_multiple_mutations_then_compose_with_identity() {
    // Build a span from scratch with mutations.
    let mut s = Span::new(vec!['a'], vec!['a'], vec![(0, 0)]);

    // Extend domain.
    s.add_boundary_node(Left('b'));
    // Extend codomain.
    s.add_boundary_node(Right('b'));
    // Connect the new boundary nodes through middle.
    let mid_result = s.add_middle((1, 1)); // left[1]='b' == right[1]='b'
    assert!(mid_result.is_ok());

    assert_eq!(s.left(), &['a', 'b']);
    assert_eq!(s.right(), &['a', 'b']);
    assert_eq!(s.middle_pairs(), &[(0, 0), (1, 1)]);

    // Compose with identity on ['a','b'].
    let id = Span::<char>::identity(&vec!['a', 'b']);
    let result = s.compose(&id).expect("mutated span compose identity");
    assert_span_eq(&result, &s);
}

#[test]
fn span_dagger_twice_is_the_span() {
    let s = Span::new(vec!['a', 'b', 'c'], vec!['b', 'a'], vec![(0, 1), (1, 0), (0, 1)]);
    let back = s.dagger().dagger();
    assert_span_eq(&back, &s);
    assert_eq!(s.dagger().left(), s.right());
    assert_eq!(s.dagger().right(), s.left());
}
