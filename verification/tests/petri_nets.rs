use catgraph::cospan::Cospan;
use catgraph::errors::CatgraphError;
use catgraph::petri_net::{Marking, PetriNet, Transition, Weight};
use rust_decimal::Decimal;

/// The weight `Decimal::from(n)`.
fn d(n: i64) -> Weight {
    Weight::from_decimal(Decimal::from(n))
}

/// The weight `Decimal::ZERO`.
fn zero() -> Weight {
    Weight::from_decimal(Decimal::ZERO)
}

#[test]
fn marking_new_is_empty() {
    let m = Marking::new();
    assert_eq!(m.get(0), zero());
    assert!(m.tokens().is_empty());
}

#[test]
fn marking_from_vec_filters_zeros() {
    let m = Marking::from_vec(vec![(0, d(3)), (1, d(0)), (2, d(1))]);
    assert_eq!(m.get(0), d(3));
    assert_eq!(m.get(1), zero());
    assert_eq!(m.get(2), d(1));
    assert_eq!(m.tokens().len(), 2);
}

#[test]
fn marking_set_and_get() {
    let mut m = Marking::new();
    m.set(0, d(5));
    assert_eq!(m.get(0), d(5));
    m.set(0, zero());
    assert_eq!(m.get(0), zero());
    assert!(m.tokens().is_empty());
}

#[test]
fn petri_net_construction() {
    let net: PetriNet<char> = PetriNet::new(
        vec!['H', 'O', 'W'],
        vec![Transition::new(vec![(0, d(2)), (1, d(1))], vec![(2, d(2))])],
    );
    assert_eq!(net.place_count(), 3);
    assert_eq!(net.transition_count(), 1);
}

#[test]
fn transition_accessors() {
    let t = Transition::new(vec![(0, d(1)), (1, d(2))], vec![(2, d(3))]);
    assert_eq!(t.pre(), &[(0, d(1)), (1, d(2))]);
    assert_eq!(t.post(), &[(2, d(3))]);
}

// Helper: 2H2 + O2 -> 2H2O
fn combustion_net() -> PetriNet<char> {
    PetriNet::new(
        vec!['H', 'O', 'W'],
        vec![Transition::new(vec![(0, d(2)), (1, d(1))], vec![(2, d(2))])],
    )
}

#[test]
fn enabled_sufficient_tokens() {
    let net = combustion_net();
    let m = Marking::from_vec(vec![(0, d(4)), (1, d(2))]);
    assert_eq!(net.enabled(&m), vec![0]);
}

#[test]
fn enabled_insufficient_tokens() {
    let net = combustion_net();
    let m = Marking::from_vec(vec![(0, d(1)), (1, d(2))]);
    assert!(net.enabled(&m).is_empty());
}

#[test]
fn fire_success() {
    let net = combustion_net();
    let m = Marking::from_vec(vec![(0, d(2)), (1, d(1))]);
    let result = net.fire(0, &m).unwrap();
    assert_eq!(result.get(0), zero());
    assert_eq!(result.get(1), zero());
    assert_eq!(result.get(2), d(2));
}

#[test]
fn fire_not_enabled() {
    let net = combustion_net();
    let m = Marking::from_vec(vec![(0, d(1))]);
    assert!(matches!(
        net.fire(0, &m).unwrap_err(),
        CatgraphError::PetriNet { .. }
    ));
}

#[test]
fn fire_out_of_bounds() {
    let net = combustion_net();
    let m = Marking::new();
    assert!(matches!(
        net.fire(5, &m).unwrap_err(),
        CatgraphError::PetriNet { .. }
    ));
}

#[test]
fn fire_preserves_other_places() {
    let net = combustion_net();
    let m = Marking::from_vec(vec![(0, d(4)), (1, d(2)), (2, d(3))]);
    let result = net.fire(0, &m).unwrap();
    assert_eq!(result.get(0), d(2));
    assert_eq!(result.get(1), d(1));
    assert_eq!(result.get(2), d(5));
}

#[test]
fn arc_weight_pre_existing() {
    let net = combustion_net();
    assert_eq!(net.arc_weight_pre(0, 0), d(2));
    assert_eq!(net.arc_weight_pre(1, 0), d(1));
}

#[test]
fn arc_weight_pre_missing() {
    let net = combustion_net();
    assert_eq!(net.arc_weight_pre(2, 0), zero());
}

#[test]
fn arc_weight_post_existing() {
    let net = combustion_net();
    assert_eq!(net.arc_weight_post(2, 0), d(2));
}

#[test]
fn arc_weight_post_missing() {
    let net = combustion_net();
    assert_eq!(net.arc_weight_post(0, 0), zero());
}

#[test]
fn source_places_combustion() {
    let net = combustion_net();
    let sources = net.source_places();
    assert!(sources.contains(&0));
    assert!(sources.contains(&1));
    assert!(!sources.contains(&2));
}

#[test]
fn sink_places_combustion() {
    let net = combustion_net();
    let sinks = net.sink_places();
    assert!(sinks.contains(&2));
    assert!(!sinks.contains(&0));
}

#[test]
fn reachable_single_step() {
    let net = combustion_net();
    let m0 = Marking::from_vec(vec![(0, d(2)), (1, d(1))]);
    let reachable = net.reachable(&m0, 1);
    assert_eq!(reachable.len(), 2);
    assert!(reachable.contains(&m0));
    assert!(reachable.contains(&Marking::from_vec(vec![(2, d(2))])));
}

#[test]
fn reachable_no_enabled() {
    let net = combustion_net();
    let m0 = Marking::new();
    let reachable = net.reachable(&m0, 10);
    assert_eq!(reachable.len(), 1);
}

#[test]
fn can_reach_true() {
    let net = combustion_net();
    let m0 = Marking::from_vec(vec![(0, d(2)), (1, d(1))]);
    let target = Marking::from_vec(vec![(2, d(2))]);
    assert!(net.can_reach(&m0, &target, 5));
}

#[test]
fn can_reach_false() {
    let net = combustion_net();
    let m0 = Marking::from_vec(vec![(0, d(2)), (1, d(1))]);
    let target = Marking::from_vec(vec![(2, d(99))]);
    assert!(!net.can_reach(&m0, &target, 10));
}

#[test]
fn reachable_multi_step() {
    let net = combustion_net();
    let m0 = Marking::from_vec(vec![(0, d(4)), (1, d(2))]);
    let reachable = net.reachable(&m0, 3);
    assert_eq!(reachable.len(), 3);
    assert!(reachable.contains(&Marking::from_vec(vec![(2, d(4))])));
}

#[test]
fn from_cospan_single_transition() {
    let cospan: Cospan<char> = Cospan::new(vec![0, 1, 1, 1], vec![2, 2], vec!['N', 'H', 'A']);
    let net = PetriNet::from_cospan(&cospan);
    assert_eq!(net.place_count(), 3);
    assert_eq!(net.transition_count(), 1);
    assert_eq!(net.arc_weight_pre(0, 0), d(1));
    assert_eq!(net.arc_weight_pre(1, 0), d(3));
    assert_eq!(net.arc_weight_post(2, 0), d(2));
}

#[test]
fn transition_as_cospan_roundtrip() {
    let net = combustion_net();
    let cospan = net.transition_as_cospan(0);
    let roundtrip = PetriNet::from_cospan(&cospan);
    assert_eq!(roundtrip.place_count(), net.place_count());
    assert_eq!(roundtrip.arc_weight_pre(0, 0), net.arc_weight_pre(0, 0));
    assert_eq!(roundtrip.arc_weight_pre(1, 0), net.arc_weight_pre(1, 0));
    assert_eq!(roundtrip.arc_weight_post(2, 0), net.arc_weight_post(2, 0));
}

#[test]
fn parallel_composition() {
    let a: PetriNet<char> = PetriNet::new(
        vec!['a', 'b'],
        vec![Transition::new(vec![(0, d(1))], vec![(1, d(1))])],
    );
    let b: PetriNet<char> = PetriNet::new(
        vec!['c', 'd'],
        vec![Transition::new(vec![(0, d(1))], vec![(1, d(1))])],
    );
    let combined = a.parallel(&b);
    assert_eq!(combined.place_count(), 4);
    assert_eq!(combined.transition_count(), 2);
    assert_eq!(combined.arc_weight_pre(2, 1), d(1));
    assert_eq!(combined.arc_weight_post(3, 1), d(1));
}

#[test]
fn sequential_composition() {
    let a: PetriNet<char> = PetriNet::new(
        vec!['a', 'b'],
        vec![Transition::new(vec![(0, d(1))], vec![(1, d(1))])],
    );
    let b: PetriNet<char> = PetriNet::new(
        vec!['b', 'c'],
        vec![Transition::new(vec![(0, d(1))], vec![(1, d(1))])],
    );
    let composed = a.sequential(&b).unwrap();
    assert_eq!(composed.place_count(), 3);
    assert_eq!(composed.transition_count(), 2);
}

#[test]
fn sequential_no_matching_boundary() {
    let a: PetriNet<char> = PetriNet::new(
        vec!['a', 'b'],
        vec![Transition::new(vec![(0, d(1))], vec![(1, d(1))])],
    );
    let b: PetriNet<char> = PetriNet::new(
        vec!['x', 'y'],
        vec![Transition::new(vec![(0, d(1))], vec![(1, d(1))])],
    );
    let composed = a.sequential(&b).unwrap();
    assert_eq!(composed.place_count(), 4);
}

#[test]
fn weights_compare_by_value() {
    let one = Weight::from_decimal(Decimal::new(10, 1));
    assert_eq!(one, d(1));
    assert!(Weight::from_decimal(Decimal::new(15, 1)).le(&d(2)));
    assert!(!d(2).le(&Weight::from_decimal(Decimal::new(15, 1))));
}

#[test]
fn weight_sum_keeps_the_larger_scale() {
    let a = Weight::from_decimal(Decimal::new(15, 1));
    let b = Weight::from_decimal(Decimal::new(225, 2));
    let s = a.checked_add(&b).unwrap();
    assert_eq!(s.mantissa(), 375);
    assert_eq!(s.scale(), 2);
    let diff = b.checked_sub(&a).unwrap();
    assert_eq!(diff, Weight::from_decimal(Decimal::new(75, 2)));
}

#[test]
fn weight_overflow_is_none() {
    let max = Weight::from_decimal(Decimal::MAX);
    assert!(max.checked_add(&d(1)).is_none());
    assert!(Weight::from_decimal(Decimal::MIN).checked_sub(&d(1)).is_none());
}

#[test]
fn markings_equal_by_value() {
    let a = Marking::from_vec(vec![(0, d(1)), (3, d(2))]);
    let b = Marking::from_vec(vec![(3, Weight::from_decimal(Decimal::new(200, 2))), (0, d(1))]);
    assert!(a == b);
    let c = Marking::from_vec(vec![(0, d(1))]);
    assert!(a != c);
}

#[test]
fn from_vec_later_pair_wins_but_zero_is_dropped() {
    let m = Marking::from_vec(vec![(0, d(3)), (0, d(5)), (0, d(0))]);
    assert_eq!(m.get(0), d(5));
    assert_eq!(m.tokens().len(), 1);
}

#[test]
fn try_fire_reports_overflow() {
    let net: PetriNet<char> = PetriNet::new(
        vec!['a', 'b'],
        vec![Transition::new(vec![(0, d(1))], vec![(1, d(1))])],
    );
    let m = Marking::from_vec(vec![(0, d(1)), (1, Weight::from_decimal(Decimal::MAX))]);
    assert!(matches!(net.try_fire(0, &m), Err(CatgraphError::PetriNet { .. })));
}

#[test]
fn fractional_tokens_fire() {
    let net: PetriNet<char> = PetriNet::new(
        vec!['a', 'b'],
        vec![Transition::new(vec![(0, Weight::from_decimal(Decimal::new(5, 1)))], vec![(1, d(2))])],
    );
    let m = Marking::from_vec(vec![(0, Weight::from_decimal(Decimal::new(15, 1)))]);
    let next = net.fire(0, &m).unwrap();
    assert_eq!(next.get(0), d(1));
    assert_eq!(next.get(1), d(2));
    assert!(net.can_reach(&m, &Marking::from_vec(vec![(1, d(6))]), 3));
    assert!(!net.can_reach(&m, &Marking::from_vec(vec![(1, d(6))]), 2));
}

#[test]
fn sequential_merges_first_free_sink_per_source() {
    // Sinks of `a`: places 1 and 2, both labelled 'x'; sources of `b`: places 0 and 1, both 'x'.
    let a: PetriNet<char> = PetriNet::new(
        vec!['y', 'x', 'x'],
        vec![Transition::new(vec![(0, d(1))], vec![(1, d(1)), (2, d(1))])],
    );
    let b: PetriNet<char> = PetriNet::new(
        vec!['x', 'x', 'z'],
        vec![Transition::new(vec![(0, d(1)), (1, d(1))], vec![(2, d(1))])],
    );
    let composed = a.sequential(&b).unwrap();
    assert_eq!(composed.places(), &['y', 'x', 'x', 'z']);
    assert_eq!(composed.transitions()[1].pre(), &[(1, d(1)), (2, d(1))]);
    assert_eq!(composed.transitions()[1].post(), &[(3, d(1))]);
}

#[test]
fn from_cospan_lists_places_in_order() {
    let cospan: Cospan<char> = Cospan::new(vec![2, 0, 2], vec![1], vec!['a', 'b', 'c']);
    let net = PetriNet::from_cospan(&cospan);
    assert_eq!(net.transitions()[0].pre(), &[(0, d(1)), (2, d(2))]);
    assert_eq!(net.transitions()[0].post(), &[(1, d(1))]);
}

#[test]
fn transition_as_cospan_drops_fractions() {
    let net: PetriNet<char> = PetriNet::new(
        vec!['a', 'b'],
        vec![Transition::new(vec![(0, Weight::from_decimal(Decimal::new(25, 1)))], vec![(1, d(1))])],
    );
    let c = net.transition_as_cospan(0);
    assert_eq!(c.left_to_middle(), &[0, 0]);
    assert_eq!(c.right_to_middle(), &[1]);
}
