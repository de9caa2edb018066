use catgraph::category::Composable;
use catgraph::finset::{
    is_injective, is_surjective, FinSetMap, OrderPresInj, OrderPresSurj,
    TryFromInjError, TryFromSurjError,
};

#[test]
fn surjectivity() {
    let mut cur_test: FinSetMap = vec![];
    assert!(is_surjective(&cur_test));
    cur_test = vec![0];
    assert!(is_surjective(&cur_test));
    cur_test = vec![1];
    assert!(!is_surjective(&cur_test));
    cur_test = vec![2];
    assert!(!is_surjective(&cur_test));
    cur_test = vec![12490];
    assert!(!is_surjective(&cur_test));
    cur_test = vec![0, 1, 2];
    assert!(is_surjective(&cur_test));
    cur_test = vec![0, 2, 1];
    assert!(is_surjective(&cur_test));
    cur_test = vec![2, 1];
    assert!(!is_surjective(&cur_test));
    cur_test = vec![0, 3, 1, 2];
    assert!(is_surjective(&cur_test));
    cur_test = vec![1, 1, 2];
    assert!(!is_surjective(&cur_test));
    cur_test = vec![0, 1, 1, 2];
    assert!(is_surjective(&cur_test));
}

#[test]
fn injectivity() {
    let mut cur_test: FinSetMap = vec![];
    assert!(is_injective(&cur_test));
    cur_test = vec![0];
    assert!(is_injective(&cur_test));
    cur_test = vec![1];
    assert!(is_injective(&cur_test));
    cur_test = vec![2];
    assert!(is_injective(&cur_test));
    cur_test = vec![12490];
    assert!(is_injective(&cur_test));
    cur_test = vec![0, 1, 2];
    assert!(is_injective(&cur_test));
    cur_test = vec![0, 2, 1];
    assert!(is_injective(&cur_test));
    cur_test = vec![2, 1];
    assert!(is_injective(&cur_test));
    cur_test = vec![0, 3, 1, 2];
    assert!(is_injective(&cur_test));
    cur_test = vec![1, 1, 2];
    assert!(!is_injective(&cur_test));
    cur_test = vec![0, 1, 1, 2];
    assert!(!is_injective(&cur_test));
}

#[test]
fn ord_surj_conversion() {
    let mut cur_test: FinSetMap = vec![];
    let mut cur_result = Ok(OrderPresSurj::default());
    assert_eq!(cur_result, OrderPresSurj::try_from((cur_test, 0)));

    cur_test = vec![0];
    cur_result = Ok([0].into());
    assert_eq!(cur_result, OrderPresSurj::try_from((cur_test.clone(), 0)));
    let cur_result_unwrapped = cur_result.unwrap();
    for (n, v) in cur_test.iter().enumerate() {
        let dest_test_pt = cur_result_unwrapped.apply(n);
        assert_eq!(dest_test_pt, *v);
    }
    assert_eq!(cur_result_unwrapped.domain(), 1);
    assert_eq!(cur_result_unwrapped.codomain(), 1);
    let cur_composed = cur_result_unwrapped
        .compose(&cur_result_unwrapped)
        .map_err(|_| TryFromSurjError);
    assert_eq!(cur_composed, OrderPresSurj::try_from((cur_test.clone(), 0)));

    cur_test = vec![1];
    cur_result = Err(TryFromSurjError);
    assert_eq!(cur_result, OrderPresSurj::try_from((cur_test, 0)));

    cur_test = vec![2];
    cur_result = Err(TryFromSurjError);
    assert_eq!(cur_result, OrderPresSurj::try_from((cur_test, 0)));

    cur_test = vec![0, 1, 2];
    cur_result = Ok([0, 0, 0].into());
    assert_eq!(cur_result, OrderPresSurj::try_from((cur_test.clone(), 0)));
    let cur_result_unwrapped = cur_result.unwrap();
    for (n, v) in cur_test.iter().enumerate() {
        let dest_test_pt = cur_result_unwrapped.apply(n);
        assert_eq!(dest_test_pt, *v);
    }
    assert_eq!(cur_result_unwrapped.domain(), 3);
    assert_eq!(cur_result_unwrapped.codomain(), 3);
    let cur_composed_2 = cur_result_unwrapped.compose(&cur_result_unwrapped).unwrap();
    assert_eq!(cur_composed_2, cur_result_unwrapped);

    cur_test = vec![0, 2, 1];
    cur_result = Err(TryFromSurjError);
    assert_eq!(cur_result, OrderPresSurj::try_from((cur_test, 0)));

    cur_test = vec![0, 1, 1, 2, 3, 3, 3, 4];
    cur_result = Ok([0, 1, 0, 2, 0].into());
    assert_eq!(cur_result, OrderPresSurj::try_from((cur_test.clone(), 0)));
    let cur_result_unwrapped = cur_result.unwrap();
    for (n, v) in cur_test.iter().enumerate() {
        let dest_test_pt = cur_result_unwrapped.apply(n);
        assert_eq!(dest_test_pt, *v);
    }
    assert_eq!(cur_result_unwrapped.domain(), 8);
    assert_eq!(cur_result_unwrapped.codomain(), 5);

    let compose_3_after: OrderPresSurj = [1, 2].into();
    let compose_3_exp: OrderPresSurj = [2, 4].into();
    let cur_composed_3 = cur_result_unwrapped.compose(&compose_3_after).unwrap();
    assert_eq!(cur_composed_3, compose_3_exp);
}

#[test]
fn ord_inj_conversion() {
    let mut cur_test: FinSetMap = vec![];
    let mut cur_result = Ok(OrderPresInj::from_counts(vec![]));
    assert_eq!(cur_result, OrderPresInj::try_from((cur_test.clone(), 0)));
    let cur_result_unwrapped = cur_result.unwrap();
    for (n, v) in cur_test.iter().enumerate() {
        let dest_test_pt = cur_result_unwrapped.apply(n);
        assert_eq!(dest_test_pt, *v);
    }
    assert_eq!(cur_result_unwrapped.domain(), 0);
    assert_eq!(cur_result_unwrapped.codomain(), 0);

    cur_test = vec![0];
    cur_result = Ok(OrderPresInj::from_counts(vec![1]));
    assert_eq!(cur_result, OrderPresInj::try_from((cur_test.clone(), 0)));
    let cur_result_unwrapped = cur_result.unwrap();
    for (n, v) in cur_test.iter().enumerate() {
        let dest_test_pt = cur_result_unwrapped.apply(n);
        assert_eq!(dest_test_pt, *v);
    }
    assert_eq!(cur_result_unwrapped.domain(), 1);
    assert_eq!(cur_result_unwrapped.codomain(), 1);

    cur_test = vec![1];
    cur_result = Ok(OrderPresInj::from_counts(vec![0, 1, 1]));
    assert_eq!(cur_result, OrderPresInj::try_from((cur_test.clone(), 0)));
    let cur_result_unwrapped = cur_result.unwrap();
    for (n, v) in cur_test.iter().enumerate() {
        let dest_test_pt = cur_result_unwrapped.apply(n);
        assert_eq!(dest_test_pt, *v);
    }
    assert_eq!(cur_result_unwrapped.domain(), 1);
    assert_eq!(cur_result_unwrapped.codomain(), 2);

    cur_test = vec![2];
    cur_result = Ok(OrderPresInj::from_counts(vec![0, 2, 1]));
    assert_eq!(cur_result, OrderPresInj::try_from((cur_test.clone(), 0)));
    let cur_result_unwrapped = cur_result.unwrap();
    for (n, v) in cur_test.iter().enumerate() {
        let dest_test_pt = cur_result_unwrapped.apply(n);
        assert_eq!(dest_test_pt, *v);
    }
    assert_eq!(cur_result_unwrapped.domain(), 1);
    assert_eq!(cur_result_unwrapped.codomain(), 3);

    cur_test = vec![0, 1, 2];
    cur_result = Ok(OrderPresInj::from_counts(vec![3]));
    assert_eq!(cur_result, OrderPresInj::try_from((cur_test.clone(), 0)));
    let cur_result_unwrapped = cur_result.unwrap();
    for (n, v) in cur_test.iter().enumerate() {
        let dest_test_pt = cur_result_unwrapped.apply(n);
        assert_eq!(dest_test_pt, *v);
    }
    assert_eq!(cur_result_unwrapped.domain(), 3);
    assert_eq!(cur_result_unwrapped.codomain(), 3);

    cur_test = vec![0, 2, 1];
    cur_result = Err(TryFromInjError);
    assert_eq!(cur_result, OrderPresInj::try_from((cur_test, 0)));

    cur_test = vec![0, 1, 1, 2, 3, 3, 3, 4];
    cur_result = Err(TryFromInjError);
    assert_eq!(cur_result, OrderPresInj::try_from((cur_test, 0)));

    let leftovers = 23;
    cur_test = vec![0, 1, 2, 4, 5, 8, 9, 11];
    cur_result = Ok(OrderPresInj::from_counts(vec![3, 1, 2, 2, 2, 1, 1, leftovers]));
    assert_eq!(cur_result, OrderPresInj::try_from((cur_test.clone(), leftovers)));
    let cur_result_unwrapped = cur_result.unwrap();
    for (n, v) in cur_test.iter().enumerate() {
        let dest_test_pt = cur_result_unwrapped.apply(n);
        assert_eq!(dest_test_pt, *v);
    }
    assert_eq!(cur_result_unwrapped.domain(), 8);
    assert_eq!(cur_result_unwrapped.codomain(), 12 + leftovers);
}

#[test]
fn monotone_epi_mono_fact() {
    let mut cur_test: FinSetMap = vec![0, 1, 1, 1, 2, 3, 4, 7, 8, 9, 11];
    let mut exp_surj: FinSetMap = vec![0, 1, 1, 1, 2, 3, 4, 5, 6, 7, 8];
    let mut exp_inj: FinSetMap = vec![0, 1, 2, 3, 4, 7, 8, 9, 11];
    let (tested_surj, tested_inj) = catgraph::finset::monotone_epi_mono_fact(cur_test);
    assert_eq!(exp_surj, tested_surj);
    assert_eq!(exp_inj, tested_inj);

    cur_test = vec![];
    exp_surj = vec![];
    exp_inj = vec![];
    let (tested_surj, tested_inj) = catgraph::finset::monotone_epi_mono_fact(cur_test);
    assert_eq!(exp_surj, tested_surj);
    assert_eq!(exp_inj, tested_inj);

    cur_test = vec![3];
    exp_surj = vec![0];
    exp_inj = vec![3];
    let (tested_surj, tested_inj) = catgraph::finset::monotone_epi_mono_fact(cur_test);
    assert_eq!(exp_surj, tested_surj);
    assert_eq!(exp_inj, tested_inj);
}

#[test]
fn mismatch_error_names_both_sizes() {
    let e = catgraph::finset::mismatch_error(3, 5);
    assert_eq!(
        e,
        catgraph::errors::CatgraphError::Composition {
            message: "Not composable. The codomain of self was 3. The domain of other was 5".to_string()
        }
    );
}
