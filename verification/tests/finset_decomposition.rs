use catgraph::category::{Composable, HasIdentity};
use catgraph::finset::{from_cycle, permutation_sort, Decomposition, FinSetMap, OrderPresInj, OrderPresSurj};
use catgraph::monoidal::{Monoidal, SymmetricMonoidalDiscreteMorphism};
use permutations::Permutation;
use rand::rngs::StdRng;
use rand::SeedableRng;
use itertools::Itertools;
use rand::RngExt;
use rand::distr::Uniform;
use rand::prelude::Distribution;

/// A random permutation of `n` elements, by exchanges drawn from `rng`.
fn rand_perm(n: usize, max_depth: usize, rng: &mut StdRng) -> Permutation {
    let mut images: Vec<usize> = (0..n).collect();
    for _ in 0..max_depth {
        let a = rng.random_range(0..n);
        let b = rng.random_range(0..n);
        images.swap(a, b);
    }
    Permutation::try_from(images).unwrap()
}

#[test]
fn permutation_test() {
    let mut cur_test: FinSetMap = vec![0, 1, 1, 1, 2, 3, 4, 7, 8, 9, 11];
    let mut exp_sorted = vec![0, 1, 1, 1, 2, 3, 4, 7, 8, 9, 11];
    let mut exp_perm = Permutation::identity(cur_test.len());
    let mut cur_perm = permutation_sort(&mut cur_test);
    assert_eq!(cur_test, exp_sorted);
    assert_eq!(cur_perm, exp_perm);
    assert_eq!(cur_perm.permute(&[0, 1, 1, 1, 2, 3, 4, 7, 8, 9, 11]), cur_test);
    let decomp = Decomposition::from_permutation(cur_perm.clone(), cur_test.len(), true);
    for idx in 0..cur_test.len() {
        let after_decomp = decomp.apply(idx);
        let after_cur_perm = cur_perm.apply(idx);
        assert_eq!(after_decomp, after_cur_perm);
    }

    cur_test = vec![1, 0];
    exp_sorted = vec![0, 1];
    exp_perm = Permutation::rotation_left(2, 1);
    cur_perm = permutation_sort(&mut cur_test);
    assert_eq!(cur_test, exp_sorted);
    assert_eq!(cur_perm, exp_perm);
    assert_eq!(cur_perm.permute(&[1, 0]), cur_test);
    let decomp = Decomposition::from_permutation(cur_perm.clone(), cur_test.len(), true);
    for idx in 0..cur_test.len() {
        let after_decomp = decomp.apply(idx);
        let after_cur_perm = cur_perm.apply(idx);
        assert_eq!(after_decomp, after_cur_perm);
    }

    cur_test = vec![2, 1, 0];
    exp_sorted = vec![0, 1, 2];
    exp_perm = Permutation::transposition(3, 0, 2);
    cur_perm = permutation_sort(&mut cur_test);
    assert_eq!(cur_test, exp_sorted);
    assert_eq!(cur_perm, exp_perm);
    assert_eq!(cur_perm.permute(&[2, 1, 0]), cur_test);
    let decomp = Decomposition::from_permutation(cur_perm.clone(), cur_test.len(), true);
    for idx in 0..cur_test.len() {
        let after_decomp = decomp.apply(idx);
        let after_cur_perm = cur_perm.apply(idx);
        assert_eq!(after_decomp, after_cur_perm);
    }

    cur_test = vec![2, 0, 1];
    exp_sorted = vec![0, 1, 2];
    exp_perm = Permutation::rotation_left(3, 1);
    cur_perm = permutation_sort(&mut cur_test);
    assert_eq!(cur_test, exp_sorted);
    assert_eq!(cur_perm, exp_perm);
    assert_eq!(cur_perm.permute(&[2, 0, 1]), cur_test);
    let decomp = Decomposition::from_permutation(cur_perm.clone(), cur_test.len(), true);
    for idx in 0..cur_test.len() {
        let after_decomp = decomp.apply(idx);
        let after_cur_perm = cur_perm.apply(idx);
        assert_eq!(after_decomp, after_cur_perm);
    }

    cur_test = vec![2, 0, 0, 1, 1];
    exp_sorted = vec![0, 0, 1, 1, 2];
    exp_perm = Permutation::rotation_left(5, 1);
    cur_perm = permutation_sort(&mut cur_test);
    assert_eq!(cur_test, exp_sorted);
    assert_eq!(cur_perm, exp_perm);
    assert_eq!(cur_perm.permute(&[2, 0, 0, 1, 1]), cur_test);
    let decomp = Decomposition::from_permutation(cur_perm.clone(), cur_test.len(), true);
    for idx in 0..cur_test.len() {
        let after_decomp = decomp.apply(idx);
        let after_cur_perm = cur_perm.apply(idx);
        assert_eq!(after_decomp, after_cur_perm);
    }
}

#[test]
fn decomposition() {
    for leftovers in [0, 5, 7] {
        let cur_test: FinSetMap = vec![0, 1, 1, 1, 2, 3, 4, 7, 8, 9, 11, 20, 18, 19];
        let exp_perm = Permutation::try_from(vec![0, 1, 2, 3, 4, 5, 6, 7, 8, 9, 10, 13, 11, 12]).unwrap();
        let exp_surj: OrderPresSurj = [0, 2, 0, 0, 0, 0, 0, 0, 0, 0, 0, 0].into();
        let exp_inj = OrderPresInj::from_counts(if leftovers > 0 {
            vec![5, 2, 3, 1, 1, 6, 3, leftovers]
        } else {
            vec![5, 2, 3, 1, 1, 6, 3]
        });
        let cur_res = Decomposition::try_from((cur_test.clone(), leftovers));
        if let Ok(cur_decomp) = cur_res {
            let (perm_part, surj_part, inj_part) = cur_decomp.get_parts();
            assert_eq!(&exp_perm, perm_part);
            assert_eq!(&exp_surj, surj_part);
            assert_eq!(&exp_inj, inj_part);
            for test_pt in 0..cur_test.len() {
                let actual_dest = cur_test[test_pt];
                let apparent_dest = cur_decomp.apply(test_pt);
                assert_eq!(apparent_dest, actual_dest);
            }
        } else {
            assert!(false, "All maps of finite sets decompose");
        }
    }
}

#[test]
fn two_decompositions() {

    let fin_set_size: usize = 20;
    let mut rng = StdRng::seed_from_u64(2001);
    let trial_num = 10;

    for _ in 0..trial_num {
        let first_int_map: Vec<_> = (0..fin_set_size).map(|_| rng.random_range(0..fin_set_size)).collect();
        let second_int_map: Vec<_> = (0..fin_set_size).map(|_| rng.random_range(0..fin_set_size)).collect();
        let max_first = *first_int_map.iter().max().unwrap();
        let leftover_needed = (fin_set_size - max_first - 1).max(0);
        let decomp_1 = Decomposition::try_from((first_int_map.clone(), leftover_needed)).unwrap();
        assert_eq!(decomp_1.domain(), fin_set_size);
        assert_eq!(decomp_1.codomain(), fin_set_size);
        let (decomp_1_ord, decomp_1_left) = decomp_1.to_ordinary();
        assert_eq!(decomp_1_ord, first_int_map);
        assert_eq!(decomp_1_left, leftover_needed);
        let decomp_2 = Decomposition::try_from((second_int_map.clone(), 0)).unwrap();
        let actual_codomain = *second_int_map.iter().max().unwrap() + 1;
        assert_eq!(decomp_2.domain(), fin_set_size);
        assert_eq!(decomp_2.codomain(), actual_codomain);
        let (decomp_2_ord, decomp_2_left) = decomp_2.to_ordinary();
        assert_eq!(decomp_2_ord, second_int_map);
        assert_eq!(decomp_2_left, 0);
        let decomp_12 = decomp_1.compose(&decomp_2).unwrap();
        assert_eq!(decomp_12.domain(), fin_set_size);
        assert_eq!(decomp_12.codomain(), actual_codomain);
        for idx in 0..fin_set_size {
            let after_first = first_int_map[idx];
            assert_eq!(decomp_1.apply(idx), after_first);
            let after_second = second_int_map[after_first];
            assert_eq!(decomp_2.apply(after_first), after_second);
            assert_eq!(decomp_12.apply(idx), after_second);
        }
    }
}

#[test]
fn cycle_test() {

    let fin_set_size: usize = 20;
    let mut rng = StdRng::seed_from_u64(2002);
    let u = Uniform::new(0, fin_set_size).unwrap();
    for _ in 0..10 {
        let cycle_len = rng.sample(u);
        let cycle = (0..cycle_len).map(|_| rng.sample(u)).collect_vec();
        let mut cycle_sorted = cycle.clone();
        cycle_sorted.sort_unstable();
        cycle_sorted.dedup();
        if cycle_sorted.len() < cycle.len() {
            continue;
        }
        let p = from_cycle(fin_set_size, &cycle);
        for (a, b) in cycle.iter().tuple_windows() {
            assert_eq!(p.apply(*a), *b, "{:?} should take {} to {} but it is {:?}", cycle, *a, *b, p);
        }
        break;
    }
}

#[test]
fn decomposition_permute_side_domain_identity() {
    let mut decomp = Decomposition::identity(&3);
    let rotation = Permutation::rotation_left(3, 1);
    decomp.permute_side(&rotation, false);
    assert_eq!(decomp.apply(0), 1);
    assert_eq!(decomp.apply(1), 2);
    assert_eq!(decomp.apply(2), 0);
}

#[test]
fn decomposition_permute_side_codomain_identity() {
    let mut decomp = Decomposition::identity(&3);
    let rotation = Permutation::rotation_left(3, 1);
    decomp.permute_side(&rotation, true);
    assert_eq!(decomp.apply(0), 2);
    assert_eq!(decomp.apply(1), 0);
    assert_eq!(decomp.apply(2), 1);
    assert_eq!(decomp.codomain(), 3);
}

#[test]
fn decomposition_permute_side_codomain_nonidentity() {
    let mut decomp = Decomposition::try_from((vec![0, 0, 1], 0)).unwrap();
    let original_domain = decomp.domain();
    let original_codomain = decomp.codomain();
    assert_eq!(original_domain, 3);
    assert_eq!(original_codomain, 2);

    let swap = Permutation::transposition(2, 0, 1);
    decomp.permute_side(&swap, true);

    assert_eq!(decomp.apply(0), 1);
    assert_eq!(decomp.apply(1), 1);
    assert_eq!(decomp.apply(2), 0);
}

#[test]
fn decomposition_permute_side_random() {

    let mut rng = StdRng::seed_from_u64(2003);
    for _ in 0..20 {
        let n = Uniform::<usize>::try_from(2..8).unwrap().sample(&mut rng);
        let p_dom = rand_perm(n, n * 2, &mut rng);
        let original_map: Vec<usize> = (0..n)
            .map(|_| Uniform::<usize>::try_from(0..n).unwrap().sample(&mut rng))
            .collect();

        let mut decomp_dom = Decomposition::try_from((original_map.clone(), 0)).unwrap();
        decomp_dom.permute_side(&p_dom, false);
        for i in 0..n {
            assert_eq!(
                decomp_dom.apply(i),
                original_map[p_dom.apply(i)],
                "domain permute: g({i}) should be f(p({i})) = f({}) = {}",
                p_dom.apply(i),
                original_map[p_dom.apply(i)]
            );
        }

        let surj_map: Vec<usize> = (0..n).collect();
        let mut decomp_cod = Decomposition::try_from((surj_map.clone(), 0)).unwrap();
        let cod_size = decomp_cod.codomain();
        assert_eq!(cod_size, n);
        let p_cod = rand_perm(cod_size, cod_size * 2, &mut rng);
        let p_cod_inv = p_cod.inv();
        decomp_cod.permute_side(&p_cod, true);
        for i in 0..n {
            assert_eq!(
                decomp_cod.apply(i),
                p_cod_inv.apply(surj_map[i]),
                "codomain permute: g({i}) should be p_inv(f({i}))"
            );
        }
    }
}

/// The tensor product of decompositions computes the tensor product of maps.
#[test]
fn decomposition_monoidal_side_by_side() {
    let mut a = Decomposition::try_from((vec![1, 0, 1], 0)).unwrap();
    let b = Decomposition::try_from((vec![0, 0], 2)).unwrap();
    a.monoidal(b);
    assert_eq!(a.domain(), 5);
    assert_eq!(a.codomain(), 5);
    let images: Vec<usize> = (0..5).map(|i| a.apply(i)).collect();
    assert_eq!(images, vec![1, 0, 1, 2, 2]);
}

/// A cycle of distinct entries sends the last back to the first and fixes
/// everything else.
#[test]
fn cycle_closes_and_fixes_rest() {
    let p = from_cycle(6, &[4, 1, 3]);
    assert_eq!(p.apply(4), 1);
    assert_eq!(p.apply(1), 3);
    assert_eq!(p.apply(3), 4);
    assert_eq!(p.apply(0), 0);
    assert_eq!(p.apply(2), 2);
    assert_eq!(p.apply(5), 5);
    assert_eq!(from_cycle(4, &[2]), Permutation::identity(4));
}
