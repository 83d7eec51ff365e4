use egg::tools::{choose_subsets, combinations, group_keyed, product, Grouped};
use indexmap::IndexSet;
use std::iter::FromIterator;

#[test]
fn check_comb_amount() {
    let v1 = vec![1, 2, 3];
    let v2 = vec![4, 5, 6];
    let vecs = vec![v1, v2];
    let combs = combinations(&vecs);
    assert_eq!(combs.len(), 9);
    for v in &combs {
        assert_eq!(v.len(), 2);
    }
    // No doubles
    let as_set: IndexSet<&Vec<&i32>> = IndexSet::from_iter(combs.iter());
    assert_eq!(as_set.len(), 9);
}

#[test]
fn check_choose_amount() {
    let v3 = vec![1, 2, 3, 4, 5, 6, 7, 8, 9];
    for i in 1..9 {
        let chosen = choose_subsets(&v3, i);
        for v in &chosen {
            assert_eq!(v.len(), i);
        }
        let as_set: IndexSet<&Vec<&i32>> = IndexSet::from_iter(chosen.iter());
        assert_eq!(chosen.len(), as_set.len());
    }
    assert_eq!(choose_subsets(&v3, 2).len(), 36);
}

fn values(res: &Vec<Vec<&i32>>) -> Vec<Vec<i32>> {
    res.iter().map(|v| v.iter().map(|x| **x).collect()).collect()
}

#[test]
fn product_order_is_reversed_lexicographic() {
    let a = vec![1, 2];
    let b = vec![3, 4, 5];
    let res = product(&[&a, &b]);
    assert_eq!(
        values(&res),
        vec![vec![3, 1], vec![4, 1], vec![5, 1], vec![3, 2], vec![4, 2], vec![5, 2]]
    );
}

#[test]
fn product_of_three_vectors() {
    let a = vec![1, 2];
    let b = vec![3];
    let c = vec![4, 5];
    let res = product(&[&a, &b, &c]);
    assert_eq!(
        values(&res),
        vec![vec![4, 3, 1], vec![5, 3, 1], vec![4, 3, 2], vec![5, 3, 2]]
    );
}

#[test]
fn product_of_nothing_is_one_empty_tuple() {
    let none: [&Vec<i32>; 0] = [];
    let res = product(&none);
    assert_eq!(res.len(), 1);
    assert!(res[0].is_empty());
}

#[test]
fn product_with_an_empty_vector_is_empty() {
    let a = vec![1, 2];
    let b: Vec<i32> = vec![];
    assert!(product(&[&a, &b]).is_empty());
}

#[test]
fn product_of_one_vector() {
    let a = vec![7, 8];
    assert_eq!(values(&product(&[&a])), vec![vec![7], vec![8]]);
}

#[test]
fn combinations_order_is_lexicographic() {
    let vecs = vec![vec![1, 2], vec![3, 4, 5]];
    assert_eq!(
        values(&combinations(&vecs)),
        vec![vec![1, 3], vec![1, 4], vec![1, 5], vec![2, 3], vec![2, 4], vec![2, 5]]
    );
}

#[test]
fn combinations_of_nothing_is_empty() {
    let vecs: Vec<Vec<i32>> = vec![];
    assert!(combinations(&vecs).is_empty());
}

#[test]
fn product_reverses_combinations_on_values() {
    let a = vec![1, 2];
    let b = vec![3, 4];
    let c = vec![5, 6, 7];
    let p = values(&product(&[&a, &b, &c]));
    let vecs = vec![a.clone(), b.clone(), c.clone()];
    let q = values(&combinations(&vecs));
    assert_eq!(p.len(), 12);
    assert_eq!(p.len(), q.len());
    for (x, y) in p.iter().zip(q.iter()) {
        let mut y = y.clone();
        y.reverse();
        assert_eq!(*x, y);
    }
}

#[test]
fn choose_order() {
    let v = vec![1, 2, 3];
    assert_eq!(
        values(&choose_subsets(&v, 2)),
        vec![vec![2, 1], vec![3, 1], vec![3, 2]]
    );
    assert_eq!(values(&choose_subsets(&v, 1)), vec![vec![1], vec![2], vec![3]]);
    assert_eq!(values(&choose_subsets(&v, 3)), vec![vec![3, 2, 1]]);
}

#[test]
fn choose_edge_cases() {
    let v = vec![1, 2, 3];
    assert!(choose_subsets(&v, 0).is_empty());
    assert!(choose_subsets(&v, 4).is_empty());
    let empty: Vec<i32> = vec![];
    assert!(choose_subsets(&empty, 1).is_empty());
    assert!(choose_subsets(&empty, 0).is_empty());
}

#[test]
fn choose_counts_are_binomial() {
    let v: Vec<i32> = (1..=7).collect();
    let expected = [7, 21, 35, 35, 21, 7, 1, 0];
    for k in 1..=8 {
        assert_eq!(choose_subsets(&v, k).len(), expected[k - 1]);
    }
}

#[test]
fn group_keyed_keeps_first_occurrence_order() {
    let pairs = vec![(2u64, 'a'), (1, 'b'), (2, 'c'), (3, 'd'), (1, 'e')];
    let groups = group_keyed(pairs);
    assert_eq!(
        groups,
        vec![(2, vec!['a', 'c']), (1, vec!['b', 'e']), (3, vec!['d'])]
    );
}

#[test]
fn group_keyed_empty() {
    let pairs: Vec<(u64, i32)> = vec![];
    assert!(group_keyed(pairs).is_empty());
}

#[test]
fn grouped_by_remainder() {
    let items = vec![10u32, 3, 7, 4, 12, 5];
    let groups = items.grouped(|x| (*x % 3) as u64);
    assert_eq!(
        groups,
        vec![(1, vec![10, 7, 4]), (0, vec![3, 12]), (2, vec![5])]
    );
}

#[test]
fn choose_picks_are_reversed_subsequences() {
    let v: Vec<i32> = (1..=6).collect();
    for k in 1..=6 {
        for pick in values(&choose_subsets(&v, k)) {
            assert_eq!(pick.len(), k);
            // Read backwards, the pick increases, as the elements of `v` do.
            for w in pick.windows(2) {
                assert!(w[0] > w[1]);
            }
        }
    }
}

#[test]
fn product_components_come_from_reversed_vectors() {
    let a = vec![1, 2];
    let b = vec![10, 20, 30];
    let c = vec![100];
    let vecs = [&a, &b, &c];
    let res = values(&product(&vecs));
    assert_eq!(res.len(), 2 * 3 * 1);
    for t in &res {
        assert_eq!(t.len(), 3);
        for (j, x) in t.iter().enumerate() {
            assert!(vecs[2 - j].contains(x));
        }
    }
    let set: IndexSet<&Vec<i32>> = IndexSet::from_iter(res.iter());
    assert_eq!(set.len(), res.len());
}

#[test]
fn grouped_keeps_every_item_once() {
    let items: Vec<u64> = vec![5, 9, 5, 2, 9, 9, 7];
    let groups = items.clone().grouped(|x| *x);
    let keys: Vec<u64> = groups.iter().map(|g| g.0).collect();
    assert_eq!(keys, vec![5, 9, 2, 7]);
    let total: usize = groups.iter().map(|g| g.1.len()).sum();
    assert_eq!(total, items.len());
    for (k, g) in &groups {
        assert!(g.iter().all(|x| x == k));
    }
}

#[test]
fn product_unfolds_on_first_vector() {
    let a = vec![1, 2];
    let b = vec![3, 4];
    let c = vec![5];
    let whole = values(&product(&[&a, &b, &c]));
    let rest = values(&product(&[&b, &c]));
    let mut expected: Vec<Vec<i32>> = Vec::new();
    for x in &a {
        for t in &rest {
            let mut t = t.clone();
            t.push(*x);
            expected.push(t);
        }
    }
    assert_eq!(whole, expected);
}

#[test]
fn choose_unfolds_over_positions() {
    let v = vec![1, 2, 3, 4, 5];
    let k = 3;
    let whole = values(&choose_subsets(&v, k));
    let mut expected: Vec<Vec<i32>> = Vec::new();
    for i in 0..v.len() {
        for t in values(&choose_subsets(&v[i + 1..], k - 1)) {
            let mut t = t.clone();
            t.push(v[i]);
            expected.push(t);
        }
    }
    assert_eq!(whole, expected);
}
