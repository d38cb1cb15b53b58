use rust_macro::all_direction_tree_dp::AllDirectionTreeDP;
use rust_macro::binary_search::binary_search;
use rust_macro::dp::{DpTable, DpValue, DP};
use rust_macro::{CumulativeSum, CumulativeSum2D, Imos1D, Imos2D, PersistentUnionFind, UnionFind};

#[test]
fn test_subtree_size() {
    let edges = vec![(0, 1), (0, 2), (1, 3), (1, 4)];
    let reroot = AllDirectionTreeDP::new(5, &edges, 0usize, |a, b| a + b, |x| x + 1);
    let result = reroot.solve();
    assert_eq!(result, vec![5, 5, 5, 5, 5]);
}

#[test]
fn test_reroot_heights_on_a_path() {
    let edges = vec![(0, 1), (1, 2), (2, 3)];
    let reroot = AllDirectionTreeDP::new(
        4,
        &edges,
        0usize,
        |a: usize, b: usize| a.max(b),
        |x: usize| x + 1,
    );
    assert_eq!(reroot.solve(), vec![4, 3, 3, 4]);
}

#[test]
fn test_reroot_single_node() {
    let edges: Vec<(usize, usize)> = vec![];
    let reroot = AllDirectionTreeDP::new(1, &edges, 0u64, |a, b| a + b, |x| x + 1);
    assert_eq!(reroot.solve(), vec![1]);
}

#[test]
fn test_reroot_size_is_n_on_a_star() {
    let edges = vec![(0, 1), (0, 2), (0, 3), (0, 4), (0, 5)];
    let reroot = AllDirectionTreeDP::new(6, &edges, 0usize, |a, b| a + b, |x| x + 1);
    assert_eq!(reroot.solve(), vec![6; 6]);
}

#[test]
fn test_reroot_order_sensitive_merge() {
    let edges = vec![(0, 1), (0, 2)];
    let reroot = AllDirectionTreeDP::new(
        3,
        &edges,
        String::new(),
        |a: String, b: String| format!("{}{}", a, b),
        |x: String| format!("({})", x),
    );
    assert_eq!(reroot.solve(), vec!["(()())", "((()))", "((()))"]);
}

#[test]
fn test_binary_search_boundary() {
    assert_eq!(binary_search(-1, 100, |x| x >= 37), 37);
    assert_eq!(binary_search(100, -1, |x| x * x <= 50), 7);
    assert_eq!(binary_search(0, 1, |_| true), 1);
    assert_eq!(binary_search(5, 5, |_| false), 5);
    assert_eq!(binary_search(-10, 10, |_| false), 10);
    assert_eq!(binary_search(-10, 10, |_| true), -9);
    assert_eq!(binary_search(-7, -2, |x| x >= -4), -4);
}

#[test]
fn test_cumulative_sum() {
    let arr = vec![1, 2, 3, 4, 5];
    let cum_sum = CumulativeSum::new(&arr);

    assert_eq!(cum_sum.sum(0, 0), 0);
    assert_eq!(cum_sum.sum(0, 1), 1);
    assert_eq!(cum_sum.sum(0, 2), 3);
    assert_eq!(cum_sum.sum(0, 3), 6);
    assert_eq!(cum_sum.sum(0, 4), 10);
    assert_eq!(cum_sum.sum(1, 3), 5);
    assert_eq!(cum_sum.sum(1, 4), 9);
}

#[test]
fn test_cumulative_sum_round_trip() {
    let arr = vec![1i64, 2, 3, 4, 5];
    let cum_sum = CumulativeSum::new(&arr);
    assert_eq!(cum_sum.sum(1, 3), arr[1] + arr[2]);
    assert_eq!(cum_sum.sum(0, 5), 15);
    assert_eq!(cum_sum.sum(5, 5), 0);
    let empty: Vec<i64> = vec![];
    assert_eq!(CumulativeSum::new(&empty).sum(0, 0), 0);
}

#[test]
fn cumulative_sum_test_cumulative_sum_2d() {
    let arr = vec![vec![1, 2, 3], vec![4, 5, 6]];
    let cum_sum = CumulativeSum2D::new(&arr);

    assert_eq!(cum_sum.sum(0, 0, 1, 1), 1);
    assert_eq!(cum_sum.sum(0, 0, 1, 2), 3);
    assert_eq!(cum_sum.sum(0, 0, 2, 2), 12);
    assert_eq!(cum_sum.sum(0, 0, 2, 3), 21);
    assert_eq!(cum_sum.sum(1, 1, 2, 3), 11);
}

#[test]
fn cumulative_sum_2d_test_cumulative_sum_2d() {
    let matrix = vec![vec![1, 2, 3], vec![4, 5, 6], vec![7, 8, 9]];
    let cum = rust_macro::cumulative_sum_2d::CumulativeSum2D::new(&matrix);

    assert_eq!(cum.sum(0, 0, 1, 1), 1);
    assert_eq!(cum.sum(0, 0, 2, 2), 12);
    assert_eq!(cum.sum(1, 1, 3, 3), 28);
    assert_eq!(cum.sum(0, 0, 3, 3), 45);
}

#[test]
fn test_cumulative_sum_2d_empty_rectangles() {
    let arr = vec![vec![1i64, -2], vec![3, 4]];
    let cum = CumulativeSum2D::new(&arr);
    assert_eq!(cum.sum(1, 1, 1, 2), 0);
    assert_eq!(cum.sum(0, 1, 2, 1), 0);
    assert_eq!(cum.sum(0, 1, 2, 2), 2);
    let none: Vec<Vec<i64>> = vec![];
    assert_eq!(CumulativeSum2D::new(&none).sum(0, 0, 0, 0), 0);
    assert_eq!(rust_macro::cumulative_sum_2d::CumulativeSum2D::new(&none).sum(0, 0, 0, 0), 0);
}

#[test]
fn test_imos1d_basic() {
    let mut imos = Imos1D::new(5);
    imos.add(1, 4, 2);
    imos.add(2, 5, 3);
    let res = imos.build();
    assert_eq!(res, vec![0, 2, 5, 5, 3]);
}

#[test]
fn test_imos1d_out_of_range_ends_are_ignored() {
    let mut imos = Imos1D::new(3);
    imos.add(1, 7, 4);
    imos.add(9, 10, 5);
    imos.add(0, 3, -1);
    assert_eq!(imos.build(), vec![-1, 3, 3]);
    let mut none = Imos1D::new(0);
    none.add(0, 0, 9);
    assert_eq!(none.build(), Vec::<i64>::new());
}

#[test]
fn test_imos2d_basic() {
    let mut imos = Imos2D::new(3, 3);
    imos.add(0, 0, 2, 2, 1);
    imos.add(1, 1, 3, 3, 2);
    let res = imos.build();
    assert_eq!(res, vec![vec![1, 1, 0], vec![1, 3, 2], vec![0, 2, 2],]);
}

#[test]
fn test_imos2d_clipped_rectangle() {
    let mut imos = Imos2D::new(2, 3);
    imos.add(1, 1, 9, 9, 5);
    assert_eq!(imos.build(), vec![vec![0, 0, 0], vec![0, 5, 5]]);
}

#[test]
fn test_union_find() {
    let mut uf = UnionFind::new(5);

    assert!(uf.same(0, 0));
    assert!(!uf.same(0, 1));

    uf.unite(0, 1);
    assert!(uf.same(0, 1));

    uf.unite(2, 3);
    assert!(uf.same(2, 3));
    assert!(!uf.same(1, 2));

    uf.unite(1, 2);
    assert!(uf.same(0, 3));

    assert_eq!(uf.size(0), 4);
}

#[test]
fn test_union_find_is_an_equivalence() {
    let mut uf = UnionFind::new(6);
    uf.unite(0, 1);
    uf.unite(4, 5);
    uf.unite(1, 5);
    for x in 0..6 {
        assert!(uf.same(x, x));
        for y in 0..6 {
            assert_eq!(uf.same(x, y), uf.same(y, x));
            for z in 0..6 {
                if uf.same(x, y) && uf.same(y, z) {
                    assert!(uf.same(x, z));
                }
            }
        }
    }
    assert_eq!(uf.size(4), 4);
    assert_eq!(uf.size(2), 1);
    assert!(!uf.same(0, 3));
}

#[test]
fn test_union_find_representatives() {
    let mut uf = UnionFind::new(4);
    assert_eq!(uf.find(2), 2);
    uf.unite(0, 1);
    assert_eq!(uf.find(1), 0);
    uf.unite(2, 0);
    assert_eq!(uf.find(2), 0);
    uf.unite(3, 3);
    assert_eq!(uf.find(3), 3);
    uf.unite(0, 2);
    assert_eq!(uf.size(1), 3);
}

#[test]
fn test_persistent_union_find() {
    let mut uf = PersistentUnionFind::new(5);

    assert!(uf.same(0, 0));
    assert!(!uf.same(0, 1));

    uf.unite(0, 1);
    assert!(uf.same(0, 1));

    uf.unite(2, 3);
    assert!(uf.same(2, 3));
    assert!(!uf.same(1, 2));

    uf.unite(1, 2);
    assert!(uf.same(0, 3));

    assert_eq!(uf.size(0), 4);
}

#[test]
fn test_persistent_clone() {
    let mut uf1 = PersistentUnionFind::new(5);
    uf1.unite(0, 1);

    let mut uf2 = uf1.clone();

    uf1.unite(2, 3);

    assert!(uf1.same(2, 3));
    assert!(!uf2.same(2, 3));
    assert!(uf2.same(0, 1));
}

#[test]
fn test_persistent_find_compresses_without_changing_sets() {
    let mut uf = PersistentUnionFind::new(4);
    uf.unite(0, 1);
    uf.unite(2, 3);
    uf.unite(0, 2);
    assert_eq!(uf.find(3), 0);
    assert_eq!(uf.find(3), 0);
    assert_eq!(uf.size(3), 4);
}

#[test]
fn test_dp_table() {
    let mut table: DpTable<u32, i64> = DpTable::default();
    assert_eq!(table.get(&1), None);
    table.set(1, 10);
    table.set(2, 20);
    table.set(1, 11);
    assert_eq!(table.get(&1), Some(&11));
    assert_eq!(table.get(&2), Some(&20));
    table.table.insert(3, None);
    assert_eq!(table.get(&3), None);
    let v = DpValue { value: 7 };
    assert_eq!(v.clone().value, 7);
}

#[test]
fn test_union_find_sizes_add_up_and_chains_link() {
    let n = 7;
    let mut uf = UnionFind::new(n);
    for (a, b) in [(0, 1), (2, 3), (1, 3), (5, 6), (3, 0)] {
        uf.unite(a, b);
    }
    // 0-1-3-2 are linked by a chain of pairs, 5-6 by one pair, 4 by none.
    assert!(uf.same(0, 2));
    assert!(uf.same(5, 6));
    assert!(!uf.same(4, 0));
    assert!(!uf.same(2, 5));
    let mut total = 0;
    for x in 0..n {
        let same_as_x = (0..n).filter(|&y| uf.same(x, y)).count();
        assert_eq!(uf.size(x), same_as_x);
        if uf.find(x) == x {
            total += uf.size(x);
        }
    }
    assert_eq!(total, n);
}

#[test]
fn test_cumulative_sum_of_a_range_is_the_sum_of_its_parts() {
    let arr: Vec<i64> = vec![3, -1, 4, 1, -5, 9, 2, -6];
    let cs = CumulativeSum::new(&arr);
    for l in 0..=arr.len() {
        assert_eq!(cs.sum(l, l), 0);
        for r in l..=arr.len() {
            assert_eq!(cs.sum(l, r), arr[l..r].iter().sum::<i64>());
            for m in l..=r {
                assert_eq!(cs.sum(l, m) + cs.sum(m, r), cs.sum(l, r));
            }
        }
    }
}

#[test]
fn test_imos_2d_build_twice_sums_the_sums() {
    let mut imos = Imos2D::new(2, 2);
    imos.add(0, 0, 2, 2, 1);
    let once = imos.build();
    assert_eq!(once, vec![vec![1, 1], vec![1, 1]]);
    // The records now hold the sums themselves, so a second pass sums them.
    let twice = imos.build();
    assert_eq!(twice, vec![vec![1, 2], vec![2, 4]]);
}
