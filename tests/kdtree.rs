use kdtree::metric::{distance_to_space, squared_euclidean};
use kdtree::{ErrorKind, KdTree};

fn lcg(state: &mut u64) -> i32 {
    *state = state.wrapping_mul(6364136223846793005).wrapping_add(1442695040888963407);
    ((*state >> 33) % 201) as i32 - 100
}

fn brute_force(points: &[Vec<i32>], q: &[i32]) -> Vec<u128> {
    let mut d: Vec<u128> = points
        .iter()
        .map(|p| p.iter().zip(q).map(|(a, b)| ((*a as i64 - *b as i64) * (*a as i64 - *b as i64)) as u128).sum())
        .collect();
    d.sort();
    d
}

#[test]
fn size_counts_successful_inserts() {
    let mut tree: KdTree<usize> = KdTree::new(2);
    assert_eq!(tree.size(), 0);
    for i in 0..40 {
        assert_eq!(tree.add(vec![i as i32, -(i as i32)], i), Ok(()));
        assert_eq!(tree.size(), i + 1);
    }
    assert_eq!(tree.add(vec![1], 99), Err(ErrorKind::WrongDimension));
    assert_eq!(tree.add(vec![1, 2, 3], 99), Err(ErrorKind::WrongDimension));
    assert_eq!(tree.size(), 40);
}

#[test]
fn wrong_dimension_is_refused() {
    let mut tree: KdTree<&str> = KdTree::new(2);
    assert_eq!(tree.add(vec![1], "x"), Err(ErrorKind::WrongDimension));
    assert_eq!(tree.size(), 0);
    assert!(matches!(tree.nearest(&vec![1, 2, 3], 1), Err(ErrorKind::WrongDimension)));
}

#[test]
fn zero_capacity_refuses_every_insert() {
    let mut tree: KdTree<&str> = KdTree::new_with_capacity(2, 0);
    assert_eq!(tree.add(vec![0, 0], "a"), Err(ErrorKind::ZeroCapacity));
    assert_eq!(tree.add(vec![0], "a"), Err(ErrorKind::ZeroCapacity));
    assert_eq!(tree.size(), 0);
}

#[test]
fn split_scenario_nearest_of_three() {
    let mut tree: KdTree<&str> = KdTree::new_with_capacity(2, 2);
    tree.add(vec![0, 0], "A").unwrap();
    tree.add(vec![1, 1], "B").unwrap();
    tree.add(vec![2, 2], "C").unwrap();
    assert_eq!(tree.size(), 3);
    let r = tree.nearest(&vec![0, 1], 1).unwrap();
    assert_eq!(r.len(), 1);
    assert_eq!(r[0].0, 1);
    assert!(*r[0].1 == "A" || *r[0].1 == "B");
}

#[test]
fn split_scenario_far_third_point() {
    let mut tree: KdTree<&str> = KdTree::new_with_capacity(2, 2);
    tree.add(vec![0, 0], "A").unwrap();
    tree.add(vec![1, 1], "B").unwrap();
    tree.add(vec![5, 5], "C").unwrap();
    let r = tree.nearest(&vec![0, 1], 3).unwrap();
    let d: Vec<u128> = r.iter().map(|c| c.0).collect();
    assert_eq!(d, vec![1, 1, 41]);
    assert_eq!(*r[2].1, "C");
}

#[test]
fn nearest_with_zero_count_is_empty() {
    let mut tree: KdTree<u32> = KdTree::new(1);
    tree.add(vec![3], 3).unwrap();
    assert!(tree.nearest(&vec![0], 0).unwrap().is_empty());
    let empty: KdTree<u32> = KdTree::new(1);
    assert!(empty.nearest(&vec![0], 5).unwrap().is_empty());
}

#[test]
fn nearest_count_is_clamped_to_size() {
    let mut tree: KdTree<u32> = KdTree::new_with_capacity(1, 2);
    for i in 0..5 {
        tree.add(vec![i * 10], i as u32).unwrap();
    }
    let r = tree.nearest(&vec![12], 100).unwrap();
    assert_eq!(r.len(), 5);
    let d: Vec<u128> = r.iter().map(|c| c.0).collect();
    assert_eq!(d, vec![4, 64, 144, 324, 784]);
    assert_eq!(*r[0].1, 1);
}

#[test]
fn nearest_is_sorted_and_matches_brute_force() {
    let mut state: u64 = 7;
    for dims in 1..4usize {
        for capacity in [1usize, 2, 3, 16] {
            let mut tree: KdTree<usize> = KdTree::new_with_capacity(dims, capacity);
            let mut points: Vec<Vec<i32>> = Vec::new();
            for i in 0..120 {
                let p: Vec<i32> = (0..dims).map(|_| lcg(&mut state)).collect();
                tree.add(p.clone(), i).unwrap();
                points.push(p);
            }
            for _ in 0..15 {
                let q: Vec<i32> = (0..dims).map(|_| lcg(&mut state)).collect();
                let expected = brute_force(&points, &q);
                let all = tree.nearest(&q, tree.size()).unwrap();
                let got: Vec<u128> = all.iter().map(|c| c.0).collect();
                assert_eq!(got, expected);
                for c in &all {
                    assert_eq!(c.0, squared_euclidean(&q.to_vec(), &points[*c.1]));
                }
                for k in [1usize, 3, 7] {
                    let r = tree.nearest(&q, k).unwrap();
                    let d: Vec<u128> = r.iter().map(|c| c.0).collect();
                    assert_eq!(d, expected[..k].to_vec());
                }
            }
        }
    }
}

#[test]
fn coincident_points_stay_in_one_leaf() {
    let mut tree: KdTree<u32> = KdTree::new_with_capacity(2, 2);
    for i in 0..10 {
        tree.add(vec![4, 4], i).unwrap();
    }
    tree.add(vec![9, 4], 10).unwrap();
    tree.add(vec![4, 4], 11).unwrap();
    assert_eq!(tree.size(), 12);
    let r = tree.nearest(&vec![9, 4], 2).unwrap();
    assert_eq!(r[0].0, 0);
    assert_eq!(*r[0].1, 10);
    assert_eq!(r[1].0, 25);
    let all = tree.nearest(&vec![0, 0], 20).unwrap();
    assert_eq!(all.len(), 12);
}

#[test]
fn extreme_coordinates() {
    let mut tree: KdTree<u8> = KdTree::new_with_capacity(2, 1);
    tree.add(vec![i32::MIN, i32::MIN], 0).unwrap();
    tree.add(vec![i32::MAX, i32::MAX], 1).unwrap();
    tree.add(vec![0, 0], 2).unwrap();
    let r = tree.nearest(&vec![i32::MIN, i32::MIN], 3).unwrap();
    assert_eq!(r[0].0, 0);
    assert_eq!(*r[2].1, 1);
    let span: u128 = (u32::MAX as u128) * (u32::MAX as u128) * 2;
    assert_eq!(r[2].0, span);
}

#[test]
fn squared_euclidean_exact_values() {
    assert_eq!(squared_euclidean(&vec![1, 2], &vec![4, 6]), 25);
    assert_eq!(squared_euclidean(&vec![], &vec![]), 0);
    assert_eq!(squared_euclidean(&vec![-3, 0, 7], &vec![-3, 0, 7]), 0);
}

#[test]
fn distance_to_space_exact_values() {
    assert_eq!(distance_to_space(&vec![0, 0], &vec![1, -1], &vec![3, 1]), 1);
    assert_eq!(distance_to_space(&vec![5, 5], &vec![1, -1], &vec![3, 1]), 4 + 16);
    assert_eq!(distance_to_space(&vec![2, 0], &vec![1, -1], &vec![3, 1]), 0);
}
