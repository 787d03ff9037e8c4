use rand::rngs::StdRng;
use rand::Rng;
use rand::SeedableRng;
use skewed_dataset::clusters::{assign_cluster_sizes, cluster_labels, supercluster_assignment};
use skewed_dataset::neighbors::{topk_indices, total_order_key};
use skewed_dataset::plan::{output_file_name, DatasetPlan, DIM, GT_K, N_TEST, N_TRAIN};
use skewed_dataset::rows::{flatten_rows, gather, gather_rows, row_shape};
use skewed_dataset::sampling::{
    pairs_from_index_draws, sample_point_pairs, shuffle_dataset, shuffled_indices, PointPair,
};

fn reference_topk(dists: &[f32], k: usize) -> Vec<usize> {
    let mut pairs: Vec<(usize, f32)> = dists.iter().copied().enumerate().collect();
    pairs.sort_by(|a, b| a.1.total_cmp(&b.1));
    pairs.truncate(k);
    pairs.iter().map(|(i, _)| *i).collect()
}

fn bits_of(dists: &[f32]) -> Vec<u32> {
    dists.iter().map(|d| d.to_bits()).collect()
}

#[test]
fn even_sizes_spread_remainder_over_first_clusters() {
    assert_eq!(assign_cluster_sizes(10, 3, &true), vec![4, 3, 3]);
    assert_eq!(assign_cluster_sizes(9, 3, &true), vec![3, 3, 3]);
    assert_eq!(assign_cluster_sizes(2, 4, &true), vec![1, 1, 0, 0]);
    assert_eq!(assign_cluster_sizes(0, 2, &true), vec![0, 0]);
}

#[test]
fn uneven_sizes_halve_and_last_takes_rest() {
    assert_eq!(assign_cluster_sizes(10, 3, &false), vec![5, 2, 3]);
    assert_eq!(assign_cluster_sizes(100, 1, &false), vec![100]);
    assert_eq!(assign_cluster_sizes(7, 4, &false), vec![3, 2, 1, 1]);
    assert_eq!(assign_cluster_sizes(70000, 5, &false), vec![35000, 17500, 8750, 4375, 4375]);
}

#[test]
fn uneven_sizes_with_no_clusters_are_empty() {
    assert_eq!(assign_cluster_sizes(10, 0, &false), Vec::<usize>::new());
}

#[test]
fn cluster_sizes_sum_to_total() {
    for total in [0usize, 1, 7, 70000, 12345] {
        for n in 1usize..9 {
            for even in [true, false] {
                let sizes = assign_cluster_sizes(total, n, &even);
                assert_eq!(sizes.len(), n);
                assert_eq!(sizes.iter().sum::<usize>(), total);
                if even {
                    let max = *sizes.iter().max().unwrap();
                    let min = *sizes.iter().min().unwrap();
                    assert!(max - min <= 1);
                }
            }
        }
    }
}

#[test]
fn superclusters_are_filled_in_order() {
    assert_eq!(supercluster_assignment(6, 3), vec![0, 0, 1, 1, 2, 2]);
    assert_eq!(supercluster_assignment(5, 3), vec![0, 0, 1, 1, 2]);
    assert_eq!(supercluster_assignment(7, 3), vec![0, 0, 0, 1, 1, 1, 2]);
    assert_eq!(supercluster_assignment(2, 5), vec![0, 1]);
    assert_eq!(supercluster_assignment(0, 4), Vec::<usize>::new());
    let parents = supercluster_assignment(256, 24);
    assert_eq!(parents.len(), 256);
    assert!(parents.iter().all(|&p| p < 24));
    assert_eq!(parents[10], 0);
    assert_eq!(parents[11], 1);
}

#[test]
fn labels_follow_cluster_sizes() {
    assert_eq!(cluster_labels(&[2, 0, 3]), vec![0, 0, 2, 2, 2]);
    assert_eq!(cluster_labels(&[]), Vec::<usize>::new());
    assert_eq!(cluster_labels(&[1]), vec![0]);
}

#[test]
fn shuffled_indices_are_a_permutation() {
    let mut rng = StdRng::seed_from_u64(42);
    let order = shuffled_indices(50, &mut rng);
    let mut sorted = order.clone();
    sorted.sort();
    assert_eq!(sorted, (0..50).collect::<Vec<usize>>());
    assert_ne!(order, (0..50).collect::<Vec<usize>>());
    assert_eq!(shuffled_indices(0, &mut rng), Vec::<usize>::new());
    assert_eq!(shuffled_indices(1, &mut rng), vec![0]);
}

#[test]
fn shuffling_keeps_cluster_sizes_and_pairs() {
    let mut rng = StdRng::seed_from_u64(7);
    let sizes = assign_cluster_sizes(30, 4, &true);
    let labels = cluster_labels(&sizes);
    let vectors: Vec<Vec<i32>> = labels.iter().enumerate().map(|(i, &l)| vec![i as i32, l as i32]).collect();
    let (sv, sl) = shuffle_dataset(30, &vectors, &labels, &mut rng);
    assert_eq!(sv.len(), 30);
    assert_eq!(sl.len(), 30);
    for (row, label) in sv.iter().zip(sl.iter()) {
        assert_eq!(row[1] as usize, *label);
        assert_eq!(labels[row[0] as usize], *label);
    }
    for c in 0..4 {
        assert_eq!(sl.iter().filter(|&&l| l == c).count(), sizes[c]);
    }
    assert_ne!(sl, labels);
}

#[test]
fn gather_reorders() {
    assert_eq!(gather(&[10, 20, 30], &[2, 0, 0]), vec![30, 10, 10]);
    let rows = vec![vec![1u8, 2], vec![3], vec![]];
    assert_eq!(gather_rows(&rows, &[1, 2, 0]), vec![vec![3u8], vec![], vec![1, 2]]);
}

#[test]
fn flatten_and_shape() {
    let rows = vec![vec![1.5f32, 2.5], vec![3.5, 4.5], vec![5.5, 6.5]];
    assert_eq!(flatten_rows(&rows), vec![1.5, 2.5, 3.5, 4.5, 5.5, 6.5]);
    assert_eq!(row_shape(&rows), (3, 2));
    let ids = vec![vec![1i32, 2, 3], vec![4, 5, 6]];
    assert_eq!(flatten_rows(&ids), vec![1, 2, 3, 4, 5, 6]);
    let empty: Vec<Vec<i32>> = Vec::new();
    assert_eq!(flatten_rows(&empty), Vec::<i32>::new());
    assert_eq!(row_shape(&empty), (0, 0));
    let dim = 4;
    let square: Vec<Vec<u32>> = (0..3).map(|r| (0..dim).map(|c| (r * 10 + c) as u32).collect()).collect();
    let flat = flatten_rows(&square);
    for r in 0..3 {
        for c in 0..dim {
            assert_eq!(flat[r * dim + c], square[r][c]);
        }
    }
}

#[test]
fn total_order_key_matches_total_cmp() {
    let values = [
        f32::NEG_INFINITY, -3.5, -1.0, -f32::MIN_POSITIVE, -0.0, 0.0, f32::MIN_POSITIVE, 1.0, 2.25,
        f32::INFINITY, f32::NAN, -f32::NAN, f32::MAX, f32::MIN,
    ];
    for a in values {
        for b in values {
            let ka = total_order_key(a.to_bits());
            let kb = total_order_key(b.to_bits());
            assert_eq!(ka.cmp(&kb), a.total_cmp(&b), "{} vs {}", a, b);
        }
    }
    assert_eq!(total_order_key(0), 0);
    assert_eq!(total_order_key(0x8000_0000), -1);
    assert_eq!(total_order_key(0xFFFF_FFFF), i32::MIN);
    assert_eq!(total_order_key(0x7FFF_FFFF), i32::MAX);
}

#[test]
fn topk_selects_nearest_in_stable_order() {
    let d = [3.0f32, 1.0, 2.0, 1.0];
    assert_eq!(topk_indices(&bits_of(&d), 2), vec![1, 3]);
    assert_eq!(topk_indices(&bits_of(&d), 10), vec![1, 3, 2, 0]);
    assert_eq!(topk_indices(&bits_of(&d), 0), Vec::<usize>::new());
    assert_eq!(topk_indices(&[], 3), Vec::<usize>::new());
    let bits = bits_of(&[2.0f32, 2.0, 1.0, 2.0, 0.5]);
    assert_eq!(topk_indices(&bits, 3), topk_indices(&bits, 3));
    assert_eq!(topk_indices(&bits, 3), vec![4, 2, 0]);
    let signed = [0.0f32, -0.0, f32::NAN, -2.0, 5.0];
    assert_eq!(topk_indices(&bits_of(&signed), 5), vec![3, 1, 0, 4, 2]);
}

#[test]
fn topk_matches_sorting_reference() {
    let mut rng = StdRng::seed_from_u64(3);
    for n in [1usize, 5, 40, 300] {
        let dists: Vec<f32> = (0..n).map(|_| (rng.gen_range(0..20) as f32) * 0.5).collect();
        for k in [0usize, 1, 3, 10, 100, 400] {
            assert_eq!(topk_indices(&bits_of(&dists), k), reference_topk(&dists, k));
        }
    }
}

#[test]
fn output_name_gets_hdf5_suffix_once() {
    assert_eq!(output_file_name("data"), "data.hdf5");
    assert_eq!(output_file_name("data.hdf5"), "data.hdf5");
    assert_eq!(output_file_name(""), ".hdf5");
    assert_eq!(output_file_name("a.HDF5"), "a.HDF5.hdf5");
    assert_eq!(output_file_name("hdf5"), "hdf5.hdf5");
    assert_eq!(output_file_name("réseau.hdf5"), "réseau.hdf5");
    let once = output_file_name("x");
    assert_eq!(output_file_name(&once), once);
}

#[test]
fn plan_has_fixed_sizes() {
    let plan = DatasetPlan::new(6, 3, 7, &"out".to_string());
    assert_eq!(plan.n_train, 70000);
    assert_eq!(plan.n_test, 10000);
    assert_eq!(plan.dim, 768);
    assert_eq!(plan.gt_k, 100);
    assert_eq!(plan.n_clusters, 6);
    assert_eq!(plan.n_superclusters, 3);
    assert_eq!(plan.seed, 7);
    assert_eq!(plan.output, "out.hdf5");
    assert_eq!((N_TRAIN, N_TEST, DIM, GT_K), (70000, 10000, 768, 100));
    let default = DatasetPlan::default();
    assert_eq!(default.n_clusters, 256);
    assert_eq!(default.n_superclusters, 24);
    assert_eq!(default.seed, 42);
    assert_eq!(default.output, "skewed-70000-euclidean.hdf5");
}

#[test]
fn sampled_pairs_are_distinct_and_classified() {
    let mut rng = StdRng::seed_from_u64(11);
    let labels = vec![0, 0, 1, 1, 2];
    let pairs = sample_point_pairs(5, &labels, 200, &mut rng);
    assert!(pairs.len() <= 200);
    assert!(pairs.len() > 100);
    for p in &pairs {
        assert!(p.first < 5 && p.second < 5);
        assert_ne!(p.first, p.second);
        assert_eq!(p.same_cluster, labels[p.first] == labels[p.second]);
    }
    assert!(pairs.iter().any(|p| p.same_cluster));
    assert!(pairs.iter().any(|p| !p.same_cluster));
    assert!(pairs.iter().any(|p| p.first != pairs[0].first));
    assert_eq!(sample_point_pairs(1, &[0], 10, &mut rng).len(), 0);
    assert_eq!(sample_point_pairs(0, &[], 0, &mut rng).len(), 0);
    assert_eq!(sample_point_pairs(5, &[0], 0, &mut rng).len(), 0);
}

#[test]
fn pairs_keep_distinct_draws_in_order() {
    let labels = [0usize, 0, 1, 1, 1];
    let pairs = pairs_from_index_draws(&[(0, 1), (2, 2), (1, 2), (3, 4)], &labels);
    assert_eq!(
        pairs,
        vec![
            PointPair { first: 0, second: 1, same_cluster: true },
            PointPair { first: 1, second: 2, same_cluster: false },
            PointPair { first: 3, second: 4, same_cluster: true },
        ]
    );
    assert_eq!(pairs_from_index_draws(&[], &labels), Vec::<PointPair>::new());
}
