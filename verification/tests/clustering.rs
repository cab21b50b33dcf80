use std::sync::Arc;

use arrow_array::{Array, ArrayRef, FixedSizeListArray, Float32Array, Float64Array, Int32Array};
use arrow_schema::Field;
use kmeans::kernels::{argmin, argmin_value, argmin_value_float};
use kmeans::{
    compute_partitions, ArrowFloatType, Best, Error, Float32, Float64, FloatArithmetic, KMeanInit,
    KMeanMembership, KMeans, KMeansParams, MatrixView, MetricType, Run,
};
use rand::rngs::SmallRng;
use rand::{Rng, SeedableRng};

/// Hardware arithmetic on single precision vectors.
struct Float32Type;

fn wrap(x: f32) -> Float32 {
    Float32 { bits: x.to_bits() }
}

fn unwrap(x: Float32) -> f32 {
    f32::from_bits(x.bits)
}

fn wrap64(x: f64) -> Float64 {
    Float64 { bits: x.to_bits() }
}

fn unwrap64(x: Float64) -> f64 {
    f64::from_bits(x.bits)
}

impl FloatArithmetic for Float32Type {
    fn single_add(a: Float32, b: Float32) -> Float32 {
        wrap(unwrap(a) + unwrap(b))
    }
    fn single_sub(a: Float32, b: Float32) -> Float32 {
        wrap(unwrap(a) - unwrap(b))
    }
    fn single_div(a: Float32, b: Float32) -> Float32 {
        wrap(unwrap(a) / unwrap(b))
    }
    fn single_powi(a: Float32, n: i32) -> Float32 {
        wrap(unwrap(a).powi(n))
    }
    fn single_sqrt(a: Float32) -> Float32 {
        wrap(unwrap(a).sqrt())
    }
    fn single_from_usize(n: usize) -> Float32 {
        wrap(n as f32)
    }
    fn double_from_single(a: Float32) -> Float64 {
        wrap64(unwrap(a) as f64)
    }
    fn double_from_usize(n: usize) -> Float64 {
        wrap64(n as f64)
    }
    fn double_add(a: Float64, b: Float64) -> Float64 {
        wrap64(unwrap64(a) + unwrap64(b))
    }
    fn double_sub(a: Float64, b: Float64) -> Float64 {
        wrap64(unwrap64(a) - unwrap64(b))
    }
    fn double_div(a: Float64, b: Float64) -> Float64 {
        wrap64(unwrap64(a) / unwrap64(b))
    }
}

fn dot(x: &[f32], y: &[f32]) -> f32 {
    x.iter().zip(y).map(|(a, b)| a * b).sum()
}

fn l2(x: &[f32], y: &[f32]) -> f32 {
    x.iter().zip(y).map(|(a, b)| (a - b) * (a - b)).sum()
}

impl ArrowFloatType for Float32Type {
    type Native = f32;

    fn zero() -> f32 {
        0.0
    }
    fn plus(a: f32, b: f32) -> f32 {
        a + b
    }
    fn over(a: f32, b: f32) -> f32 {
        a / b
    }
    fn from_u64(n: u64) -> f32 {
        n as f32
    }
    fn l2(x: &[f32], y: &[f32]) -> Float32 {
        wrap(l2(x, y))
    }
    fn dot_distance(x: &[f32], y: &[f32]) -> Float32 {
        wrap(1.0 - dot(x, y))
    }
    fn norm_l2(x: &[f32]) -> Float32 {
        wrap(dot(x, x).sqrt())
    }
    fn cosine_fast(x: &[f32], x_norm: Float32, y: &[f32]) -> Float32 {
        wrap(1.0 - dot(x, y) / (unwrap(x_norm) * dot(y, y).sqrt()))
    }
    fn cosine_with_norms(x: &[f32], x_norm: Float32, y_norm: Float32, y: &[f32]) -> Float32 {
        wrap(1.0 - dot(x, y) / (unwrap(x_norm) * unwrap(y_norm)))
    }
    fn list_values(list: &FixedSizeListArray) -> Option<Vec<f32>> {
        let values = list.values().as_any().downcast_ref::<Float32Array>()?;
        Some(values.values().to_vec())
    }
}

fn list_of(values: ArrayRef, width: i32) -> FixedSizeListArray {
    let field = Field::new("item", values.data_type().clone(), true);
    FixedSizeListArray::try_new(Arc::new(field), width, values, None).unwrap()
}

fn float_list(values: Vec<f32>, width: i32) -> FixedSizeListArray {
    list_of(Arc::new(Float32Array::from(values)), width)
}

fn generate_random_array(n: usize) -> Vec<f32> {
    let mut rng = rand::thread_rng();
    (0..n).map(|_| rng.gen::<f32>()).collect()
}

fn params() -> KMeansParams<Float32Type> {
    KMeansParams::default()
}

fn error_of(r: Result<KMeans<Float32Type>, Error>) -> Error {
    match r {
        Ok(_) => panic!("Should fail to train KMeans"),
        Err(e) => e,
    }
}

fn membership(
    data: Vec<f32>,
    dimension: usize,
    parts: Vec<(u32, f32)>,
    k: usize,
) -> KMeanMembership<Float32Type> {
    KMeanMembership {
        data: Arc::new(data),
        dimension,
        cluster_id_and_distances: parts.into_iter().map(|(c, d)| (c, wrap(d))).collect(),
        k,
        metric_type: MetricType::L2,
    }
}

fn model(centroids: Vec<f32>, dimension: usize, metric: MetricType) -> KMeans<Float32Type> {
    let k = centroids.len() / dimension;
    KMeans::with_centroids(Arc::new(centroids), k, dimension, metric)
}

fn ids(m: &KMeanMembership<Float32Type>) -> Vec<u32> {
    m.cluster_id_and_distances.iter().map(|(c, _)| *c).collect()
}

#[test]
fn test_train_with_small_dataset() {
    let data = float_list(vec![1.0, 2.0, 3.0, 4.0], 2);
    match KMeans::<Float32Type>::new(&data, 128, 5) {
        Ok(_) => panic!("Should fail to train KMeans"),
        Err(e) => {
            assert!(e.to_string().contains("smaller than"));
        }
    }
}

#[test]
fn test_compute_partitions() {
    const DIM: usize = 256;
    let centroids = generate_random_array(DIM * 18);
    let data = generate_random_array(DIM * 20);

    let expected = data
        .chunks(DIM)
        .map(|row| {
            let dists: Vec<Float32> =
                centroids.chunks(DIM).map(|centroid| wrap(l2(row, centroid))).collect();
            argmin(&dists).unwrap()
        })
        .collect::<Vec<_>>();
    let actual =
        compute_partitions::<Float32Type>(&centroids, &data, DIM, MetricType::L2).unwrap();
    assert_eq!(expected, actual);
}

#[test]
fn too_few_points_error_counts_vectors_and_clusters() {
    let data = float_list(vec![1.0, 2.0, 3.0, 4.0], 2);
    let e = error_of(KMeans::<Float32Type>::new(&data, 128, 5));
    assert!(matches!(e, Error::TooFewPoints { n: 2, k: 128 }));
    assert_eq!(
        e.to_string(),
        "KMeans: training does not have sufficient data points: n(2) is smaller than k(128)"
    );
    let zero = Error::TooFewPoints { n: 0, k: 1234567890 };
    assert!(zero.to_string().contains("n(0) is smaller than k(1234567890)"));
}

#[test]
fn other_types_are_refused() {
    let integers = list_of(Arc::new(Int32Array::from(vec![1, 2, 3, 4])), 2);
    let e = error_of(KMeans::<Float32Type>::new(&integers, 1, 5));
    assert_eq!(e.to_string(), "KMeans: data must be floating number, got: Int32");
    let doubles = list_of(Arc::new(Float64Array::from(vec![1.0, 2.0, 3.0, 4.0])), 2);
    let e = error_of(KMeans::<Float32Type>::new(&doubles, 1, 5));
    assert_eq!(e.to_string(), "KMeans: data must be floating number, got: Float64");
}

#[test]
fn shapes_that_cannot_be_trained_are_refused() {
    let flat = float_list(vec![1.0, 2.0, 3.0, 4.0], 0);
    assert_eq!(flat.len(), 4);
    let e = error_of(KMeans::<Float32Type>::new(&flat, 1, 5));
    assert!(matches!(e, Error::InvalidShape));
    assert_eq!(e.to_string(), "KMeans: the shape of the data does not fit the request");
}

#[test]
fn vectors_that_belong_to_no_cluster_are_refused() {
    let data = float_list(vec![1.0, 2.0], 1);
    let e = error_of(KMeans::<Float32Type>::new(&data, 0, 5));
    assert!(matches!(e, Error::NoCluster));
    let mut given = params();
    given.max_iters = 1;
    given.centroids = Some(Arc::new(vec![0.0, 100.0]));
    let model = KMeans::<Float32Type>::new_with_params(&data, 1, &given).unwrap();
    assert_eq!(*model.centroids, vec![1.5]);
    given.centroids = Some(Arc::new(vec![100.0, 0.0]));
    let e = error_of(KMeans::<Float32Type>::new_with_params(&data, 1, &given));
    assert!(matches!(e, Error::NoCluster));
}

#[test]
fn squared_distances_to_few_centroids_never_fail() {
    let data = float_list(vec![f32::NAN, 1.0, f32::INFINITY], 1);
    let mut p = params();
    p.max_iters = 3;
    p.centroids = Some(Arc::new(vec![1.0, 2.0]));
    let model = KMeans::<Float32Type>::new_with_params(&data, 2, &p).unwrap();
    assert_eq!(model.centroids.len(), 2);
}

#[test]
fn vectors_without_finite_distance_are_refused() {
    let data = float_list(vec![f32::NAN, 1.0], 1);
    let mut dots = params();
    dots.metric_type = MetricType::Dot;
    dots.centroids = Some(Arc::new(vec![1.0]));
    let e = error_of(KMeans::<Float32Type>::new_with_params(&data, 1, &dots));
    assert!(matches!(e, Error::NoCluster));
    assert!(e.to_string().contains("failed to compute membership"));
}

#[test]
fn order_is_that_of_the_hardware() {
    let samples = [
        f32::NEG_INFINITY,
        f32::MIN,
        -1.5,
        -f32::MIN_POSITIVE,
        -1e-45,
        -0.0,
        0.0,
        1e-45,
        f32::MIN_POSITIVE,
        1.0,
        1.5,
        f32::MAX,
        f32::INFINITY,
        f32::NAN,
        -f32::NAN,
    ];
    for a in samples {
        for b in samples {
            assert_eq!(wrap(a).lt(wrap(b)), a < b, "{} {}", a, b);
            let (c, d) = (a as f64, b as f64);
            assert_eq!(wrap64(c).lt(wrap64(d)), c < d, "{} {}", c, d);
        }
        assert_eq!(wrap64(a as f64).abs().bits, (a as f64).abs().to_bits());
    }
}

#[test]
fn named_numbers() {
    assert_eq!(unwrap(Float32::max()), f32::MAX);
    assert_eq!(unwrap(Float32::infinity()), f32::INFINITY);
    assert_eq!(Float32::zero().bits, 0.0f32.to_bits());
    assert_eq!(Float64::zero().bits, 0.0f64.to_bits());
}

#[test]
fn default_parameters() {
    let p = params();
    assert_eq!(p.max_iters, 50);
    assert_eq!(unwrap64(p.tolerance), 1e-4);
    assert_eq!(p.redos, 1);
    assert_eq!(p.init, KMeanInit::Random);
    assert_eq!(p.metric_type, MetricType::L2);
    assert!(p.centroids.is_none());
}

#[test]
fn argmin_takes_the_first_of_the_smallest() {
    let v: Vec<Float32> = [f32::NAN, 3.0, 1.0, 2.0, 1.0].iter().map(|x| wrap(*x)).collect();
    assert_eq!(argmin_value(&v), Some((2, wrap(1.0))));
    assert_eq!(argmin(&v), Some(2));
    assert_eq!(argmin_value_float(&v), (2, wrap(1.0)));
}

#[test]
fn argmin_of_nothing_comparable() {
    assert_eq!(argmin_value(&[]), None);
    assert_eq!(argmin_value(&[wrap(f32::NAN), wrap(f32::INFINITY), wrap(f32::MAX)]), None);
    assert_eq!(argmin(&[wrap(f32::NAN)]), None);
    assert_eq!(argmin_value_float(&[wrap(f32::NAN)]), (0, wrap(f32::INFINITY)));
    assert_eq!(argmin_value_float(&[wrap(f32::NAN), wrap(f32::MAX)]), (1, wrap(f32::MAX)));
}

#[test]
fn tiles_and_single_vectors_agree() {
    // Whole numbers, so that no order of additions rounds.
    const DIM: usize = 130;
    let entry = |i: usize| ((i * 37 + i / 7) % 11) as f32;
    let centroids: Vec<f32> = (0..DIM * 40).map(entry).collect();
    let data: Vec<f32> = (0..DIM * 37 + 5).map(|i| entry(i * 3 + 1)).collect();
    let parts = kmeans::tiles::compute_partitions_l2::<Float32Type>(&centroids, &data, DIM)
        .unwrap();
    let whole = &data[..DIM * 37];
    let one_by_one =
        kmeans::tiles::compute_partitions_l2_small::<Float32Type>(&centroids, whole, DIM);
    assert_eq!(parts.len(), 37);
    assert_eq!(parts, one_by_one);
}

#[test]
fn equally_near_centroids_in_different_tiles() {
    const DIM: usize = 256;
    // The same centroid twenty times over.
    let centroids = vec![1.0f32; DIM * 20];
    let data = vec![2.0f32; DIM * 3];
    let parts = kmeans::tiles::compute_partitions_l2::<Float32Type>(&centroids, &data, DIM)
        .unwrap();
    assert_eq!(parts, vec![(0, wrap(256.0)); 3]);
}

#[test]
fn a_tile_without_finite_distance() {
    const DIM: usize = 256;
    let mut centroids = vec![1.0f32; DIM * 18];
    for x in centroids[DIM * 16..].iter_mut() {
        *x = f32::NAN;
    }
    let data = vec![2.0f32; DIM];
    assert_eq!(compute_partitions::<Float32Type>(&centroids, &data, DIM, MetricType::L2), None);
}

#[test]
fn a_shorter_last_vector_is_assigned_too() {
    let centroids = [0.0, 0.0, 10.0, 10.0];
    let data = [9.0, 9.0, 1.0, 1.0, 8.0];
    let parts = compute_partitions::<Float32Type>(&centroids, &data, 2, MetricType::L2);
    assert_eq!(parts, Some(vec![1, 0, 1]));
}

#[test]
fn nothing_to_measure_against() {
    let data = [9.0, 9.0];
    let parts = compute_partitions::<Float32Type>(&[], &data, 2, MetricType::L2);
    assert_eq!(parts, Some(vec![0]));
    assert_eq!(compute_partitions::<Float32Type>(&[], &[], 2, MetricType::Dot), Some(vec![]));
    let none = KMeans::<Float32Type>::empty(1, 2, MetricType::Dot);
    assert!(none.can_measure(0) && !none.can_measure(1));
    assert!(KMeans::<Float32Type>::empty(1, 2, MetricType::L2).can_measure(1));
    assert!(model(vec![1.0, 2.0], 2, MetricType::Cosine).can_measure(1));
    let list = float_list(vec![9.0, 9.0], 2);
    let mut p = params();
    p.metric_type = MetricType::Dot;
    p.centroids = Some(Arc::new(vec![1.0]));
    let e = error_of(KMeans::<Float32Type>::new_with_params(&list, 1, &p));
    assert!(matches!(e, Error::NoCluster));
}

#[test]
fn metrics_disagree() {
    let centroids = [1.0, 0.0, 0.0, 10.0, 1.0, 1.0];
    let data = [2.0, 1.5];
    let l2 = compute_partitions::<Float32Type>(&centroids, &data, 2, MetricType::L2);
    let cosine = compute_partitions::<Float32Type>(&centroids, &data, 2, MetricType::Cosine);
    let dot = compute_partitions::<Float32Type>(&centroids, &data, 2, MetricType::Dot);
    assert_eq!(l2, Some(vec![2]));
    assert_eq!(cosine, Some(vec![2]));
    assert_eq!(dot, Some(vec![1]));
    let data = [5.0, 1.0];
    let cosine = compute_partitions::<Float32Type>(&centroids, &data, 2, MetricType::Cosine);
    assert_eq!(cosine, Some(vec![0]));
}

#[test]
fn histogram_counts_members() {
    let m = membership(vec![0.0; 5], 1, vec![(0, 1.0), (2, 1.0), (2, 1.0), (0, 1.0), (2, 1.0)], 4);
    assert_eq!(m.len(), 5);
    assert_eq!(m.histogram(), vec![2, 0, 3, 0]);
    assert_eq!(m.histogram().iter().sum::<usize>(), m.len());
}

#[test]
fn deviation_of_the_histogram() {
    let m = membership(vec![0.0; 4], 1, vec![(0, 1.0), (0, 1.0), (0, 1.0), (1, 1.0)], 2);
    // Sizes 3 and 1, mean 2: the root of (1 + 1) / 2.
    assert_eq!(unwrap(m.hist_stddev()), 1.0);
    let balanced = membership(vec![0.0; 2], 1, vec![(0, 1.0), (1, 1.0)], 2);
    assert_eq!(unwrap(balanced.hist_stddev()), 0.0);
}

#[test]
fn distances_are_added_up_in_double_precision() {
    let m = membership(vec![0.0; 3], 1, vec![(0, 1.0), (0, 0.1), (0, 16777216.0)], 1);
    assert_eq!(unwrap64(m.distance_sum()), 1.0 + 0.1f32 as f64 + 16777216.0);
    let none = membership(vec![], 1, vec![], 1);
    assert_eq!(unwrap64(none.distance_sum()), 0.0);
}

#[test]
fn centroids_are_means_and_empty_clusters_are_at_zero() {
    let m = membership(
        vec![1.0, 2.0, 3.0, 4.0, 5.0, 12.0],
        2,
        vec![(2, 0.0), (0, 0.0), (2, 0.0)],
        3,
    );
    let model = m.to_kmeans();
    assert_eq!(*model.centroids, vec![3.0, 4.0, 0.0, 0.0, 3.0, 7.0]);
    assert_eq!((model.k, model.dimension), (3, 2));
    assert_eq!(model.metric_type, MetricType::L2);
}

#[test]
fn random_centroids_are_different_rows() {
    let rows: Vec<f32> = (0..20).map(|i| i as f32).collect();
    let mat = MatrixView::<Float32Type>::new(Arc::new(rows), 2);
    for seed in 0..20 {
        let rng = SmallRng::seed_from_u64(seed);
        let model = KMeans::init_random(&mat, 4, MetricType::Dot, rng).unwrap();
        let mut firsts: Vec<u32> = Vec::new();
        for c in model.centroids.chunks(2) {
            assert_eq!(c[1], c[0] + 1.0);
            assert_eq!(c[0] as u32 % 2, 0);
            firsts.push(c[0] as u32);
        }
        firsts.sort();
        firsts.dedup();
        assert_eq!(firsts.len(), 4);
        assert_eq!((model.k, model.dimension), (4, 2));
        assert_eq!(model.metric_type, MetricType::Dot);
    }
}

#[test]
fn chosen_rows_are_gathered_in_order() {
    let data = vec![0.0f32, 1.0, 2.0, 3.0, 4.0, 5.0];
    let rows = kmeans::sample::gather_rows(&data, 2, &vec![2, 0, 2]);
    assert_eq!(rows, vec![4.0, 5.0, 0.0, 1.0, 4.0, 5.0]);
}

#[test]
fn every_row_is_sampled_where_all_are_asked_for() {
    let mat = MatrixView::<Float32Type>::new(Arc::new(vec![5.0, 6.0, 7.0]), 1);
    let rng = SmallRng::seed_from_u64(1);
    let model = KMeans::init_random(&mat, 3, MetricType::L2, rng).unwrap();
    let mut all: Vec<f32> = model.centroids.to_vec();
    all.sort_by(|a, b| a.total_cmp(b));
    assert_eq!(all, vec![5.0, 6.0, 7.0]);
}

#[test]
fn training_moves_given_centroids_to_the_means() {
    let data = float_list(vec![0.0, 1.0, 2.0, 10.0, 11.0, 12.0], 1);
    let mut p = params();
    p.centroids = Some(Arc::new(vec![0.0, 3.0]));
    let model = KMeans::<Float32Type>::new_with_params(&data, 2, &p).unwrap();
    assert_eq!(*model.centroids, vec![1.0, 11.0]);
    assert_eq!((model.k, model.dimension), (2, 1));
}

#[test]
fn one_iteration_at_most() {
    let data = float_list(vec![0.0, 1.0, 2.0, 10.0, 11.0, 12.0], 1);
    let mut p = params();
    p.max_iters = 1;
    p.centroids = Some(Arc::new(vec![0.0, 3.0]));
    let model = KMeans::<Float32Type>::new_with_params(&data, 2, &p).unwrap();
    // 2 is nearer to 3 than to 0.
    assert_eq!(*model.centroids, vec![0.5, 8.75]);
}

#[test]
fn fewer_given_centroids_than_clusters() {
    let data = float_list(vec![1.0, 3.0], 1);
    let mut p = params();
    p.max_iters = 1;
    p.centroids = Some(Arc::new(vec![0.0]));
    let model = KMeans::<Float32Type>::new_with_params(&data, 2, &p).unwrap();
    assert_eq!(*model.centroids, vec![2.0, 0.0]);
}

#[test]
fn without_iterations_the_start_is_given_back() {
    let data = float_list(vec![0.0, 2.0, 10.0, 12.0], 1);
    let mut p = params();
    p.centroids = Some(Arc::new(vec![0.0, 10.0]));
    p.max_iters = 0;
    let model = KMeans::<Float32Type>::new_with_params(&data, 2, &p).unwrap();
    assert_eq!(*model.centroids, vec![0.0, 10.0]);
    assert_eq!((model.k, model.dimension), (2, 1));
    p.max_iters = 5;
    p.redos = 0;
    let model = KMeans::<Float32Type>::new_with_params(&data, 2, &p).unwrap();
    assert_eq!(*model.centroids, vec![0.0, 10.0]);
    let model = KMeans::<Float32Type>::new(&data, 4, 0).unwrap();
    let mut all: Vec<f32> = model.centroids.to_vec();
    all.sort_by(|a, b| a.total_cmp(b));
    assert_eq!(all, vec![0.0, 2.0, 10.0, 12.0]);
    p.centroids = None;
    let model = KMeans::<Float32Type>::new_with_params(&data, 2, &p).unwrap();
    assert_eq!(model.centroids.len(), 2);
    let flat = float_list(vec![1.0, 2.0], 0);
    let model = KMeans::<Float32Type>::new_with_params(&flat, 1, &p).unwrap();
    assert!(model.centroids.is_empty());
}

#[test]
fn initialization_that_is_not_supported() {
    let data = float_list(vec![0.0, 2.0, 10.0, 12.0], 1);
    let mut p = params();
    p.init = KMeanInit::KMeanPlusPlus;
    let e = error_of(KMeans::<Float32Type>::new_with_params(&data, 2, &p));
    assert!(matches!(e, Error::UnsupportedInit));
    assert_eq!(e.to_string(), "KMeans: k-means++ is not supported");
    let e = error_of(KMeans::<Float32Type>::new_with_params(&data, 9, &p));
    assert!(matches!(e, Error::TooFewPoints { n: 4, k: 9 }));
    let doubles = list_of(Arc::new(Float64Array::from(vec![1.0, 2.0])), 1);
    let e = error_of(KMeans::<Float32Type>::new_with_params(&doubles, 1, &p));
    assert!(matches!(e, Error::NotFloating { .. }));
    p.centroids = Some(Arc::new(vec![0.0, 10.0]));
    let model = KMeans::<Float32Type>::new_with_params(&data, 2, &p).unwrap();
    assert_eq!(*model.centroids, vec![1.0, 11.0]);
    p.centroids = None;
    p.redos = 0;
    assert!(KMeans::<Float32Type>::new_with_params(&data, 2, &p).is_ok());
}

/// The centroids and the mean distance after each iteration.
fn iterations(values: &[f32], start: &[f32], count: usize) -> Vec<(Vec<f32>, f64)> {
    let mat = MatrixView::<Float32Type>::new(Arc::new(values.to_vec()), 1);
    let mut m = model(start.to_vec(), 1, MetricType::L2);
    (0..count)
        .map(|_| {
            let found = m.train_once(&mat).unwrap();
            m = found.to_kmeans();
            let mean = unwrap64(found.distance_sum()) / found.len() as f64;
            assert_eq!(unwrap64(found.mean_distance()), mean);
            (m.centroids.to_vec(), mean)
        })
        .collect()
}

#[test]
fn training_stops_when_the_mean_distance_settles() {
    let values: Vec<f32> = (0..60).map(|i| (i * i) as f32).collect();
    let start = [0.0, 1.0, 4.0];
    let data = float_list(values.clone(), 1);
    let steps = iterations(&values, &start, 30);
    for tolerance in [1e9, 100000.0, 20000.0, 5000.0, 1000.0, 10.0, 0.0] {
        let mut p = params();
        p.max_iters = 30;
        p.tolerance = wrap64(tolerance);
        p.centroids = Some(Arc::new(start.to_vec()));
        let trained = KMeans::<Float32Type>::new_with_params(&data, 3, &p).unwrap();
        let stop = (1..30)
            .find(|&i| (steps[i - 1].1 - steps[i].1).abs() < tolerance)
            .unwrap_or(29);
        assert_eq!(*trained.centroids, steps[stop].0);
    }
    // The first iteration has nothing to compare with.
    assert_ne!(steps[0].0, steps[1].0);
}

#[test]
fn training_can_be_continued() {
    let values: Vec<f32> = (0..60).map(|i| (i * i) as f32).collect();
    let data = float_list(values, 1);
    let train = |start: Vec<f32>, max_iters: u32| {
        let mut p = params();
        p.max_iters = max_iters;
        p.tolerance = wrap64(0.0);
        p.centroids = Some(Arc::new(start));
        let trained = KMeans::<Float32Type>::new_with_params(&data, 3, &p).unwrap();
        trained.centroids.to_vec()
    };
    let start = vec![0.0, 1.0, 4.0];
    let whole = train(start.clone(), 7);
    assert_eq!(train(train(start.clone(), 3), 4), whole);
    assert_ne!(train(start, 3), whole);
}

#[test]
fn runs_from_given_centroids_are_alike() {
    let values = generate_random_array(100);
    let data = float_list(values.clone(), 1);
    let train = |redos: usize, init: KMeanInit| {
        let mut p = params();
        p.redos = redos;
        p.init = init;
        p.centroids = Some(Arc::new(values[..4].to_vec()));
        let trained = KMeans::<Float32Type>::new_with_params(&data, 4, &p).unwrap();
        trained.centroids.to_vec()
    };
    let once = train(1, KMeanInit::Random);
    assert_eq!(train(3, KMeanInit::Random), once);
    assert_eq!(train(2, KMeanInit::KMeanPlusPlus), once);
}

#[test]
fn random_training_gives_a_centroid_per_cluster() {
    let values = generate_random_array(200 * 8);
    let data = float_list(values, 8);
    let mut p = params();
    p.redos = 3;
    let model = KMeans::<Float32Type>::new_with_params(&data, 5, &p).unwrap();
    assert_eq!(model.centroids.len(), 5 * 8);
    let model = KMeans::<Float32Type>::new(&data, 5, 10).unwrap();
    assert_eq!(model.centroids.len(), 5 * 8);
}

#[test]
fn as_many_clusters_as_vectors() {
    let data = float_list(vec![1.0, 5.0, 9.0], 1);
    let model = KMeans::<Float32Type>::new(&data, 3, 10).unwrap();
    let mut all: Vec<f32> = model.centroids.to_vec();
    all.sort_by(|a, b| a.total_cmp(b));
    assert_eq!(all, vec![1.0, 5.0, 9.0]);
}

#[test]
fn cosine_training_ignores_lengths() {
    let data = float_list(vec![1.0, 0.0, 100.0, 1.0, 0.0, 2.0, 1.0, 300.0], 2);
    let mut p = params();
    p.metric_type = MetricType::Cosine;
    p.max_iters = 1;
    p.centroids = Some(Arc::new(vec![1.0, 0.0, 0.0, 1.0]));
    let model = KMeans::<Float32Type>::new_with_params(&data, 2, &p).unwrap();
    assert_eq!(*model.centroids, vec![50.5, 0.5, 0.5, 151.0]);
    assert_eq!(model.metric_type, MetricType::Cosine);
}

#[test]
fn membership_agrees_with_partitions() {
    let centroids = generate_random_array(7 * 4);
    let data = generate_random_array(2100 * 4);
    for metric in [MetricType::L2, MetricType::Cosine, MetricType::Dot] {
        let m = model(centroids.clone(), 4, metric)
            .compute_membership(Arc::new(data.clone()), None)
            .unwrap();
        let expected = compute_partitions::<Float32Type>(&centroids, &data, 4, metric).unwrap();
        assert_eq!(m.len(), 2100);
        assert_eq!(ids(&m), expected);
        assert!(ids(&m).iter().all(|id| *id < 7));
    }
}

#[test]
fn every_vector_is_measured_with_its_own_known_length() {
    let mut data = [1.0f32, 0.0].repeat(1024);
    data.extend([2.0, 0.0]);
    let mut norms = vec![wrap(1.0); 1024];
    norms.push(wrap(2.0));
    let m = model(vec![1.0, 0.0], 2, MetricType::Cosine)
        .compute_membership(Arc::new(data), Some(Arc::new(norms)))
        .unwrap();
    assert_eq!(m.cluster_id_and_distances, vec![(0, wrap(0.0)); 1025]);
}

#[test]
fn cosine_steps_measure_rows_by_their_lengths() {
    let values: Vec<f32> = (0..3000).map(|i| (1 + i % 7 + i / 500) as f32).collect();
    let mat = MatrixView::<Float32Type>::new(Arc::new(values.clone()), 2);
    let m = model(vec![1.0, 2.0, 3.0, 1.0], 2, MetricType::Cosine);
    let known = m.train_once(&mat).unwrap();
    let unknown = m.compute_membership(Arc::new(values), None).unwrap();
    assert_eq!(known.len(), 1500);
    assert_eq!(known.cluster_id_and_distances, unknown.cluster_id_and_distances);
    let distances = known.cluster_id_and_distances.iter().map(|(_, d)| unwrap(*d));
    assert!(distances.into_iter().all(|d| (-1e-6..=2.0).contains(&d)));
}

#[test]
fn known_lengths_matter_for_cosine_only() {
    let data = Arc::new(generate_random_array(50 * 2));
    let norms = Some(Arc::new(vec![wrap(7.0)]));
    for metric in [MetricType::L2, MetricType::Dot] {
        let m = model(vec![0.1, 0.2, 0.8, 0.9], 2, metric);
        assert!(m.row_norms(&MatrixView::new(data.clone(), 2)).is_none());
        let with = m.compute_membership(data.clone(), norms.clone()).unwrap();
        let without = m.compute_membership(data.clone(), None).unwrap();
        assert_eq!(with.cluster_id_and_distances, without.cluster_id_and_distances);
    }
}

#[test]
fn joined_vectors_have_joined_clusters() {
    let front = generate_random_array(1030 * 2);
    let back = generate_random_array(20 * 2 + 1);
    let whole = [front.clone(), back.clone()].concat();
    let centroids = generate_random_array(6 * 2);
    for metric in [MetricType::L2, MetricType::Cosine, MetricType::Dot] {
        let m = model(centroids.clone(), 2, metric);
        let found = |data: &Vec<f32>| {
            let found = m.compute_membership(Arc::new(data.clone()), None).unwrap();
            found.cluster_id_and_distances
        };
        assert_eq!(found(&whole), [found(&front), found(&back)].concat());
        let places = |data: &Vec<f32>| {
            compute_partitions::<Float32Type>(&centroids, data, 2, metric).unwrap()
        };
        assert_eq!(places(&whole), [places(&front), places(&back)].concat());
        assert_eq!(places(&whole).len(), 1051);
    }
}

#[test]
fn steps_do_not_increase_distances() {
    let values: Vec<f32> = (0..60).map(|i| (i * i) as f32).collect();
    let steps = iterations(&values, &[0.0, 1.0, 4.0], 12);
    assert!(steps.windows(2).all(|pair| pair[1].1 <= pair[0].1));
    assert!(steps[1].1 < steps[0].1);
}

#[test]
fn means_keep_the_total_and_ignore_distances() {
    let data = vec![1.0, 2.0, 3.0, 4.0, 5.0, 9.0];
    let near = vec![(0, 0.0), (1, 0.0), (1, 0.0)];
    let far = vec![(0, 5.0), (1, 7.0), (1, f32::NAN)];
    let first = membership(data.clone(), 2, near, 3).to_kmeans();
    let second = membership(data, 2, far, 3).to_kmeans();
    assert_eq!(*first.centroids, vec![1.0, 2.0, 4.0, 6.5, 0.0, 0.0]);
    assert_eq!(*first.centroids, *second.centroids);
    // Sizes 1, 2 and 0.
    assert_eq!(1.0 * first.centroids[0] + 2.0 * first.centroids[2], 1.0 + 3.0 + 5.0);
    assert_eq!(1.0 * first.centroids[1] + 2.0 * first.centroids[3], 2.0 + 4.0 + 9.0);
}

#[test]
fn scaling_does_not_change_cosine_partitions() {
    let centroids = generate_random_array(5 * 3);
    let data = generate_random_array(40 * 3);
    // Powers of two, so that nothing is rounded anew.
    let scaled = |values: &[f32]| -> Vec<f32> {
        let factor = |i: usize| 2.0f32.powi((i / 3 % 5) as i32 - 2);
        values.iter().enumerate().map(|(i, x)| x * factor(i)).collect()
    };
    let partitions = |c: &[f32], d: &[f32]| {
        compute_partitions::<Float32Type>(c, d, 3, MetricType::Cosine).unwrap()
    };
    assert_eq!(partitions(&scaled(&centroids), &scaled(&data)), partitions(&centroids, &data));
}

#[test]
fn models_start_at_the_given_rows() {
    let mat = MatrixView::<Float32Type>::new(Arc::new(vec![1.0, 2.0, 3.0, 4.0, 5.0, 6.0]), 2);
    let m = KMeans::start_at(&mat, 2, MetricType::Dot, &vec![2, 0]);
    assert_eq!(*m.centroids, vec![5.0, 6.0, 1.0, 2.0]);
    assert_eq!((m.k, m.dimension, m.metric_type), (2, 2, MetricType::Dot));
}

#[test]
fn clusters_in_range() {
    assert!(membership(vec![0.0; 2], 1, vec![(0, 0.0), (1, 0.0)], 2).is_in_range());
    assert!(!membership(vec![0.0; 2], 1, vec![(0, 0.0), (2, 0.0)], 2).is_in_range());
}

#[test]
fn membership_of_each_metric() {
    let m = model(vec![0.0, 0.0, 4.0, 4.0], 2, MetricType::L2);
    let mat = MatrixView::<Float32Type>::new(Arc::new(vec![1.0, 0.0, 3.0, 4.0]), 2);
    let found = m.train_once(&mat).unwrap();
    assert_eq!(found.cluster_id_and_distances, vec![(0, wrap(1.0)), (1, wrap(1.0))]);
    let m = model(vec![2.0, 0.0, 0.0, 3.0], 2, MetricType::Dot);
    let found = m.train_once(&mat).unwrap();
    assert_eq!(found.cluster_id_and_distances, vec![(0, wrap(-1.0)), (1, wrap(-11.0))]);
    let m = model(vec![2.0, 0.0, 3.0, 4.0], 2, MetricType::Cosine);
    let found = m.train_once(&mat).unwrap();
    assert_eq!(found.cluster_id_and_distances, vec![(0, wrap(0.0)), (1, wrap(0.0))]);
}

#[test]
fn copies_of_a_model_are_equal() {
    let m = model(vec![1.0, 2.0], 2, MetricType::Dot);
    let copy = m.clone();
    assert_eq!(*copy.centroids, vec![1.0, 2.0]);
    assert_eq!((copy.k, copy.dimension), (1, 2));
    let none = KMeans::<Float32Type>::empty(3, 2, MetricType::L2);
    assert!(none.centroids.is_empty());
    assert_eq!((none.k, none.dimension), (3, 2));
}

#[test]
fn training_from_given_centroids_is_repeatable() {
    let values = generate_random_array(300 * 4);
    let start = values[..6 * 4].to_vec();
    let data = float_list(values, 4);
    for metric in [MetricType::L2, MetricType::Cosine, MetricType::Dot] {
        let mut p = params();
        p.redos = 2;
        p.metric_type = metric;
        p.centroids = Some(Arc::new(start.clone()));
        let first = KMeans::<Float32Type>::new_with_params(&data, 6, &p).unwrap();
        let second = KMeans::<Float32Type>::new_with_params(&data, 6, &p).unwrap();
        assert_eq!(*first.centroids, *second.centroids);
        assert_eq!(first.centroids.len(), 6 * 4);
        assert_eq!(first.metric_type, metric);
    }
}

#[test]
fn chunks_in_any_order_make_the_membership() {
    let data = Arc::new(generate_random_array(2500 * 2));
    let m = model(generate_random_array(5 * 2), 2, MetricType::Cosine);
    let norms = m.centroid_norms();
    let mut chunks: Vec<_> = [2048, 0, 1024]
        .iter()
        .map(|&start| (start, m.assign_chunk(&data, &None, &norms, start).unwrap()))
        .collect();
    chunks.sort_by_key(|(start, _)| *start);
    let chunks: Vec<_> = chunks.into_iter().map(|(_, found)| found).collect();
    assert_eq!(chunks.iter().map(Vec::len).collect::<Vec<_>>(), vec![1024, 1024, 452]);
    let joined =
        KMeanMembership::<Float32Type>::from_chunks(data.clone(), 2, chunks, 5, m.metric_type);
    let whole = m.compute_membership(data, None).unwrap();
    assert_eq!(joined.cluster_id_and_distances, whole.cluster_id_and_distances);
}

#[test]
fn a_failed_chunk_fails_all() {
    let mut values = vec![1.0f32; 1100];
    values[1050] = f32::NAN;
    let m = model(vec![1.0, 2.0], 1, MetricType::Dot);
    let data = Arc::new(values.clone());
    let norms = m.centroid_norms();
    assert!(m.assign_chunk(&data, &None, &norms, 0).is_some());
    assert!(m.assign_chunk(&data, &None, &norms, 1024).is_none());
    assert!(m.compute_membership(data, None).is_none());
    assert_eq!(
        compute_partitions::<Float32Type>(&m.centroids, &values, 1, MetricType::Dot),
        None
    );
}

#[test]
fn the_most_balanced_run_is_kept() {
    let values = vec![-1000.0, 1.0, 2.0, 10.0, 11.0, 12.0];
    let mat = MatrixView::<Float32Type>::new(Arc::new(values), 1);
    let start = |a: f32, b: f32| model(vec![a, b], 1, MetricType::L2);
    let end = |starts: Vec<KMeans<Float32Type>>| {
        let trained = KMeans::train_from(&mat, &starts, 1, wrap64(0.0)).unwrap();
        trained.centroids.to_vec()
    };
    // Sizes 1 and 5, 3 and 3, and 3 and 3 the other way round.
    let (skewed, even, turned) = (start(-1000.0, 7.0), start(0.0, 12.0), start(12.0, 0.0));
    let mean = |values: &[f32]| values.iter().sum::<f32>() / values.len() as f32;
    let low = mean(&[-1000.0, 1.0, 2.0]);
    assert_eq!(end(vec![skewed.clone()]), vec![-1000.0, 7.2]);
    assert_eq!(end(vec![skewed.clone(), even.clone()]), vec![low, 11.0]);
    assert_eq!(end(vec![even.clone(), skewed.clone()]), vec![low, 11.0]);
    // Of equally balanced runs the first is kept.
    assert_eq!(end(vec![skewed.clone(), turned.clone(), even.clone()]), vec![11.0, low]);
    assert_eq!(end(vec![even, turned, skewed]), vec![low, 11.0]);
}

#[test]
fn a_failed_start_fails_all() {
    let mat = MatrixView::<Float32Type>::new(Arc::new(vec![1.0, 2.0]), 1);
    let good = model(vec![1.0, 2.0], 1, MetricType::Dot);
    let bad = model(vec![f32::NAN, f32::NAN], 1, MetricType::Dot);
    let train = |starts: Vec<KMeans<Float32Type>>| {
        KMeans::train_from(&mat, &starts, 2, wrap64(0.0)).is_some()
    };
    assert!(train(vec![good.clone(), good.clone()]));
    assert!(!train(vec![good, bad]));
}

#[test]
fn runs_that_are_equally_unbalanced() {
    let best = Best::<Float32Type>::none();
    assert!(best.kmeans.is_none());
    let at = |x: f32| model(vec![x], 1, MetricType::L2);
    let best = best.offer(at(1.0), wrap(f32::NAN));
    assert_eq!(best.kmeans.as_ref().unwrap().centroids[0], 1.0);
    let best = best.offer(at(2.0), wrap(f32::INFINITY));
    assert_eq!(best.kmeans.as_ref().unwrap().centroids[0], 1.0);
    let best = best.offer(at(3.0), wrap(5.0)).offer(at(4.0), wrap(5.0)).offer(at(5.0), wrap(6.0));
    assert_eq!(best.kmeans.as_ref().unwrap().centroids[0], 3.0);
    let best = best.offer(at(6.0), wrap(4.0));
    assert_eq!(best.kmeans.unwrap().centroids[0], 6.0);
}

#[test]
fn advancing_a_run_is_training() {
    let values: Vec<f32> = (0..60).map(|i| (i * i) as f32).collect();
    let mat = MatrixView::<Float32Type>::new(Arc::new(values.clone()), 1);
    let start = [0.0, 1.0, 4.0];
    let tolerance = wrap64(1000.0);
    let mut run = Run::begin(model(start.to_vec(), 1, MetricType::L2));
    assert_eq!((run.iterations, run.converged, run.mean_distance), (0, false, None));
    while !run.is_over(30) {
        let membership = run.kmeans.train_once(&mat).unwrap();
        run = run.advance(&membership, tolerance).unwrap();
    }
    assert!(run.converged && run.iterations > 2);
    let mut p = params();
    p.max_iters = 30;
    p.tolerance = tolerance;
    p.centroids = Some(Arc::new(start.to_vec()));
    let trained = KMeans::<Float32Type>::new_with_params(&float_list(values, 1), 3, &p).unwrap();
    assert_eq!(*trained.centroids, *run.kmeans.centroids);
    let outside = membership(vec![0.0], 1, vec![(3, 0.0)], 3);
    assert!(run.advance(&outside, tolerance).is_none());
}

#[test]
fn as_many_starts_as_runs() {
    let data = float_list((0..40).map(|i| i as f32).collect(), 2);
    let mut p = params();
    p.redos = 4;
    let mat = KMeans::<Float32Type>::prepare(&data, 5, &p).unwrap();
    assert_eq!((mat.num_rows(), mat.num_columns), (20, 2));
    let starts = KMeans::draw_starts(&mat, 5, &p, SmallRng::seed_from_u64(7));
    assert_eq!(starts.len(), 4);
    assert!(starts.iter().all(|m| m.centroids.len() == 10 && m.k == 5));
    // Each is drawn anew.
    assert!(starts.iter().any(|m| m.centroids != starts[0].centroids));
    let idle = KMeans::idle(&mat, 5, &p, SmallRng::seed_from_u64(7));
    assert_eq!(idle.centroids, starts[0].centroids);
    assert!(KMeans::<Float32Type>::prepare(&data, 21, &p).is_err());
}

#[test]
fn copies_of_centroids_change_nothing() {
    const DIM: usize = 4;
    let centroids = generate_random_array(DIM * 5);
    let copies = [&centroids[DIM * 3..DIM * 4], &centroids[..DIM]].concat();
    let whole = [centroids.clone(), copies].concat();
    let data = generate_random_array(DIM * 30);
    for metric in [MetricType::L2, MetricType::Cosine, MetricType::Dot] {
        assert_eq!(
            compute_partitions::<Float32Type>(&whole, &data, DIM, metric),
            compute_partitions::<Float32Type>(&centroids, &data, DIM, metric)
        );
    }
}

#[test]
fn means_lie_between_their_vectors_and_serve_them_best() {
    let data = vec![1.0, 8.0, 3.0, 4.0, 5.0, 9.0];
    let parts = vec![(0, 0.0), (0, 0.0), (0, 0.0)];
    let m = membership(data.clone(), 2, parts, 1).to_kmeans();
    assert_eq!(*m.centroids, vec![3.0, 7.0]);
    let total = |c: &[f32]| data.chunks(2).map(|x| l2(x, c)).sum::<f32>();
    for other in [[3.0, 6.5], [2.0, 7.0], [1.0, 8.0], [5.0, 9.0]] {
        assert!(total(&m.centroids) < total(&other));
    }
}
