use rand::rngs::StdRng;
use rand::SeedableRng;
use recommender::artifacts::{
    cluster_artifact_key, cluster_artifact_name, cluster_parts, centroids_artifact_name,
    provisioning_for_version, ArtifactFormat, Provisioning,
};
use recommender::coords::{bits_of_order_key, order_key_of_bits};
use recommender::corpus::{find_embedding_point_by_id, CompactEmbedding, EmbeddingPoint};
use recommender::ids::{deserialize_ids, IdsError};
use recommender::query::{
    default_ids, default_recs, paginate, select_cluster, CorpusError, QueryPlan,
    RecommendError, Vectors,
};
use recommender::selection::{
    median_vector, median_with_quickselect, quickselect, transpose, ColumnMedian,
};

fn key(x: f32) -> u32 {
    order_key_of_bits(x.to_bits())
}

fn keys(xs: &[f32]) -> Vec<u32> {
    xs.iter().map(|x| key(*x)).collect()
}

fn item(id: u32, xs: &[f32]) -> CompactEmbedding {
    CompactEmbedding(id, EmbeddingPoint(keys(xs)))
}

fn scenario_corpus() -> Vectors {
    let a = vec![item(10, &[1.0, 0.0]), item(11, &[0.0, 1.0]), item(12, &[1.0, 1.0])];
    let b = vec![item(20, &[9.0, 9.0])];
    let c = vec![item(30, &[0.0, 0.0]), item(31, &[2.0, 2.0]), item(32, &[4.0, 4.0])];
    Vectors::new(2, vec![a, b, c]).unwrap()
}

#[test]
fn order_keys_follow_float_order() {
    let xs = [f32::NEG_INFINITY, -3.5, -1.0, -0.25, 0.0, 1e-30, 0.5, 2.0, 1e30, f32::INFINITY];
    for w in xs.windows(2) {
        assert!(key(w[0]) < key(w[1]), "{} {}", w[0], w[1]);
    }
    assert_eq!(key(-0.0), key(0.0));
    assert_eq!(key(0.0), 0x8000_0000);
    assert_eq!(key(-1.0), !(-1.0f32).to_bits());
}

#[test]
fn order_keys_round_trip() {
    for x in [-7.25f32, -0.5, 0.0, 3.0, 123456.0, f32::MAX, f32::MIN] {
        assert_eq!(f32::from_bits(bits_of_order_key(key(x))), x);
    }
    assert_eq!(bits_of_order_key(key(-0.0)), 0.0f32.to_bits());
}

#[test]
fn median_of_one_vector_is_that_vector() {
    let mut rng = StdRng::seed_from_u64(1);
    let v = keys(&[3.5, -2.0, 0.0, 7.0, 1.0]);
    let m = median_vector(&vec![v.clone()], &mut rng);
    let expected: Vec<ColumnMedian> = v.iter().map(|k| ColumnMedian::Single(*k)).collect();
    assert_eq!(m, expected);
}

#[test]
fn selection_matches_sorted_copy() {
    let columns: Vec<Vec<u32>> = vec![
        vec![5],
        vec![9, 1],
        vec![3, 3, 3],
        vec![4, 1, 3, 1, 5, 9, 2, 6],
        vec![10, 2, 2, 7, 2, 8, 0, 7, 7],
        vec![1, 1, 2, 2, 1, 2, 1, 2, 1, 2, 0],
    ];
    for seed in 0..20u64 {
        let mut rng = StdRng::seed_from_u64(seed);
        for col in &columns {
            let mut sorted = col.clone();
            sorted.sort();
            for r in 0..col.len() {
                let mut work = col.clone();
                assert_eq!(quickselect(&mut work, r, &mut rng), sorted[r]);
                let mut after = work.clone();
                after.sort();
                assert_eq!(after, sorted);
            }
        }
    }
}

#[test]
fn column_median_odd_and_even() {
    let mut rng = StdRng::seed_from_u64(3);
    assert_eq!(median_with_quickselect(&vec![7, 1, 4], &mut rng), ColumnMedian::Single(4));
    assert_eq!(median_with_quickselect(&vec![1, 4, 2, 3], &mut rng), ColumnMedian::Between(2, 3));
    assert_eq!(median_with_quickselect(&vec![5, 5], &mut rng), ColumnMedian::Between(5, 5));
}

#[test]
fn transpose_swaps_rows_and_columns() {
    let t = transpose(&vec![vec![1, 2, 3], vec![4, 5, 6]]);
    assert_eq!(t, vec![vec![1, 4], vec![2, 5], vec![3, 6]]);
    assert!(transpose(&vec![]).is_empty());
}

#[test]
fn median_vector_of_no_vectors_is_empty() {
    let mut rng = StdRng::seed_from_u64(4);
    assert!(median_vector(&vec![], &mut rng).is_empty());
}

#[test]
fn scenario_median_of_three_seeds() {
    let corpus = scenario_corpus();
    let mut rng = StdRng::seed_from_u64(5);
    match corpus.plan_query(&vec![30, 31, 32], &mut rng) {
        Ok(QueryPlan::Median(m)) => {
            assert_eq!(m, vec![ColumnMedian::Single(key(2.0)), ColumnMedian::Single(key(2.0))]);
        }
        _ => panic!("expected a median"),
    }
}

#[test]
fn recommend_with_no_ids_is_empty() {
    let corpus = scenario_corpus();
    let mut rng = StdRng::seed_from_u64(6);
    assert!(matches!(corpus.plan_query(&vec![], &mut rng), Ok(QueryPlan::NoSeeds)));
}

#[test]
fn recommend_with_unknown_id_is_empty_input() {
    let corpus = scenario_corpus();
    let mut rng = StdRng::seed_from_u64(7);
    assert!(matches!(
        corpus.plan_query(&vec![999], &mut rng),
        Err(RecommendError::EmptyInput)
    ));
}

#[test]
fn unknown_ids_are_dropped() {
    let corpus = scenario_corpus();
    let r = corpus.resolve_embeddings(&vec![12, 999, 20, 10]);
    assert_eq!(r, vec![keys(&[1.0, 1.0]), keys(&[9.0, 9.0]), keys(&[1.0, 0.0])]);
    let mut rng = StdRng::seed_from_u64(8);
    match corpus.plan_query(&vec![999, 10, 11], &mut rng) {
        Ok(QueryPlan::Median(m)) => {
            let lo = key(0.0);
            let hi = key(1.0);
            assert_eq!(m, vec![ColumnMedian::Between(lo, hi), ColumnMedian::Between(lo, hi)]);
        }
        _ => panic!("expected a median"),
    }
}

#[test]
fn lookup_takes_first_match() {
    let clusters = vec![
        vec![item(1, &[1.0]), item(2, &[2.0])],
        vec![item(2, &[20.0]), item(3, &[3.0])],
    ];
    assert_eq!(find_embedding_point_by_id(&clusters, 2).unwrap().0, keys(&[2.0]));
    assert_eq!(find_embedding_point_by_id(&clusters, 3).unwrap().0, keys(&[3.0]));
    assert!(find_embedding_point_by_id(&clusters, 4).is_none());
    assert!(find_embedding_point_by_id(&vec![], 1).is_none());
}

#[test]
fn corpus_refuses_mixed_dimensions() {
    let clusters = vec![vec![item(1, &[1.0, 2.0])], vec![item(2, &[1.0])]];
    assert!(matches!(Vectors::new(2, clusters), Err(CorpusError::Dimension(2))));
    let corpus = scenario_corpus();
    assert_eq!(corpus.dimensions(), 2);
    assert_eq!(corpus.cluster_count(), 3);
}

#[test]
fn cluster_parts_unzip_items() {
    let corpus = scenario_corpus();
    let (vecs, ids) = cluster_parts(&corpus, 0);
    assert_eq!(ids, vec![10, 11, 12]);
    assert_eq!(vecs[2].0, keys(&[1.0, 1.0]));
    assert_eq!(vecs.len(), 3);
}

#[test]
fn pagination_is_a_slice_of_the_ranking() {
    let ranked: Vec<u32> = vec![5, 8, 13, 21, 34, 55];
    for offset in 0..8 {
        for limit in 0..8 {
            let start = offset.min(ranked.len());
            let end = (offset + limit).min(ranked.len());
            let expected: Vec<u32> = ranked.iter().skip(offset).take(limit).copied().collect();
            assert_eq!(paginate(&ranked, offset, limit), expected);
            assert_eq!(paginate(&ranked, offset, limit), ranked[start..end].to_vec());
        }
    }
    assert_eq!(paginate(&ranked, 1, usize::MAX), vec![8, 13, 21, 34, 55]);
    assert_eq!(paginate(&vec![], 0, 10), Vec::<u32>::new());
}

#[test]
fn routing_result_is_checked() {
    assert_eq!(select_cluster(Some(1), 2), Ok(1));
    assert_eq!(select_cluster(Some(2), 2), Err(RecommendError::UnknownCluster(2)));
    assert_eq!(select_cluster(None, 0), Err(RecommendError::NoClusters));
}

#[test]
fn artifact_names_and_keys() {
    assert_eq!(cluster_artifact_name(0, ArtifactFormat::Bincode), "cluster-map-0.bincode");
    assert_eq!(cluster_artifact_key(12, ArtifactFormat::Bincode), "precompiled/cluster-map-12.bincode");
    assert_eq!(cluster_artifact_key(907, ArtifactFormat::Msgpack), "precompiled/cluster-map-907.msgpack");
    assert_eq!(centroids_artifact_name(1000, ArtifactFormat::Bincode), "centroids-map-1000.bincode");
    assert_eq!(
        cluster_artifact_name(usize::MAX, ArtifactFormat::Msgpack),
        format!("cluster-map-{}.msgpack", usize::MAX)
    );
}

#[test]
fn provisioning_follows_service_version() {
    assert_eq!(provisioning_for_version("0"), Provisioning::OnDemand);
    assert_eq!(provisioning_for_version("12"), Provisioning::Precompiled(ArtifactFormat::Bincode));
    assert_eq!(provisioning_for_version(""), Provisioning::Precompiled(ArtifactFormat::Bincode));
    assert_eq!(provisioning_for_version("00"), Provisioning::Precompiled(ArtifactFormat::Bincode));
}

#[test]
fn ids_are_read_from_a_comma_list() {
    assert_eq!(deserialize_ids("84948,97843,85035,753076,569378").unwrap(), vec![84948, 97843, 85035, 753076, 569378]);
    assert_eq!(deserialize_ids(" 1 , 2,,3, ").unwrap(), vec![1, 2, 3]);
    assert_eq!(deserialize_ids("").unwrap(), Vec::<u32>::new());
    assert_eq!(deserialize_ids("+5,\u{3000}7\t").unwrap(), vec![5, 7]);
    assert_eq!(deserialize_ids("4294967295").unwrap(), vec![u32::MAX]);
    assert_eq!(deserialize_ids("007").unwrap(), vec![7]);
}

#[test]
fn bad_ids_are_refused() {
    assert_eq!(deserialize_ids("4294967296"), Err(IdsError::InvalidId));
    assert_eq!(deserialize_ids("1,x,2"), Err(IdsError::InvalidId));
    assert_eq!(deserialize_ids("-1"), Err(IdsError::InvalidId));
    assert_eq!(deserialize_ids("+"), Err(IdsError::InvalidId));
    assert_eq!(deserialize_ids("1 2"), Err(IdsError::InvalidId));
}

#[test]
fn request_defaults() {
    assert_eq!(default_recs(), 50);
    assert!(default_ids().is_empty());
}
