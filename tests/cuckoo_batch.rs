use respire::cuckoo::{buckets_from_hash, CuckooRespireImpl, QueryPlanError};

fn batch(batch_size: usize, num_bucket: usize, num_records: usize) -> CuckooRespireImpl {
    CuckooRespireImpl { batch_size, num_bucket, num_records }
}

fn check_assignment(c: &CuckooRespireImpl, idxs: &[usize], mapping: &[(usize, usize)]) {
    assert_eq!(mapping.len(), idxs.len());
    let mut seen_items = vec![false; idxs.len()];
    let mut seen_buckets = vec![false; c.num_bucket];
    for &(bucket, item) in mapping {
        let (b1, b2, b3) = c.idx_to_buckets(idxs[item]);
        assert!(bucket == b1 || bucket == b2 || bucket == b3);
        assert!(!seen_items[item]);
        assert!(!seen_buckets[bucket]);
        seen_items[item] = true;
        seen_buckets[bucket] = true;
    }
}

#[test]
fn hash_digits_pick_buckets() {
    assert_eq!(buckets_from_hash(123, 10), (3, 2, 1));
    assert_eq!(buckets_from_hash(0, 7), (0, 0, 0));
    assert_eq!(buckets_from_hash(7 * 7 + 7 + 2, 7), (2, 1, 1));
}

#[test]
fn candidates_are_stable_and_in_range() {
    let c = batch(4, 7, 100);
    for i in 0..100 {
        let b = c.idx_to_buckets(i);
        assert_eq!(b, c.idx_to_buckets(i));
        assert!(b.0 < 7 && b.1 < 7 && b.2 < 7);
    }
}

#[test]
fn cuckoo_places_every_item_once() {
    let c = batch(4, 7, 1 << 20);
    let idxs = [0usize, 17, 123456, (1 << 20) - 1];
    let cands: Vec<(usize, usize, usize)> = idxs.iter().map(|&i| c.idx_to_buckets(i)).collect();
    let mapping = c.cuckoo(&cands, 1 << 16).expect("cuckoo hashing failed");
    check_assignment(&c, &idxs, &mapping);
}

#[test]
fn cuckoo_gives_up_when_buckets_run_out() {
    let c = batch(3, 2, 10);
    // three items, two buckets: some item always stays homeless
    let cands = vec![(0, 1, 0), (0, 1, 1), (1, 0, 0)];
    assert_eq!(c.cuckoo(&cands, 100), None);
}

#[test]
fn layouts_list_each_record_in_its_buckets() {
    let c = batch(4, 7, 1000);
    let layouts = c.bucket_layouts(1000).unwrap();
    assert_eq!(layouts.len(), 7);
    let mut total = 0;
    for l in &layouts {
        assert_eq!(l.len(), 1000);
        total += l.iter().filter(|s| s.is_some()).count();
    }
    assert_eq!(total, 3000);
    for i in [0usize, 999] {
        let (b1, b2, b3) = c.idx_to_buckets(i);
        for b in [b1, b2, b3] {
            assert!(layouts[b].contains(&Some(i)));
        }
    }
    // 3000 entries cannot fit in 7 buckets of 100 slots
    assert!(c.bucket_layouts(100).is_none());
}

#[test]
fn batch_query_over_a_million_records() {
    let c = batch(4, 7, 1 << 20);
    let layouts = c.bucket_layouts(1 << 19).unwrap();
    let idxs = vec![0usize, 4242, 777777, (1 << 20) - 1];
    let (slots, mapping) = c.query_plan(&idxs, &layouts).expect("query planning failed");
    check_assignment(&c, &idxs, &mapping);
    assert_eq!(slots.len(), 7);
    let mut used = vec![false; 7];
    for &(bucket, item) in &mapping {
        assert_eq!(layouts[bucket][slots[bucket]], Some(idxs[item]));
        used[bucket] = true;
    }
    for b in 0..7 {
        if !used[b] {
            assert_eq!(slots[b], 0);
        }
    }
}

#[test]
fn extract_reorders_answers() {
    let c = batch(3, 4, 100);
    let chunks = vec![vec![vec![10u8], vec![11u8]], vec![vec![12u8], vec![13u8], vec![14u8]]];
    let mapping = vec![(0, 2), (3, 0)];
    let out = c.extract(&chunks, &mapping).unwrap();
    assert_eq!(out, vec![vec![13u8], vec![], vec![10u8]]);
    let short = vec![vec![vec![1u8]]];
    assert_eq!(c.extract(&short, &mapping), None);
}

#[test]
fn response_sizes() {
    let c = batch(4, 7, 1 << 20);
    // 7 answers, 2 per ring element -> 4 elements -> one full vector of 3 and 1 left
    assert_eq!(c.response_vectors(2, 3), (1, 1));
    assert_eq!(c.params_response_info(2, 3, 100, 40), Some((140, 1, 1)));
    assert_eq!(c.params_response_info(7, 1, 100, 40), Some((100, 1, 0)));
    assert_eq!(c.params_query_size(10), Some(70));
    assert_eq!(c.params_record_size(256), Some(1024));
    assert_eq!(c.params_query_size(usize::MAX), None);
}

#[test]
fn foreign_layouts_report_missing_records() {
    let c = batch(2, 7, 50);
    // empty buckets hold no record at all
    let layouts: Vec<Vec<Option<usize>>> = vec![vec![None; 4]; 7];
    assert_eq!(c.query_plan(&vec![3, 9], &layouts), Err(QueryPlanError::RecordMissing));
}
