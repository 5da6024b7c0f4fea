use content_core::cache::{Cache, CacheError, PartitionedCache};
use content_core::index::{LocalStorage, StorageData};
use content_core::query::{QueryListOptions, StorageQuery, StorageQueryMethod};
use content_core::storage::StorageImpl;
use content_core::value::MetaValue;
use std::sync::Arc;

fn keys<V>(c: &Cache<V>) -> Vec<u64> {
    c.entries.iter().map(|e| e.key).collect()
}

#[test]
fn budget_holds_after_adds_and_purges() {
    let mut c: Cache<u8> = Cache::empty(10);
    for k in 0..20u64 {
        let _ = c.add(k, 0, (k % 4) as usize + 1, 0);
        assert!(c.tot_size <= c.size_limit);
        if k % 3 == 0 {
            c.purge(k);
            assert!(c.tot_size <= c.size_limit);
        }
    }
    let sum: usize = c.entries.iter().map(|e| e.byte_size).sum();
    assert_eq!(sum, c.tot_size);
}

#[test]
fn eviction_follows_scores() {
    let mut c: Cache<&str> = Cache::empty(10);
    c.add(1, "a", 4, 0).unwrap();
    c.add(2, "b", 4, 0).unwrap();
    // read entry 1 twice: it scores higher than the unread entry 2
    assert_eq!(c.get(1), Some("a"));
    assert_eq!(c.get(1), Some("a"));
    c.add(3, "c", 4, 0).unwrap();
    assert_eq!(keys(&c), vec![1, 3]);
    assert_eq!(c.tot_size, 8);
}

#[test]
fn eviction_takes_no_more_than_needed() {
    let mut c: Cache<u8> = Cache::empty(10);
    c.add(1, 0, 3, 0).unwrap();
    c.add(2, 0, 3, 0).unwrap();
    c.add(3, 0, 3, 0).unwrap();
    // one byte free; four needed: the first unread entry goes, no other
    c.add(4, 0, 4, 0).unwrap();
    assert_eq!(keys(&c), vec![2, 3, 4]);
    assert_eq!(c.tot_size, 10);
}

#[test]
fn ties_go_in_insertion_order() {
    let mut c: Cache<u8> = Cache::empty(6);
    c.add(5, 0, 3, 0).unwrap();
    c.add(6, 0, 3, 0).unwrap();
    c.add(7, 0, 3, 0).unwrap();
    assert_eq!(keys(&c), vec![6, 7]);
}

#[test]
fn oversized_entry_is_rejected() {
    let mut c: Cache<u8> = Cache::empty(10);
    c.add(1, 0, 5, 0).unwrap();
    assert!(matches!(c.add(2, 0, 11, 0), Err(CacheError::CacheOversize)));
    assert_eq!(keys(&c), vec![1]);
    assert_eq!(c.tot_size, 5);
    // exactly the budget fits, after evicting everything else
    c.add(3, 0, 10, 0).unwrap();
    assert_eq!(keys(&c), vec![3]);
}

#[test]
fn same_key_replaces() {
    let mut c: Cache<u8> = Cache::empty(10);
    c.add(1, 1, 5, 0).unwrap();
    c.add(1, 2, 3, 0).unwrap();
    assert_eq!(keys(&c), vec![1]);
    assert_eq!(c.tot_size, 3);
    assert_eq!(c.get(1), Some(2));
}

#[test]
fn get_counts_queries_and_hits() {
    let mut c: Cache<u8> = Cache::empty(10);
    c.add(1, 9, 1, 0).unwrap();
    assert_eq!(c.get(2), None);
    assert_eq!(c.get(1), Some(9));
    assert_eq!(c.tot_count, 2);
    assert_eq!(c.entries[0].hit_count, 1);
}

#[test]
fn partitions_split_by_weight() {
    let p: PartitionedCache<u8> =
        PartitionedCache::new(1000, &vec![("pages".to_string(), 3), ("nav".to_string(), 1)]);
    assert_eq!(p.parts[0].1.size_limit, 750);
    assert_eq!(p.parts[1].1.size_limit, 250);
    let mut p = p;
    assert!(matches!(p.add(&"other".to_string(), 1, 0, 1, 0), Err(CacheError::UnknownPartition)));
    p.add(&"nav".to_string(), 1, 5, 200, 0).unwrap();
    assert_eq!(p.get(&"nav".to_string(), 1), Some(5));
    assert_eq!(p.get(&"pages".to_string(), 1), None);
}

fn backend() -> LocalStorage {
    LocalStorage {
        all_pages: vec![],
        generation: 0,
        data_root: "/data".to_string(),
        supported_lang: vec![],
        default_sort: (vec![], false),
        template_root: "/t".to_string(),
        include_assets: vec![],
        strict_lang: vec![],
    }
}

#[test]
fn stale_answers_are_not_served() {
    let mut st = StorageImpl::init(backend(), 100, &vec![("posts".to_string(), 1)]);
    let opts = QueryListOptions { limit: 0, sort_by: None, rev_sort: false };
    let q = StorageQuery::recent_pages(&"posts".to_string(), &opts);
    assert!(st.query_cache(&q).is_none());
    st.store(&q, Arc::new(StorageData::Nothing), 10, 0).unwrap();
    assert!(st.query_cache(&q).is_some());
    st.backend.register_pages("posts".to_string(), vec![]);
    assert!(st.has_changed(0));
    assert!(st.query_cache(&q).is_none());
    // an answer computed before the reload is stored but never served
    st.store(&q, Arc::new(StorageData::Nothing), 10, 0).unwrap();
    assert!(st.query_cache(&q).is_none());
    st.store(&q, Arc::new(StorageData::Nothing), 10, 1).unwrap();
    assert!(st.query_cache(&q).is_some());
}

#[test]
fn fingerprints_ignore_construction_path() {
    let opts = QueryListOptions { limit: 5, sort_by: Some(vec!["date".to_string()]), rev_sort: true };
    let a = StorageQuery::recent_pages(&"posts".to_string(), &opts);
    let mut b = StorageQueryMethod::RecentPages.build_query("posts");
    b.limit = 5;
    b.sort_by = Some((vec!["date".to_string()], true));
    b.update_key();
    assert_eq!(a.key, b.key);

    let f1 = (vec!["tags".to_string()], Some(MetaValue::Object(vec![("a".to_string(), MetaValue::Number(1))])));
    let f2 = (vec!["tags".to_string()], Some(MetaValue::Object(vec![("a".to_string(), MetaValue::Number(1))])));
    let q1 = StorageQuery::similar_pages(&"posts".to_string(), f1, &opts);
    let q2 = StorageQuery::similar_pages(&"posts".to_string(), f2, &opts);
    assert_eq!(q1.key, q2.key);
}

#[test]
fn fingerprints_tell_queries_apart() {
    let a = StorageQueryMethod::ContentNumId(1).build_query("posts");
    let b = StorageQueryMethod::ContentNumId(2).build_query("posts");
    let c = StorageQueryMethod::ContentNumId(1).build_query("pages");
    assert_ne!(a.key, b.key);
    assert_ne!(a.key, c.key);
    let mut d = StorageQueryMethod::ContentNumId(1).build_query("posts");
    d.set_lang(vec!["fr".to_string()]);
    assert_ne!(a.key, d.key);
}

fn object(pairs: &[(&str, i128)]) -> MetaValue {
    let mut members = vec![];
    for (k, v) in pairs {
        content_core::value::insert_member(&mut members, k.to_string(), MetaValue::Number(*v));
    }
    content_core::value::object_from_members(members)
}

#[test]
fn fingerprints_ignore_member_insertion_order() {
    let opts = QueryListOptions { limit: 0, sort_by: None, rev_sort: false };
    let v1 = object(&[("b", 2), ("a", 1), ("c", 3)]);
    let v2 = object(&[("c", 3), ("a", 1), ("b", 2)]);
    let q1 = StorageQuery::similar_pages(&"posts".to_string(), (vec!["k".to_string()], Some(v1)), &opts);
    let q2 = StorageQuery::similar_pages(&"posts".to_string(), (vec!["k".to_string()], Some(v2)), &opts);
    assert_eq!(q1.key, q2.key);
    let v3 = object(&[("a", 1), ("b", 5)]);
    let q3 = StorageQuery::similar_pages(&"posts".to_string(), (vec!["k".to_string()], Some(v3)), &opts);
    assert_ne!(q1.key, q3.key);
}

#[test]
fn insert_member_keeps_key_order_and_replaces() {
    let mut members = vec![];
    content_core::value::insert_member(&mut members, "b".to_string(), MetaValue::Number(1));
    content_core::value::insert_member(&mut members, "a".to_string(), MetaValue::Number(2));
    content_core::value::insert_member(&mut members, "b".to_string(), MetaValue::Number(3));
    let keys: Vec<&str> = members.iter().map(|(k, _)| k.as_str()).collect();
    assert_eq!(keys, vec!["a", "b"]);
    assert!(matches!(members[1].1, MetaValue::Number(3)));
}
