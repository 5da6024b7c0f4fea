use content_core::index::{LocalStorage, Resolution, StorageData};
use content_core::page::{split_front_matter, LocalStorageError, PageMetadata};
use content_core::query::{QueryListOptions, StorageQuery, StorageQueryMethod};
use content_core::value::{compare_values, similar_values, MetaValue};
use std::cmp::Ordering;

fn s(x: &str) -> String {
    x.to_string()
}

fn unit(id: u64, hidden: bool, md: Vec<(&str, MetaValue)>) -> PageMetadata {
    PageMetadata {
        id,
        hidden,
        metadata: md.into_iter().map(|(k, v)| (s(k), v)).collect(),
        add_context: vec![],
        template: None,
    }
}

fn storage() -> LocalStorage {
    LocalStorage {
        all_pages: vec![],
        generation: 0,
        data_root: s("/data"),
        supported_lang: vec![s("en"), s("fr")],
        default_sort: (vec![s("date")], false),
        template_root: s("/data/templates"),
        include_assets: vec![s("/data/assets")],
        strict_lang: vec![],
    }
}

fn dates(v: &[PageMetadata]) -> Vec<i128> {
    v.iter()
        .map(|p| match p.get_metadata(&vec![s("date")]) {
            Some(MetaValue::Number(n)) => *n,
            _ => -1,
        })
        .collect()
}

fn posts_storage() -> LocalStorage {
    let mut st = storage();
    st.register_pages(
        s("posts"),
        vec![
            (s("/data/posts/a.md"), unit(1, false, vec![("date", MetaValue::Number(100))])),
            (s("/data/posts/b.md"), unit(2, false, vec![("date", MetaValue::Number(200))])),
            (s("/data/posts/c.md"), unit(3, false, vec![("date", MetaValue::Number(300))])),
        ],
    );
    st
}

#[test]
fn recent_pages_scenario() {
    let st = posts_storage();
    let opts = QueryListOptions { limit: 2, sort_by: Some(vec![s("date")]), rev_sort: false };
    let q = StorageQuery::recent_pages(&s("posts"), &opts);
    match st.dispatch(&q) {
        Ok(Resolution::Ready(StorageData::RecentPages(v))) => assert_eq!(dates(&v), vec![300, 200]),
        other => panic!("unexpected {:?}", other),
    }
}

#[test]
fn recent_pages_reversed_and_unlimited() {
    let st = posts_storage();
    let opts = QueryListOptions { limit: 0, sort_by: Some(vec![s("date")]), rev_sort: true };
    let q = StorageQuery::recent_pages(&s("posts"), &opts);
    match st.dispatch(&q) {
        Ok(Resolution::Ready(StorageData::RecentPages(v))) => assert_eq!(dates(&v), vec![100, 200, 300]),
        other => panic!("unexpected {:?}", other),
    }
}

#[test]
fn recent_pages_skip_hidden_units() {
    let mut st = storage();
    st.register_pages(
        s("posts"),
        vec![
            (s("a"), unit(1, false, vec![("date", MetaValue::Number(5))])),
            (s("b"), unit(2, true, vec![("date", MetaValue::Number(9))])),
            (s("c"), unit(3, false, vec![])),
        ],
    );
    let opts = QueryListOptions { limit: 0, sort_by: None, rev_sort: false };
    let q = StorageQuery::recent_pages(&s("posts"), &opts);
    match st.dispatch(&q) {
        Ok(Resolution::Ready(StorageData::RecentPages(v))) => {
            let ids: Vec<u64> = v.iter().map(|p| p.id).collect();
            assert_eq!(ids, vec![1, 3]);
        },
        other => panic!("unexpected {:?}", other),
    }
}

#[test]
fn similar_pages_scenario() {
    let mut st = storage();
    let tags = MetaValue::Array(vec![MetaValue::Str(s("rust")), MetaValue::Str(s("cache"))]);
    st.register_pages(
        s("posts"),
        vec![
            (s("a"), unit(7, false, vec![("date", MetaValue::Number(1)), ("tags", tags)])),
            (s("b"), unit(8, false, vec![("date", MetaValue::Number(2)), ("tags", MetaValue::Array(vec![]))])),
        ],
    );
    let opts = QueryListOptions { limit: 0, sort_by: None, rev_sort: false };
    let q = StorageQuery::similar_pages(&s("posts"), (vec![s("tags")], Some(MetaValue::Str(s("rust")))), &opts);
    match st.dispatch(&q) {
        Ok(Resolution::Ready(StorageData::SimilarPages(v))) => {
            assert_eq!(v.len(), 1);
            assert_eq!(v[0].id, 7);
        },
        other => panic!("unexpected {:?}", other),
    }
}

#[test]
fn similar_values_rules() {
    let arr = MetaValue::Array(vec![MetaValue::Str(s("rust")), MetaValue::Str(s("cache"))]);
    assert!(similar_values(&arr, &MetaValue::Str(s("rust"))));
    assert!(similar_values(&MetaValue::Str(s("cache")), &arr));
    assert!(!similar_values(&arr, &MetaValue::Str(s("go"))));
    assert!(!similar_values(&arr, &MetaValue::Array(vec![MetaValue::Str(s("rust"))])));
    assert!(similar_values(&MetaValue::Number(3), &MetaValue::Number(3)));
}

#[test]
fn typed_comparison() {
    assert_eq!(compare_values(&MetaValue::Number(2), &MetaValue::Number(10)), Ordering::Less);
    assert_eq!(compare_values(&MetaValue::Str(s("b")), &MetaValue::Str(s("ab"))), Ordering::Greater);
    assert_eq!(compare_values(&MetaValue::Str(s("ab")), &MetaValue::Str(s("abc"))), Ordering::Less);
    let a = MetaValue::Array(vec![MetaValue::Number(1), MetaValue::Number(2)]);
    let b = MetaValue::Array(vec![MetaValue::Number(1), MetaValue::Number(3)]);
    assert_eq!(compare_values(&a, &b), Ordering::Less);
    assert_eq!(compare_values(&b, &b), Ordering::Equal);
}

#[test]
fn language_fallback() {
    let st = storage();
    let mut q = StorageQueryMethod::ContentSlug(s("hello")).build_query("posts");
    q.set_lang(vec![s("de"), s("fr"), s("en")]);
    match st.select_lang(&q) {
        Ok(Some(l)) => assert_eq!(l, "fr"),
        other => panic!("unexpected {:?}", other),
    }
    match st.dispatch(&q) {
        Ok(Resolution::ReadContent { path, lang }) => {
            assert_eq!(path, "/data/posts/fr/hello.md");
            assert_eq!(lang, Some(s("fr")));
        },
        other => panic!("unexpected {:?}", other),
    }
}

#[test]
fn language_unsupported() {
    let mut st = storage();
    let mut q = StorageQueryMethod::ContentSlug(s("hello")).build_query("posts");
    q.set_lang(vec![s("de")]);
    assert!(matches!(st.select_lang(&q), Ok(None)));
    st.strict_lang = vec![s("posts")];
    assert!(matches!(st.select_lang(&q), Err(LocalStorageError::LangNotSupported)));
}

#[test]
fn path_traversal_rejected() {
    let st = storage();
    let q = StorageQuery::static_file(s("../../etc/passwd"));
    assert!(matches!(st.dispatch(&q), Err(LocalStorageError::AttackSuspected(_))));
}

#[test]
fn static_file_normalised() {
    let st = storage();
    let q = StorageQuery::static_file(s("/css/./site.css"));
    match st.dispatch(&q) {
        Ok(Resolution::ReadStatic(c)) => assert_eq!(c, vec![s("/data/assets/css/site.css")]),
        other => panic!("unexpected {:?}", other),
    }
}

#[test]
fn within_root_compares_components() {
    assert!(LocalStorage::check_within_root(&s("/data/assets"), &s("/data/assets/x")).is_ok());
    assert!(LocalStorage::check_within_root(&s("/data/assets"), &s("/data/assets")).is_ok());
    assert!(LocalStorage::check_within_root(&s("/data/assets"), &s("/data/assetsx/y")).is_err());
}

#[test]
fn content_by_id() {
    let mut st = storage();
    let q = StorageQueryMethod::ContentNumId(2).build_query("posts");
    assert!(matches!(st.dispatch(&q), Ok(Resolution::IndexClass(c)) if c == "posts"));
    st.register_pages(
        s("posts"),
        vec![
            (s("/p/a.md"), unit(1, false, vec![])),
            (s("/p/b.md"), unit(2, false, vec![])),
            (s("/p/c.md"), unit(2, false, vec![])),
        ],
    );
    assert!(matches!(st.dispatch(&q), Err(LocalStorageError::TooManyMatches(1, 1))));
    let q1 = StorageQueryMethod::ContentNumId(1).build_query("posts");
    assert!(matches!(st.dispatch(&q1), Ok(Resolution::ReadContent { path, .. }) if path == "/p/a.md"));
    let q9 = StorageQueryMethod::ContentNumId(9).build_query("posts");
    assert!(matches!(st.dispatch(&q9), Err(LocalStorageError::NoMatch(_))));
}

#[test]
fn query_metadata_collects_values() {
    let mut st = storage();
    st.register_pages(
        s("posts"),
        vec![
            (s("a"), unit(1, false, vec![("cat", MetaValue::Str(s("x"))), ("title", MetaValue::Str(s("A")))])),
            (s("b"), unit(2, false, vec![("cat", MetaValue::Str(s("y"))), ("title", MetaValue::Str(s("B")))])),
            (s("c"), unit(3, false, vec![("cat", MetaValue::Str(s("x")))])),
        ],
    );
    let q = StorageQuery::query_metadata(&s("posts"), (vec![s("cat")], Some(MetaValue::Str(s("x")))), vec![s("title")]);
    match st.dispatch(&q) {
        Ok(Resolution::Ready(StorageData::QueryMetadata(v))) => {
            assert_eq!(v.len(), 1);
            assert!(matches!(&v[0], MetaValue::Str(t) if t == "A"));
        },
        other => panic!("unexpected {:?}", other),
    }
}

#[test]
fn nested_metadata_path() {
    let u = unit(
        1,
        false,
        vec![("author", MetaValue::Object(vec![(s("name"), MetaValue::Str(s("Ann")))]))],
    );
    assert!(matches!(u.get_metadata(&vec![s("author"), s("name")]), Some(MetaValue::Str(n)) if n == "Ann"));
    assert!(u.get_metadata(&vec![s("author"), s("mail")]).is_none());
    assert!(u.get_metadata(&vec![]).is_none());
}

#[test]
fn front_matter_split() {
    let (front, body) = match split_front_matter("id = 3\n---\nbody --- more") {
        Ok(x) => x,
        Err(e) => panic!("unexpected {:?}", e),
    };
    assert_eq!(front, "id = 3\n");
    assert_eq!(body, "\nbody --- more");
    assert!(matches!(split_front_matter("no marker"), Err(LocalStorageError::NoMetadataSplit)));
}

#[test]
fn derived_page_id() {
    let mut a = unit(0, false, vec![("title", MetaValue::Str(s("x")))]);
    let mut b = unit(0, false, vec![("title", MetaValue::Str(s("x")))]);
    let mut c = unit(0, false, vec![("title", MetaValue::Str(s("y")))]);
    a.ensure_id();
    b.ensure_id();
    c.ensure_id();
    assert_eq!(a.id, b.id);
    assert_ne!(a.id, c.id);
    let mut d = unit(42, false, vec![]);
    d.ensure_id();
    assert_eq!(d.id, 42);
}

#[test]
fn register_bumps_generation() {
    let mut st = storage();
    assert!(!st.has_changed(0));
    st.register_pages(s("posts"), vec![]);
    assert_eq!(st.generation, 1);
    assert!(st.has_changed(0));
}

#[test]
fn derived_id_ignores_member_order() {
    let mut m1 = vec![];
    content_core::value::insert_member(&mut m1, s("title"), MetaValue::Str(s("x")));
    content_core::value::insert_member(&mut m1, s("date"), MetaValue::Number(5));
    let mut m2 = vec![];
    content_core::value::insert_member(&mut m2, s("date"), MetaValue::Number(5));
    content_core::value::insert_member(&mut m2, s("title"), MetaValue::Str(s("x")));
    let mut a = PageMetadata { id: 0, hidden: false, metadata: m1, add_context: vec![], template: None };
    let mut b = PageMetadata { id: 0, hidden: false, metadata: m2, add_context: vec![], template: None };
    a.ensure_id();
    b.ensure_id();
    assert_eq!(a.id, b.id);
}

#[test]
fn large_numbers_compare_numerically() {
    let big = MetaValue::Number(u64::MAX as i128);
    assert_eq!(compare_values(&MetaValue::Number(-1), &big), Ordering::Less);
    assert_eq!(compare_values(&big, &MetaValue::Number(i64::MAX as i128)), Ordering::Greater);
}
