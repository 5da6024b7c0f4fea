use content_core::context::{ContextError, ContextQuery};
use content_core::index::{DataError, StorageData};
use content_core::page::{LocalStorageError, PageMetadata};
use content_core::query::{QueryListOptions, StorageQuery, StorageQueryMethod};
use content_core::routes::RequestArgs;
use content_core::value::MetaValue;

fn s(x: &str) -> String {
    x.to_string()
}

fn opts() -> QueryListOptions {
    QueryListOptions { limit: 3, sort_by: None, rev_sort: false }
}

fn page() -> PageMetadata {
    PageMetadata {
        id: 1,
        hidden: false,
        metadata: vec![(s("serie"), MetaValue::Str(s("intro")))],
        add_context: vec![],
        template: None,
    }
}

#[test]
fn independent_sub_queries() {
    assert!(matches!(ContextQuery::Plain(MetaValue::Null).independant_query(), Ok(None)));
    let q = ContextQuery::RecentPages(s("posts"), opts()).independant_query();
    let expected = StorageQuery::recent_pages(&s("posts"), &opts());
    assert!(matches!(q, Ok(Some(ref x)) if x.key == expected.key));
    let q = ContextQuery::QueryContext(s("pages"), s("about")).independant_query();
    assert!(matches!(q, Ok(Some(ref x)) if matches!(&x.method, StorageQueryMethod::QueryContext(n) if n == "about")));
    let q = ContextQuery::SimilarPagesFromMetadata(s("posts"), vec![s("serie")], opts()).independant_query();
    assert!(matches!(q, Err(ContextError::UnsupportedContextQuery)));
}

#[test]
fn sub_queries_from_page_and_route() {
    let args = RequestArgs { match_infos: vec![(s("tag"), s("rust"))] };
    let q = ContextQuery::SimilarPagesFromMetadata(s("posts"), vec![s("serie")], opts())
        .get_storage_query(&args, &page());
    let expected = StorageQuery::similar_pages(
        &s("posts"),
        (vec![s("serie")], Some(MetaValue::Str(s("intro")))),
        &opts(),
    );
    assert!(matches!(q, Ok(Some(ref x)) if x.key == expected.key));
    let q = ContextQuery::SimilarPagesFromMetadata(s("posts"), vec![s("missing")], opts())
        .get_storage_query(&args, &page());
    assert!(matches!(q, Ok(None)));
    let q = ContextQuery::SimilarPagesFromMetadata(s("posts"), vec![], opts()).get_storage_query(&args, &page());
    assert!(matches!(q, Err(ContextError::EmptyKeys)));
    let q = ContextQuery::SimilarPagesFromUri(s("posts"), vec![s("tags")], s("tag"), opts())
        .get_storage_query(&args, &page());
    let expected = StorageQuery::similar_pages(
        &s("posts"),
        (vec![s("tags")], Some(MetaValue::Str(s("rust")))),
        &opts(),
    );
    assert!(matches!(q, Ok(Some(ref x)) if x.key == expected.key));
    let q = ContextQuery::SimilarPagesFromUri(s("posts"), vec![s("tags")], s("nope"), opts())
        .get_storage_query(&args, &page());
    assert!(matches!(q, Err(ContextError::ParameterNotInUrl)));
}

#[test]
fn answer_accessors() {
    assert!(matches!(StorageData::StaticFileData(vec![1]).static_file(), Ok(v) if v == vec![1]));
    assert!(matches!(StorageData::Nothing.static_file(), Err(DataError::WrongStorageData)));
    assert!(matches!(
        StorageData::Error(LocalStorageError::NoMetadataSplit).recent_pages(),
        Err(DataError::Storage(LocalStorageError::NoMetadataSplit))
    ));
    let c = StorageData::PageContent { metadata: page(), body: s("b"), lang: Some(s("fr")) };
    assert!(matches!(c.page_content(), Ok((Some(l), m, b)) if l == "fr" && m.id == 1 && b == "b"));
}
