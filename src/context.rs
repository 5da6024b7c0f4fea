//! Named sub-queries that fill a page's template context.
use vstd::prelude::*;
use crate::encode::strings_view;
use crate::page::PageMetadata;
use crate::query::{
    clone_strings, filter_wf, opt_value_view, MetadataFilter, MetadataQuery, MethodView, QueryListOptions,
    QueryView, StorageQuery,
};
use crate::routes::RequestArgs;
use crate::value::{path_get, Json, MetaValue};

verus! {

/// A sub-query of a page's context.
#[derive(Debug)]
pub enum ContextQuery {
    /// A value given as it is.
    Plain(MetaValue),
    RecentPages(String, QueryListOptions),
    /// Units whose value at the keys matches the page's own value there.
    SimilarPagesFromMetadata(String, MetadataQuery, QueryListOptions),
    /// Units whose value at the keys matches a route parameter.
    SimilarPagesFromUri(String, MetadataQuery, String, QueryListOptions),
    QueryMetadata(String, MetadataQuery),
    QueryFilterMetadata(String, MetadataFilter, MetadataQuery),
    QueryContext(String, String),
}

/// Why a sub-query could not be built.
pub enum ContextError {
    /// The sub-query needs the page or the route to be built.
    UnsupportedContextQuery,
    /// A similar-pages sub-query names no keys.
    EmptyKeys,
    /// The route lacks the parameter the sub-query names.
    ParameterNotInUrl,
}

pub open spec fn list_view(slug: Seq<char>, method: MethodView, opts: QueryListOptions) -> QueryView {
    QueryView {
        slug,
        method,
        limit: opts.limit,
        lang: None,
        sort: match opts.sort_by {
            None => None,
            Some(s) => Some((strings_view(s@), opts.rev_sort)),
        },
    }
}

pub open spec fn plain_view(slug: Seq<char>, method: MethodView) -> QueryView {
    QueryView { slug, method, limit: 0, lang: None, sort: None }
}

fn clone_opts(o: &QueryListOptions) -> (r: QueryListOptions)
    ensures
        r.limit == o.limit,
        r.rev_sort == o.rev_sort,
        match (r.sort_by, o.sort_by) {
            (None, None) => true,
            (Some(a), Some(b)) => a@ == b@,
            _ => false,
        },
{
    QueryListOptions {
        limit: o.limit,
        sort_by: match &o.sort_by {
            None => None,
            Some(s) => Some(clone_strings(s)),
        },
        rev_sort: o.rev_sort,
    }
}

fn clone_filter(f: &MetadataFilter) -> (r: MetadataFilter)
    ensures
        strings_view(r.0@) == strings_view(f.0@),
        opt_value_view(r.1) == opt_value_view(f.1),
{
    let keys = clone_strings(&f.0);
    let val = match &f.1 {
        None => None,
        Some(v) => Some(v.duplicate()),
    };
    (keys, val)
}

impl ContextQuery {
    /// A filter value it holds is well formed.
    pub open spec fn wf(&self) -> bool {
        match self {
            ContextQuery::QueryFilterMetadata(_, f, _) => filter_wf(*f),
            _ => true,
        }
    }

    /// A copy of the sub-query.
    pub fn duplicate(&self) -> (r: ContextQuery)
        ensures
            self.wf() ==> r.wf(),
    {
        match self {
            ContextQuery::Plain(v) => ContextQuery::Plain(v.duplicate()),
            ContextQuery::RecentPages(slug, o) => ContextQuery::RecentPages(slug.clone(), clone_opts(o)),
            ContextQuery::SimilarPagesFromMetadata(slug, k, o) => ContextQuery::SimilarPagesFromMetadata(
                slug.clone(),
                clone_strings(k),
                clone_opts(o),
            ),
            ContextQuery::SimilarPagesFromUri(slug, k, uri, o) => ContextQuery::SimilarPagesFromUri(
                slug.clone(),
                clone_strings(k),
                uri.clone(),
                clone_opts(o),
            ),
            ContextQuery::QueryMetadata(slug, q) => ContextQuery::QueryMetadata(slug.clone(), clone_strings(q)),
            ContextQuery::QueryFilterMetadata(slug, f, q) => ContextQuery::QueryFilterMetadata(
                slug.clone(),
                clone_filter(f),
                clone_strings(q),
            ),
            ContextQuery::QueryContext(slug, n) => ContextQuery::QueryContext(slug.clone(), n.clone()),
        }
    }

    /// The query of a sub-query that needs neither the page nor the route.
    pub fn independant_query(&self) -> (r: Result<Option<StorageQuery>, ContextError>)
        requires
            self.wf(),
        ensures
            r matches Ok(Some(q)) ==> q.wf(),
            match self {
                ContextQuery::Plain(_) => r matches Ok(None),
                ContextQuery::RecentPages(slug, opts) => (r matches Ok(Some(q)) && q@ == list_view(slug@, MethodView::RecentPages, *opts)),
                ContextQuery::QueryMetadata(slug, query) => (r matches Ok(Some(q)) && q@ == plain_view(
                    slug@,
                    MethodView::QueryMetadata(Seq::empty(), None, strings_view(query@)),
                )),
                ContextQuery::QueryFilterMetadata(slug, f, query) => (r matches Ok(Some(q)) && q@ == plain_view(
                    slug@,
                    MethodView::QueryMetadata(strings_view(f.0@), opt_value_view(f.1), strings_view(query@)),
                )),
                ContextQuery::QueryContext(slug, name) => (r matches Ok(Some(q)) && q@ == plain_view(slug@, MethodView::QueryContext(name@))),
                _ => r matches Err(ContextError::UnsupportedContextQuery),
            },
    {
        match self {
            ContextQuery::Plain(_) => Ok(None),
            ContextQuery::RecentPages(slug, opts) => Ok(Some(StorageQuery::recent_pages(slug, opts))),
            ContextQuery::QueryMetadata(slug, query) => {
                let none: Vec<String> = Vec::new();
                assert(strings_view(none@) =~= Seq::<Seq<char>>::empty());
                let q = StorageQuery::query_metadata(slug, (none, None), clone_strings(query));
                Ok(Some(q))
            },
            ContextQuery::QueryFilterMetadata(slug, f, query) => {
                let q = StorageQuery::query_metadata(slug, clone_filter(f), clone_strings(query));
                Ok(Some(q))
            },
            ContextQuery::QueryContext(slug, name) => Ok(Some(StorageQuery::query_context(slug, name.clone()))),
            _ => Err(ContextError::UnsupportedContextQuery),
        }
    }

    /// The query of a sub-query for a page reached through a route with
    /// parameters `args`; none where the page has no value to match.
    pub fn get_storage_query(&self, args: &RequestArgs, page_md: &PageMetadata) -> (r: Result<Option<StorageQuery>, ContextError>)
        requires
            self.wf(),
            page_md.wf(),
        ensures
            r matches Ok(Some(q)) ==> q.wf(),
            match self {
                ContextQuery::SimilarPagesFromMetadata(slug, keys, opts) => if keys@.len() == 0 {
                    r matches Err(ContextError::EmptyKeys)
                } else {
                    match path_get(page_md@.metadata, strings_view(keys@)) {
                        None => r matches Ok(None),
                        Some(v) => (r matches Ok(Some(q)) && q@ == list_view(
                            slug@,
                            MethodView::GetSimilarPages(strings_view(keys@), Some(v)),
                            *opts,
                        )),
                    }
                },
                ContextQuery::SimilarPagesFromUri(slug, keys, uri, opts) => if keys@.len() == 0 {
                    r matches Err(ContextError::EmptyKeys)
                } else {
                    match r {
                        Ok(Some(q)) => exists|i: int| 0 <= i < args.match_infos@.len() && #[trigger] args.match_infos@[i].0@ == uri@
                            && q@ == list_view(
                            slug@,
                            MethodView::GetSimilarPages(strings_view(keys@), Some(Json::Str(args.match_infos@[i].1@))),
                            *opts,
                        ),
                        Err(ContextError::ParameterNotInUrl) => forall|i: int| 0 <= i < args.match_infos@.len() ==> #[trigger] args.match_infos@[i].0@ != uri@,
                        _ => false,
                    }
                },
                ContextQuery::Plain(_) => r matches Ok(None),
                ContextQuery::RecentPages(slug, opts) => (r matches Ok(Some(q)) && q@ == list_view(slug@, MethodView::RecentPages, *opts)),
                ContextQuery::QueryMetadata(slug, query) => (r matches Ok(Some(q)) && q@ == plain_view(
                    slug@,
                    MethodView::QueryMetadata(Seq::empty(), None, strings_view(query@)),
                )),
                ContextQuery::QueryFilterMetadata(slug, f, query) => (r matches Ok(Some(q)) && q@ == plain_view(
                    slug@,
                    MethodView::QueryMetadata(strings_view(f.0@), opt_value_view(f.1), strings_view(query@)),
                )),
                ContextQuery::QueryContext(slug, name) => (r matches Ok(Some(q)) && q@ == plain_view(slug@, MethodView::QueryContext(name@))),
            },
    {
        match self {
            ContextQuery::SimilarPagesFromMetadata(slug, keys, opts) => {
                if keys.len() == 0 {
                    return Err(ContextError::EmptyKeys);
                }
                match page_md.get_metadata(keys) {
                    None => Ok(None),
                    Some(val) => {
                        proof {
                            crate::value::lemma_path_get_wf(page_md@.metadata, strings_view(keys@));
                        }
                        let q = StorageQuery::similar_pages(slug, (clone_strings(keys), Some(val.duplicate())), opts);
                        Ok(Some(q))
                    },
                }
            },
            ContextQuery::SimilarPagesFromUri(slug, keys, uri, opts) => {
                if keys.len() == 0 {
                    return Err(ContextError::EmptyKeys);
                }
                match args.get_query_slug(uri) {
                    Err(_) => Err(ContextError::ParameterNotInUrl),
                    Ok(val) => {
                        let q = StorageQuery::similar_pages(slug, (clone_strings(keys), Some(MetaValue::Str(val))), opts);
                        Ok(Some(q))
                    },
                }
            },
            _ => self.independant_query(),
        }
    }
}

} // verus!
