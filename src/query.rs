//! Content queries and their fingerprints.
use vstd::prelude::*;
use crate::encode::{
    digest, digest_of, push_str, push_strs, push_u64, str_bytes, strings_view, strs_bytes,
    u64_bytes,
};
use crate::value::{json_bytes, keys_increase, wf_json, lemma_members_canonical, push_value, MetaValue, Json};

verus! {

/// A path of metadata keys and the value expected there, if any.
pub type MetadataFilter = (Vec<String>, Option<MetaValue>);

/// A path of metadata keys whose values are collected.
pub type MetadataQuery = Vec<String>;

/// How a list of content units is cut and ordered.
#[derive(Clone, Debug)]
pub struct QueryListOptions {
    pub limit: usize,
    pub sort_by: Option<Vec<String>>,
    pub rev_sort: bool,
}

/// What a query asks of a content class.
#[derive(Debug)]
pub enum StorageQueryMethod {
    NoOp,
    ContentFromName(String),
    ContentNumId(u64),
    ContentSlug(String),
    RecentPages,
    GetSimilarPages(MetadataFilter),
    QueryTemplates,
    StaticFile(String),
    QueryContext(String),
    QueryMetadata(MetadataFilter, MetadataQuery),
}

/// A query on a content class, with its fingerprint.
#[derive(Debug)]
pub struct StorageQuery {
    pub key: u64,
    pub storage_slug: String,
    pub method: StorageQueryMethod,
    pub limit: usize,
    pub lang_pref: Option<Vec<String>>,
    pub sort_by: Option<(Vec<String>, bool)>,
}

/// The model of a query method.
pub enum MethodView {
    NoOp,
    ContentFromName(Seq<char>),
    ContentNumId(u64),
    ContentSlug(Seq<char>),
    RecentPages,
    GetSimilarPages(Seq<Seq<char>>, Option<Json>),
    QueryTemplates,
    StaticFile(Seq<char>),
    QueryContext(Seq<char>),
    QueryMetadata(Seq<Seq<char>>, Option<Json>, Seq<Seq<char>>),
}

/// The model of a query: everything that makes two queries the same.
pub struct QueryView {
    pub slug: Seq<char>,
    pub method: MethodView,
    pub limit: usize,
    pub lang: Option<Seq<Seq<char>>>,
    pub sort: Option<(Seq<Seq<char>>, bool)>,
}

pub open spec fn opt_value_view(v: Option<MetaValue>) -> Option<Json> {
    match v {
        None => None,
        Some(x) => Some(x@),
    }
}

impl View for StorageQueryMethod {
    type V = MethodView;

    open spec fn view(&self) -> MethodView {
        match self {
            StorageQueryMethod::NoOp => MethodView::NoOp,
            StorageQueryMethod::ContentFromName(n) => MethodView::ContentFromName(n@),
            StorageQueryMethod::ContentNumId(id) => MethodView::ContentNumId(*id),
            StorageQueryMethod::ContentSlug(n) => MethodView::ContentSlug(n@),
            StorageQueryMethod::RecentPages => MethodView::RecentPages,
            StorageQueryMethod::GetSimilarPages(f) => MethodView::GetSimilarPages(
                strings_view(f.0@),
                opt_value_view(f.1),
            ),
            StorageQueryMethod::QueryTemplates => MethodView::QueryTemplates,
            StorageQueryMethod::StaticFile(n) => MethodView::StaticFile(n@),
            StorageQueryMethod::QueryContext(n) => MethodView::QueryContext(n@),
            StorageQueryMethod::QueryMetadata(f, q) => MethodView::QueryMetadata(
                strings_view(f.0@),
                opt_value_view(f.1),
                strings_view(q@),
            ),
        }
    }
}

impl View for StorageQuery {
    type V = QueryView;

    open spec fn view(&self) -> QueryView {
        QueryView {
            slug: self.storage_slug@,
            method: self.method@,
            limit: self.limit,
            lang: match self.lang_pref {
                None => None,
                Some(l) => Some(strings_view(l@)),
            },
            sort: match self.sort_by {
                None => None,
                Some(s) => Some((strings_view(s.0@), s.1)),
            },
        }
    }
}

pub open spec fn filter_bytes(keys: Seq<Seq<char>>, v: Option<Json>) -> Seq<u8> {
    strs_bytes(keys) + match v {
        None => seq![0u8],
        Some(j) => seq![1u8] + json_bytes(j),
    }
}

/// A tag for the kind of method, then its payload in a fixed order.
pub open spec fn method_bytes(m: MethodView) -> Seq<u8> {
    match m {
        MethodView::NoOp => seq![0u8],
        MethodView::ContentFromName(n) => seq![1u8] + str_bytes(n),
        MethodView::ContentNumId(id) => seq![2u8] + u64_bytes(id),
        MethodView::RecentPages => seq![3u8],
        MethodView::QueryTemplates => seq![4u8],
        MethodView::StaticFile(n) => seq![6u8] + str_bytes(n),
        MethodView::GetSimilarPages(k, v) => seq![7u8] + filter_bytes(k, v),
        MethodView::ContentSlug(n) => seq![8u8] + str_bytes(n),
        MethodView::QueryMetadata(k, v, q) => seq![9u8] + filter_bytes(k, v) + strs_bytes(q),
        MethodView::QueryContext(n) => seq![10u8] + str_bytes(n),
    }
}

pub open spec fn opt_strs_bytes(l: Option<Seq<Seq<char>>>) -> Seq<u8> {
    match l {
        None => seq![0u8],
        Some(s) => seq![1u8] + strs_bytes(s),
    }
}

pub open spec fn sort_bytes(s: Option<(Seq<Seq<char>>, bool)>) -> Seq<u8> {
    match s {
        None => seq![0u8],
        Some((k, rev)) => seq![1u8] + strs_bytes(k) + seq![if rev { 1u8 } else { 0u8 }],
    }
}

/// The canonical bytes of a query: class, method, limit, languages, sorting.
pub open spec fn query_bytes(q: QueryView) -> Seq<u8> {
    str_bytes(q.slug) + method_bytes(q.method) + u64_bytes(q.limit as u64) + opt_strs_bytes(q.lang)
        + sort_bytes(q.sort)
}

/// A value in the method's filter is well formed.
pub open spec fn method_wf(m: MethodView) -> bool {
    match m {
        MethodView::GetSimilarPages(_, Some(v)) => wf_json(v),
        MethodView::QueryMetadata(_, Some(v), _) => wf_json(v),
        _ => true,
    }
}

/// A filter's value, if any, is well formed.
pub open spec fn filter_wf(f: MetadataFilter) -> bool {
    f.1 matches Some(v) ==> v.wf()
}

/// The fingerprint of a query.
pub open spec fn fingerprint_of(q: QueryView) -> u64 {
    digest_of(query_bytes(q))
}

fn push_filter(out: &mut Vec<u8>, f: &MetadataFilter)
    requires
        filter_wf(*f),
    ensures
        final(out)@ == old(out)@ + filter_bytes(strings_view(f.0@), opt_value_view(f.1)),
{
    push_strs(out, &f.0);
    let ghost mid = out@;
    match &f.1 {
        None => {
            out.push(0u8);
        },
        Some(v) => {
            out.push(1u8);
            push_value(out, v);
        },
    }
    assert(out@ =~= old(out)@ + filter_bytes(strings_view(f.0@), opt_value_view(f.1)));
}

fn push_method(out: &mut Vec<u8>, m: &StorageQueryMethod)
    requires
        method_wf(m@),
    ensures
        final(out)@ == old(out)@ + method_bytes(m@),
{
    match m {
        StorageQueryMethod::NoOp => {
            out.push(0u8);
        },
        StorageQueryMethod::ContentFromName(n) => {
            out.push(1u8);
            push_str(out, n);
        },
        StorageQueryMethod::ContentNumId(id) => {
            out.push(2u8);
            push_u64(out, *id);
        },
        StorageQueryMethod::RecentPages => {
            out.push(3u8);
        },
        StorageQueryMethod::QueryTemplates => {
            out.push(4u8);
        },
        StorageQueryMethod::StaticFile(n) => {
            out.push(6u8);
            push_str(out, n);
        },
        StorageQueryMethod::GetSimilarPages(f) => {
            out.push(7u8);
            push_filter(out, f);
        },
        StorageQueryMethod::ContentSlug(n) => {
            out.push(8u8);
            push_str(out, n);
        },
        StorageQueryMethod::QueryMetadata(f, q) => {
            out.push(9u8);
            push_filter(out, f);
            push_strs(out, q);
        },
        StorageQueryMethod::QueryContext(n) => {
            out.push(10u8);
            push_str(out, n);
        },
    }
    assert(out@ =~= old(out)@ + method_bytes(m@));
}

impl StorageQuery {
    /// The stored fingerprint matches the query.
    /// The stored fingerprint matches the query, and a value in its filter
    /// keeps object members in key order, so that one mapping has one
    /// fingerprint.
    pub open spec fn wf(&self) -> bool {
        self.key == fingerprint_of(self@) && method_wf(self@.method)
    }

    /// The canonical bytes of the query.
    pub fn encode(&self) -> (r: Vec<u8>)
        requires
            method_wf(self@.method),
        ensures
            r@ == query_bytes(self@),
    {
        let mut out: Vec<u8> = Vec::new();
        push_str(&mut out, &self.storage_slug);
        push_method(&mut out, &self.method);
        push_u64(&mut out, self.limit as u64);
        let ghost mid = out@;
        match &self.lang_pref {
            None => {
                out.push(0u8);
            },
            Some(l) => {
                out.push(1u8);
                push_strs(&mut out, l);
            },
        }
        assert(out@ =~= mid + opt_strs_bytes(self@.lang));
        let ghost mid2 = out@;
        match &self.sort_by {
            None => {
                out.push(0u8);
            },
            Some(s) => {
                out.push(1u8);
                push_strs(&mut out, &s.0);
                out.push(if s.1 { 1u8 } else { 0u8 });
            },
        }
        assert(out@ =~= mid2 + sort_bytes(self@.sort));
        assert(out@ =~= query_bytes(self@));
        out
    }

    /// The fingerprint of the query, which serves as its cache key.
    pub fn key(&self) -> (r: u64)
        requires
            self.wf(),
        ensures
            r == fingerprint_of(self@),
    {
        self.key
    }

    /// Recomputes the fingerprint after the public fields were changed.
    pub fn update_key(&mut self)
        requires
            method_wf(old(self)@.method),
        ensures
            final(self)@ == old(self)@,
            final(self).wf(),
    {
        let bytes = self.encode();
        self.key = digest(&bytes);
    }

    /// Sets the language preferences, most preferred first.
    pub fn set_lang(&mut self, lang: Vec<String>)
        requires
            method_wf(old(self)@.method),
        ensures
            final(self)@ == (QueryView { lang: Some(strings_view(lang@)), ..old(self)@ }),
            final(self).wf(),
    {
        self.lang_pref = Some(lang);
        self.update_key();
    }

    /// Takes the limit and sorting of a set of list options.
    pub fn list_opts(&mut self, opts: &QueryListOptions)
        requires
            method_wf(old(self)@.method),
        ensures
            final(self)@ == (QueryView {
                limit: opts.limit,
                sort: match opts.sort_by {
                    None => None,
                    Some(s) => Some((strings_view(s@), opts.rev_sort)),
                },
                ..old(self)@
            }),
            final(self).wf(),
    {
        self.limit = opts.limit;
        self.sort_by = match &opts.sort_by {
            None => None,
            Some(s) => Some((clone_strings(s), opts.rev_sort)),
        };
        self.update_key();
    }

    /// A query for some content units of a class.
    pub fn recent_pages(slug: &String, opts: &QueryListOptions) -> (r: StorageQuery)
        ensures
            r.wf(),
            r@ == (QueryView {
                slug: slug@,
                method: MethodView::RecentPages,
                limit: opts.limit,
                lang: None,
                sort: match opts.sort_by {
                    None => None,
                    Some(s) => Some((strings_view(s@), opts.rev_sort)),
                },
            }),
    {
        let mut q = StorageQueryMethod::RecentPages.build_query(slug.as_str());
        q.list_opts(opts);
        q
    }

    /// A query for the units of a class that match a filter.
    pub fn similar_pages(slug: &String, keys: MetadataFilter, opts: &QueryListOptions) -> (r: StorageQuery)
        requires
            filter_wf(keys),
        ensures
            r.wf(),
            r@ == (QueryView {
                slug: slug@,
                method: MethodView::GetSimilarPages(strings_view(keys.0@), opt_value_view(keys.1)),
                limit: opts.limit,
                lang: None,
                sort: match opts.sort_by {
                    None => None,
                    Some(s) => Some((strings_view(s@), opts.rev_sort)),
                },
            }),
    {
        let mut q = StorageQueryMethod::GetSimilarPages(keys).build_query(slug.as_str());
        q.list_opts(opts);
        q
    }

    /// A query for metadata values of the units of a class.
    pub fn query_metadata(slug: &String, filter: MetadataFilter, qry: MetadataQuery) -> (r: StorageQuery)
        requires
            filter_wf(filter),
        ensures
            r.wf(),
            r@ == (QueryView {
                slug: slug@,
                method: MethodView::QueryMetadata(
                    strings_view(filter.0@),
                    opt_value_view(filter.1),
                    strings_view(qry@),
                ),
                limit: 0,
                lang: None,
                sort: None,
            }),
    {
        StorageQueryMethod::QueryMetadata(filter, qry).build_query(slug.as_str())
    }

    /// A query for a named context document of a class.
    pub fn query_context(slug: &String, name: String) -> (r: StorageQuery)
        ensures
            r.wf(),
            r@ == (QueryView {
                slug: slug@,
                method: MethodView::QueryContext(name@),
                limit: 0,
                lang: None,
                sort: None,
            }),
    {
        StorageQueryMethod::QueryContext(name).build_query(slug.as_str())
    }

    /// A query for a static asset.
    pub fn static_file(fname: String) -> (r: StorageQuery)
        ensures
            r.wf(),
            r@ == (QueryView {
                slug: "static"@,
                method: MethodView::StaticFile(fname@),
                limit: 0,
                lang: None,
                sort: None,
            }),
    {
        StorageQueryMethod::StaticFile(fname).build_query("static")
    }

    /// A query for all templates.
    pub fn templates() -> (r: StorageQuery)
        ensures
            r.wf(),
            r@ == (QueryView {
                slug: "templates"@,
                method: MethodView::QueryTemplates,
                limit: 0,
                lang: None,
                sort: None,
            }),
    {
        StorageQueryMethod::QueryTemplates.build_query("templates")
    }
}

impl StorageQueryMethod {
    /// A query with this method on a class, with no limit, language or sorting.
    pub fn build_query(self, slug: &str) -> (r: StorageQuery)
        requires
            method_wf(self@),
        ensures
            r.wf(),
            r@ == (QueryView { slug: slug@, method: self@, limit: 0, lang: None, sort: None }),
    {
        let mut q = StorageQuery {
            key: 0,
            storage_slug: slug.to_owned(),
            method: self,
            limit: 0,
            lang_pref: None,
            sort_by: None,
        };
        q.update_key();
        q
    }
}

pub fn clone_strings(v: &Vec<String>) -> (r: Vec<String>)
    ensures
        r@ == v@,
{
    let mut out: Vec<String> = Vec::new();
    let mut i: usize = 0;
    while i < v.len()
        invariant
            0 <= i <= v.len(),
            out@ == v@.subrange(0, i as int),
        decreases v.len() - i,
    {
        out.push(v[i].clone());
        proof {
            assert(out@ =~= v@.subrange(0, i + 1));
        }
        i = i + 1;
    }
    assert(v@.subrange(0, v.len() as int) =~= v@);
    out
}

/// Queries that are the same in class, method, limit, languages and sorting
/// have the same fingerprint, however their parts were built.
pub proof fn lemma_fingerprint_stable(q1: StorageQuery, q2: StorageQuery)
    requires
        q1.wf(),
        q2.wf(),
        q1@ == q2@,
    ensures
        q1.key == q2.key,
{
}

/// A similar-pages filter whose value is an object gives the same
/// fingerprint whatever order its members were gathered in, so long as each
/// object keeps its members in key order.
pub proof fn lemma_fingerprint_member_order(
    q1: StorageQuery,
    q2: StorageQuery,
    keys: Seq<Seq<char>>,
    m1: Seq<(Seq<char>, Json)>,
    m2: Seq<(Seq<char>, Json)>,
)
    requires
        q1.wf(),
        q2.wf(),
        q1@.slug == q2@.slug,
        q1@.limit == q2@.limit,
        q1@.lang == q2@.lang,
        q1@.sort == q2@.sort,
        q1@.method == MethodView::GetSimilarPages(keys, Some(Json::Object(m1))),
        q2@.method == MethodView::GetSimilarPages(keys, Some(Json::Object(m2))),
        keys_increase(m1),
        keys_increase(m2),
        forall|x: (Seq<char>, Json)| m1.contains(x) <==> m2.contains(x),
    ensures
        q1.key == q2.key,
{
    lemma_members_canonical(m1, m2);
    assert(q1@ == q2@);
}

} // verus!
