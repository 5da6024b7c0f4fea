//! Posts of a blog: their metadata, identity, and the filters over them.
use vstd::prelude::*;
use crate::encode::{
    digest, digest_of, lemma_opt_str_bytes_prefix, lemma_str_bytes_prefix, opt_str_bytes,
    push_opt_str, push_str, str_bytes, strings_view,
};
use crate::index::contains_str;

verus! {

pub struct SerieMetadata {
    pub slug: String,
    pub title: String,
    pub description: String,
    /// Seconds since the epoch.
    pub end_date: i64,
}

pub struct PostMetadata {
    pub id: u64,
    pub title: String,
    pub description: Option<String>,
    pub category: Option<String>,
    pub serie: Option<String>,
    pub serie_title: Option<String>,
    /// Seconds since the epoch.
    pub date: i64,
    pub modified: Option<i64>,
    pub tags: Vec<String>,
    pub hidden: bool,
}

pub struct Post {
    pub metadata: PostMetadata,
    pub content: String,
    pub post_nav: String,
}

/// Which posts a listing keeps.
pub enum PostFilter {
    NoFilter,
    NoSerie,
    Serie(String),
    Category(String),
    Combine(Vec<PostFilter>),
    DifferentThan(u64),
    ContainsTag(String),
}

/// The model of a filter.
pub enum FilterView {
    NoFilter,
    NoSerie,
    Serie(Seq<char>),
    Category(Seq<char>),
    Combine(Seq<FilterView>),
    DifferentThan(u64),
    ContainsTag(Seq<char>),
}

pub open spec fn view_filter(f: PostFilter) -> FilterView
    decreases f,
{
    match f {
        PostFilter::NoFilter => FilterView::NoFilter,
        PostFilter::NoSerie => FilterView::NoSerie,
        PostFilter::Serie(s) => FilterView::Serie(s@),
        PostFilter::Category(c) => FilterView::Category(c@),
        PostFilter::Combine(all) => FilterView::Combine(view_filters(all@)),
        PostFilter::DifferentThan(id) => FilterView::DifferentThan(id),
        PostFilter::ContainsTag(t) => FilterView::ContainsTag(t@),
    }
}

pub open spec fn view_filters(s: Seq<PostFilter>) -> Seq<FilterView>
    decreases s,
{
    if s.len() == 0 {
        Seq::empty()
    } else {
        view_filters(s.drop_last()).push(view_filter(s.last()))
    }
}

impl View for PostFilter {
    type V = FilterView;

    open spec fn view(&self) -> FilterView {
        view_filter(*self)
    }
}

pub proof fn lemma_view_filters(s: Seq<PostFilter>)
    ensures
        view_filters(s).len() == s.len(),
        forall|i: int| 0 <= i < s.len() ==> #[trigger] view_filters(s)[i] == view_filter(s[i]),
    decreases s.len(),
{
    if s.len() > 0 {
        lemma_view_filters(s.drop_last());
    }
}

pub open spec fn opt_view(o: Option<String>) -> Option<Seq<char>> {
    match o {
        Some(s) => Some(s@),
        None => None,
    }
}

/// Whether a post passes a filter; a combination passes when every part does.
pub open spec fn passes(p: PostMetadata, f: FilterView) -> bool
    decreases f,
{
    match f {
        FilterView::NoFilter => true,
        FilterView::NoSerie => p.serie is None,
        FilterView::DifferentThan(id) => p.id != id,
        FilterView::Serie(s) => opt_view(p.serie) == Some(s),
        FilterView::Category(c) => opt_view(p.category) == Some(c),
        FilterView::ContainsTag(t) => strings_view(p.tags@).contains(t),
        FilterView::Combine(all) => passes_all(p, all),
    }
}

/// Whether a post passes every filter of a list.
pub open spec fn passes_all(p: PostMetadata, fs: Seq<FilterView>) -> bool
    decreases fs,
{
    if fs.len() == 0 {
        true
    } else {
        passes_all(p, fs.drop_last()) && passes(p, fs.last())
    }
}

/// The bytes a post's derived identity comes from: title, serie, category.
pub open spec fn post_id_bytes(title: Seq<char>, serie: Option<Seq<char>>, category: Option<Seq<char>>) -> Seq<u8> {
    str_bytes(title) + opt_str_bytes(serie) + opt_str_bytes(category)
}

pub open spec fn post_id_of(title: Seq<char>, serie: Option<Seq<char>>, category: Option<Seq<char>>) -> u64 {
    digest_of(post_id_bytes(title, serie, category))
}

fn opt_eq(a: &Option<String>, b: &String) -> (r: bool)
    ensures
        r == (opt_view(*a) == Some(b@)),
{
    match a {
        Some(x) => x.eq(b),
        None => false,
    }
}

impl PostMetadata {
    /// Gives a post without an identity (zero) one derived from its title,
    /// serie and category.
    pub fn compute_id(&mut self)
        ensures
            old(self).id == 0 ==> *final(self) == (PostMetadata {
                id: post_id_of(old(self).title@, opt_view(old(self).serie), opt_view(old(self).category)),
                ..*old(self)
            }),
            old(self).id != 0 ==> *final(self) == *old(self),
    {
        if self.id == 0 {
            let mut out: Vec<u8> = Vec::new();
            push_str(&mut out, &self.title);
            push_opt_str(&mut out, &self.serie);
            push_opt_str(&mut out, &self.category);
            assert(out@ =~= post_id_bytes(self.title@, opt_view(self.serie), opt_view(self.category)));
            self.id = digest(&out);
        }
    }

    /// Whether the post passes a filter.
    pub fn filter(&self, filter: &PostFilter) -> (r: bool)
        ensures
            r == passes(*self, filter@),
        decreases filter@,
    {
        match filter {
            PostFilter::NoFilter => true,
            PostFilter::NoSerie => self.serie.is_none(),
            PostFilter::DifferentThan(id) => self.id != *id,
            PostFilter::Serie(s) => opt_eq(&self.serie, s),
            PostFilter::Category(c) => opt_eq(&self.category, c),
            PostFilter::ContainsTag(tag) => contains_str(&self.tags, tag),
            PostFilter::Combine(all) => {
                let ghost fs = view_filters(all@);
                proof {
                    lemma_view_filters(all@);
                    let j = filter@;
                    assert forall|k: int| 0 <= k < all.len() implies decreases_to!(j => #[trigger] all@[k]@) by {
                        assert(decreases_to!(j => j->Combine_0));
                        assert(decreases_to!(j->Combine_0 => j->Combine_0[k]));
                    }
                }
                let mut i: usize = 0;
                while i < all.len()
                    invariant
                        0 <= i <= all@.len(),
                        fs == view_filters(all@),
                        fs.len() == all@.len(),
                        filter@ == FilterView::Combine(fs),
                        forall|k: int| 0 <= k < all@.len() ==> #[trigger] fs[k] == view_filter(all@[k]),
                        forall|k: int| 0 <= k < all@.len() ==> decreases_to!(filter@ => #[trigger] all@[k]@),
                        passes_all(*self, fs.subrange(0, i as int)),
                    decreases all.len() - i,
                {
                    if !self.filter(&all[i]) {
                        proof {
                            lemma_passes_all_prefix(*self, fs, i as int);
                        }
                        return false;
                    }
                    proof {
                        assert(fs.subrange(0, i + 1).drop_last() =~= fs.subrange(0, i as int));
                    }
                    i = i + 1;
                }
                assert(fs.subrange(0, fs.len() as int) =~= fs);
                true
            },
        }
    }
}

proof fn lemma_passes_all_prefix(p: PostMetadata, fs: Seq<FilterView>, i: int)
    requires
        0 <= i < fs.len(),
        !passes(p, fs[i]),
    ensures
        !passes_all(p, fs),
    decreases fs.len(),
{
    if i < fs.len() - 1 {
        lemma_passes_all_prefix(p, fs.drop_last(), i);
    }
}

/// Same title, serie and category give the same derived identity.
pub proof fn lemma_post_id_deterministic(a: PostMetadata, b: PostMetadata)
    requires
        a.title@ == b.title@,
        opt_view(a.serie) == opt_view(b.serie),
        opt_view(a.category) == opt_view(b.category),
    ensures
        post_id_of(a.title@, opt_view(a.serie), opt_view(a.category)) == post_id_of(
            b.title@,
            opt_view(b.serie),
            opt_view(b.category),
        ),
{
}

/// How many items each listing shows.
pub struct LoadingLimits {
    pub recent_posts: usize,
    pub categories: usize,
    pub series: usize,
    pub plain_posts_list: usize,
}

impl Default for LoadingLimits {
    fn default() -> (r: LoadingLimits)
        ensures
            r.recent_posts == 4 && r.categories == 5 && r.series == 5 && r.plain_posts_list == 15,
    {
        LoadingLimits { recent_posts: 4, categories: 5, series: 5, plain_posts_list: 15 }
    }
}

/// Posts that differ in title, serie or category hash different bytes:
/// the digest input determines all three.
pub proof fn lemma_post_id_bytes_injective(
    t1: Seq<char>,
    s1: Option<Seq<char>>,
    c1: Option<Seq<char>>,
    t2: Seq<char>,
    s2: Option<Seq<char>>,
    c2: Option<Seq<char>>,
)
    requires
        t1.len() <= u64::MAX,
        t2.len() <= u64::MAX,
        s1 matches Some(x) ==> x.len() <= u64::MAX,
        s2 matches Some(x) ==> x.len() <= u64::MAX,
        c1 matches Some(x) ==> x.len() <= u64::MAX,
        c2 matches Some(x) ==> x.len() <= u64::MAX,
        post_id_bytes(t1, s1, c1) == post_id_bytes(t2, s2, c2),
    ensures
        t1 == t2,
        s1 == s2,
        c1 == c2,
{
    let e1 = post_id_bytes(t1, s1, c1);
    let e2 = post_id_bytes(t2, s2, c2);
    assert(e1 =~= str_bytes(t1) + (opt_str_bytes(s1) + opt_str_bytes(c1)));
    assert(e2 =~= str_bytes(t2) + (opt_str_bytes(s2) + opt_str_bytes(c2)));
    lemma_str_bytes_prefix(t1, t2, opt_str_bytes(s1) + opt_str_bytes(c1), opt_str_bytes(s2) + opt_str_bytes(c2));
    lemma_opt_str_bytes_prefix(s1, s2, opt_str_bytes(c1), opt_str_bytes(c2));
    assert(opt_str_bytes(c1) + Seq::<u8>::empty() =~= opt_str_bytes(c1));
    assert(opt_str_bytes(c2) + Seq::<u8>::empty() =~= opt_str_bytes(c2));
    lemma_opt_str_bytes_prefix(c1, c2, Seq::empty(), Seq::empty());
}

} // verus!
