//! The content index: units of each class held in memory, and how a query
//! is resolved against them.
use vstd::prelude::*;
use vstd::string::StringExecFns;
use path_absolutize::Absolutize;
use crate::encode::strings_view;
use core::cmp::Ordering;
use crate::page::{LocalStorageError, PageMetadata, PageView};
use crate::query::{opt_value_view, MethodView, QueryView, StorageQuery, StorageQueryMethod};
use crate::value::{
    cmp_opt, flip, lemma_cmp_opt_antisym, path_get, similar_json, similar_values,
    values_equal, view_items, Json, MetaValue,
};

verus! {

/// The first preferred language that is supported, if any.
pub open spec fn pick_lang(pref: Seq<Seq<char>>, supported: Seq<Seq<char>>) -> Option<Seq<char>>
    decreases pref.len(),
{
    if pref.len() == 0 {
        None
    } else if supported.contains(pref[0]) {
        Some(pref[0])
    } else {
        pick_lang(pref.subrange(1, pref.len() as int), supported)
    }
}

/// The language chosen for a query: the first preferred one that is
/// supported. Without preferences, or with none supported, the class's
/// default is used (no language), unless `strict` asks for a failure.
pub open spec fn lang_choice(
    pref: Option<Seq<Seq<char>>>,
    supported: Seq<Seq<char>>,
    strict: bool,
) -> Result<Option<Seq<char>>, ()> {
    match pref {
        None => Ok(None),
        Some(p) => match pick_lang(p, supported) {
            Some(l) => Ok(Some(l)),
            None => if strict && p.len() > 0 {
                Err(())
            } else {
                Ok(None)
            },
        },
    }
}

pub fn contains_str(v: &Vec<String>, s: &String) -> (r: bool)
    ensures
        r == strings_view(v@).contains(s@),
{
    let mut i: usize = 0;
    while i < v.len()
        invariant
            0 <= i <= v@.len(),
            forall|j: int| 0 <= j < i ==> #[trigger] v@[j]@ != s@,
        decreases v.len() - i,
    {
        if v[i].eq(s) {
            assert(strings_view(v@)[i as int] == s@);
            return true;
        }
        i = i + 1;
    }
    assert(!strings_view(v@).contains(s@)) by {
        if strings_view(v@).contains(s@) {
            let j = choose|j: int| 0 <= j < strings_view(v@).len() && strings_view(v@)[j] == s@;
            assert(v@[j]@ == s@);
        }
    }
    false
}

/// Picks the first preferred language that is supported.
pub fn select_lang_from(pref: &Vec<String>, supported: &Vec<String>) -> (r: Option<String>)
    ensures
        match r {
            Some(l) => pick_lang(strings_view(pref@), strings_view(supported@)) == Some(l@),
            None => pick_lang(strings_view(pref@), strings_view(supported@)) is None,
        },
{
    let ghost p = strings_view(pref@);
    let ghost sup = strings_view(supported@);
    assert(p.subrange(0, p.len() as int) =~= p);
    let mut i: usize = 0;
    while i < pref.len()
        invariant
            0 <= i <= pref@.len(),
            p == strings_view(pref@),
            sup == strings_view(supported@),
            pick_lang(p, sup) == pick_lang(p.subrange(i as int, p.len() as int), sup),
        decreases pref.len() - i,
    {
        if contains_str(supported, &pref[i]) {
            return Some(pref[i].clone());
        }
        proof {
            assert(p.subrange(i as int, p.len() as int).subrange(1, p.len() - i) =~= p.subrange(
                i + 1,
                p.len() as int,
            ));
        }
        i = i + 1;
    }
    None
}

/// Whether a normalised path lies at or under a root directory, comparing
/// whole path components.
pub open spec fn within(root: Seq<char>, p: Seq<char>) -> bool {
    p == root || (p.len() > root.len() && p.subrange(0, root.len() as int) == root && (
    p[root.len() as int] == '/' || (root.len() > 0 && root.last() == '/')))
}

/// Whether `p` lies at or under `root`.
pub fn is_within(root: &String, p: &String) -> (r: bool)
    ensures
        r == within(root@, p@),
{
    let n = root.as_str().unicode_len();
    let m = p.as_str().unicode_len();
    if m < n {
        return false;
    }
    let mut i: usize = 0;
    while i < n
        invariant
            n == root@.len(),
            m == p@.len(),
            n <= m,
            0 <= i <= n,
            forall|j: int| 0 <= j < i ==> p@[j] == root@[j],
        decreases n - i,
    {
        if root.as_str().get_char(i) != p.as_str().get_char(i) {
            assert(p@.subrange(0, n as int)[i as int] != root@[i as int]);
            return false;
        }
        i = i + 1;
    }
    assert(p@.subrange(0, n as int) =~= root@);
    if m == n {
        assert(p@ =~= root@);
        return true;
    }
    p.as_str().get_char(n) == '/' || (n > 0 && root.as_str().get_char(n - 1) == '/')
}

/// The path of a normalised path: `.` and `..` resolved, with `/` as the
/// directory a relative path starts from.
pub uninterp spec fn absolutized(p: Seq<char>) -> Seq<char>;

/// Relies on `path_absolutize::Absolutize::absolutize_from`, which resolves
/// `.` and `..` from the path's text alone, without reading the disk. On
/// unix it returns `Ok` in every branch, and the path it builds from the
/// components of a string and `/` is valid UTF-8.
#[verifier::external_body]
fn absolutize(p: &String) -> (r: Option<String>)
    ensures
        r is Some && r->Some_0@ == absolutized(p@),
{
    let path = std::path::Path::new(p.as_str());
    match path.absolutize_from("/") {
        Ok(a) => a.to_str().map(|s| s.to_string()),
        Err(_) => None,
    }
}

/// The order in which units are listed by the value at `keys`: greatest
/// first, units without a value last.
#[verifier::opaque]
pub open spec fn md_order(a: PageView, b: PageView, keys: Seq<Seq<char>>) -> Ordering {
    flip(cmp_opt(path_get(a.metadata, keys), path_get(b.metadata, keys)))
}

/// `a` may stand right before `b` in a listing (reversed if `rev`).
pub open spec fn in_order(a: PageView, b: PageView, keys: Seq<Seq<char>>, rev: bool) -> bool {
    if rev {
        md_order(b, a, keys) != Ordering::Greater
    } else {
        md_order(a, b, keys) != Ordering::Greater
    }
}

/// `idx` lists each admitted unit exactly once, in order.
pub open spec fn is_listing(
    pages: Seq<(String, PageMetadata)>,
    admitted: Seq<bool>,
    keys: Seq<Seq<char>>,
    rev: bool,
    idx: Seq<usize>,
) -> bool {
    &&& idx.no_duplicates()
    &&& forall|j: int| 0 <= j < idx.len() ==> #[trigger] idx[j] < pages.len()
    &&& forall|k: int| 0 <= k < pages.len() ==> (idx.contains(k as usize) <==> #[trigger] admitted[k])
    &&& forall|j: int|
        0 <= j < idx.len() - 1 ==> in_order(
            #[trigger] pages[idx[j] as int].1@,
            pages[idx[j + 1] as int].1@,
            keys,
            rev,
        )
}

/// How many units a listing keeps: all of them for a limit of zero.
pub open spec fn cut(n: int, limit: usize) -> int {
    if limit == 0 || limit >= n {
        n
    } else {
        limit as int
    }
}

proof fn lemma_md_order_antisym(a: PageView, b: PageView, keys: Seq<Seq<char>>)
    ensures
        md_order(a, b, keys) == flip(md_order(b, a, keys)),
{
    reveal(md_order);
    lemma_cmp_opt_antisym(path_get(a.metadata, keys), path_get(b.metadata, keys));
}

proof fn lemma_insert_members(len: int, admitted: Seq<bool>, old_idx: Seq<usize>, p: int, k: usize)
    requires
        0 <= p <= old_idx.len(),
        k < len,
        len <= usize::MAX,
        admitted.len() == len,
        admitted[k as int],
        old_idx.no_duplicates(),
        forall|j: int| 0 <= j < old_idx.len() ==> #[trigger] old_idx[j] < k,
        forall|x: int| 0 <= x < len ==> (old_idx.contains(x as usize) <==> (x < k && #[trigger] admitted[x])),
    ensures
        ({
            let n = old_idx.insert(p, k);
            &&& n.no_duplicates()
            &&& forall|j: int| 0 <= j < n.len() ==> #[trigger] n[j] < k + 1
            &&& forall|x: int| 0 <= x < len ==> (n.contains(x as usize) <==> (x < k + 1 && #[trigger] admitted[x]))
        }),
{
    let n = old_idx.insert(p, k);
    assert(!old_idx.contains(k)) by {
        if old_idx.contains(k) {
            let j = choose|j: int| 0 <= j < old_idx.len() && old_idx[j] == k;
            assert(old_idx[j] < k);
        }
    }
    assert forall|a: int, b: int| 0 <= a < n.len() && 0 <= b < n.len() && a != b implies n[a] != n[b] by {
        let oa = if a < p { a } else { a - 1 };
        let ob = if b < p { b } else { b - 1 };
        if a != p && b != p {
            assert(n[a] == old_idx[oa] && n[b] == old_idx[ob]);
        } else if a == p {
            assert(n[b] == old_idx[ob]);
        } else {
            assert(n[a] == old_idx[oa]);
        }
    }
    assert forall|j: int| 0 <= j < n.len() implies #[trigger] n[j] < k + 1 by {
        if j != p {
            let oj = if j < p { j } else { j - 1 };
            assert(n[j] == old_idx[oj]);
        }
    }
    assert forall|x: int| 0 <= x < len implies (n.contains(x as usize) <==> (x < k + 1 && #[trigger] admitted[x])) by {
        if n.contains(x as usize) {
            let j = choose|j: int| 0 <= j < n.len() && n[j] == x as usize;
            if j != p {
                let oj = if j < p { j } else { j - 1 };
                assert(old_idx[oj] == n[j]);
            }
        }
        if x < k && admitted[x] {
            assert(old_idx.contains(x as usize));
            let j = choose|j: int| 0 <= j < old_idx.len() && old_idx[j] == x as usize;
            let nj = if j < p { j } else { j + 1 };
            assert(n[nj] == x as usize);
        }
        if x == k {
            assert(n[p] == k);
        }
    }
}

proof fn lemma_insert_order(ok: spec_fn(usize, usize) -> bool, old_idx: Seq<usize>, p: int, k: usize)
    requires
        0 <= p <= old_idx.len(),
        forall|j: int| 0 <= j < old_idx.len() - 1 ==> #[trigger] ok(old_idx[j], old_idx[j + 1]),
        p > 0 ==> ok(old_idx[p - 1], k),
        p < old_idx.len() ==> ok(k, old_idx[p]),
    ensures
        ({
            let n = old_idx.insert(p, k);
            forall|j: int| 0 <= j < n.len() - 1 ==> #[trigger] ok(n[j], n[j + 1])
        }),
{
    let n = old_idx.insert(p, k);
    assert forall|j: int| 0 <= j < n.len() - 1 implies #[trigger] ok(n[j], n[j + 1]) by {
        if j + 1 < p {
            assert(n[j] == old_idx[j] && n[j + 1] == old_idx[j + 1]);
        } else if j + 1 == p {
            assert(n[j] == old_idx[j] && n[j + 1] == k);
        } else if j == p {
            assert(n[j] == k && n[j + 1] == old_idx[j]);
        } else {
            assert(n[j] == old_idx[j - 1] && n[j + 1] == old_idx[j]);
            assert(ok(old_idx[j - 1], old_idx[(j - 1) + 1]));
        }
    }
}

fn is_less(o: Ordering) -> (r: bool)
    ensures
        r == (o == Ordering::Less),
{
    match o {
        Ordering::Less => true,
        _ => false,
    }
}

/// The admitted units in listing order: stably sorted greatest first by
/// the value at `keys`, then reversed if `rev`.
fn sort_indices(
    pages: &Vec<(String, PageMetadata)>,
    admitted: &Vec<bool>,
    keys: &Vec<String>,
    rev: bool,
) -> (r: Vec<usize>)
    requires
        admitted@.len() == pages@.len(),
    ensures
        is_listing(pages@, admitted@, strings_view(keys@), rev, r@),
{
    let ghost ks = strings_view(keys@);
    let ghost ok = |a: usize, b: usize| md_order(pages@[a as int].1@, pages@[b as int].1@, ks) != Ordering::Greater;
    let mut idx: Vec<usize> = Vec::new();
    let mut k: usize = 0;
    while k < pages.len()
        invariant
            0 <= k <= pages@.len(),
            admitted@.len() == pages@.len(),
            ks == strings_view(keys@),
            ok == (|a: usize, b: usize| md_order(pages@[a as int].1@, pages@[b as int].1@, ks) != Ordering::Greater),
            idx@.no_duplicates(),
            forall|j: int| 0 <= j < idx@.len() ==> #[trigger] idx@[j] < k,
            forall|x: int| 0 <= x < pages@.len() ==> (idx@.contains(x as usize) <==> (x < k && #[trigger] admitted@[x])),
            forall|j: int| 0 <= j < idx@.len() - 1 ==> #[trigger] ok(idx@[j], idx@[j + 1]),
        decreases pages.len() - k,
    {
        if admitted[k] {
            let mut p: usize = 0;
            while p < idx.len() && !is_less(pages[k].1.compare_md(keys, &pages[idx[p]].1))
                invariant
                    0 <= p <= idx@.len(),
                    k < pages@.len(),
                    ks == strings_view(keys@),
                    forall|j: int| 0 <= j < idx@.len() ==> #[trigger] idx@[j] < k,
                    forall|j: int|
                        0 <= j < p ==> md_order(pages@[k as int].1@, #[trigger] pages@[idx@[j] as int].1@, ks)
                            != Ordering::Less,
                decreases idx.len() - p,
            {
                proof {
                    reveal(md_order);
                }
                p = p + 1;
            }
            proof {
                reveal(md_order);
            }
            let ghost old_idx = idx@;
            idx.insert(p, k);
            proof {
                lemma_insert_members(pages@.len() as int, admitted@, old_idx, p as int, k);
                if p > 0 {
                    lemma_md_order_antisym(pages@[k as int].1@, pages@[old_idx[p - 1] as int].1@, ks);
                }
                lemma_insert_order(ok, old_idx, p as int, k);
                assert(idx@ =~= old_idx.insert(p as int, k));
            }
        }
        k = k + 1;
    }
    proof {
        assert forall|j: int| 0 <= j < idx@.len() - 1 implies in_order(
            #[trigger] pages@[idx@[j] as int].1@,
            pages@[idx@[j + 1] as int].1@,
            ks,
            false,
        ) by {
            assert(ok(idx@[j], idx@[j + 1]));
        }
        assert forall|j: int| 0 <= j < idx@.len() implies #[trigger] idx@[j] < pages@.len() by {
            assert(idx@[j] < k);
        }
    }
    if !rev {
        return idx;
    }
    let mut out: Vec<usize> = Vec::new();
    let mut j: usize = idx.len();
    while j > 0
        invariant
            j <= idx@.len(),
            out@.len() == idx@.len() - j,
            forall|a: int| 0 <= a < out@.len() ==> #[trigger] out@[a] == idx@[idx@.len() - 1 - a],
        decreases j,
    {
        j = j - 1;
        out.push(idx[j]);
    }
    proof {
        let n = idx@.len();
        let o = out@;
        assert forall|a: int, b: int| 0 <= a < o.len() && 0 <= b < o.len() && a != b implies o[a] != o[b] by {
            assert(o[a] == idx@[n - 1 - a] && o[b] == idx@[n - 1 - b]);
        }
        assert forall|x: int| 0 <= x < pages@.len() implies (o.contains(x as usize) <==> #[trigger] admitted@[x]) by {
            if o.contains(x as usize) {
                let a = choose|a: int| 0 <= a < o.len() && o[a] == x as usize;
                assert(idx@[n - 1 - a] == x as usize);
            }
            if admitted@[x] {
                let a = choose|a: int| 0 <= a < idx@.len() && idx@[a] == x as usize;
                assert(o[n - 1 - a] == x as usize);
            }
        }
        assert forall|a: int| 0 <= a < o.len() - 1 implies in_order(
            #[trigger] pages@[o[a] as int].1@,
            pages@[o[a + 1] as int].1@,
            ks,
            true,
        ) by {
            assert(o[a] == idx@[n - 1 - a] && o[a + 1] == idx@[n - 1 - a - 1]);
            assert(ok(idx@[n - 2 - a], idx@[(n - 2 - a) + 1]));
        }
        assert forall|a: int| 0 <= a < o.len() implies #[trigger] o[a] < pages@.len() by {
            assert(o[a] == idx@[n - 1 - a]);
        }
    }
    out
}

/// The admitted units, in listing order, cut to `limit` (all for zero).
pub fn list_pages(
    pages: &Vec<(String, PageMetadata)>,
    admitted: &Vec<bool>,
    keys: &Vec<String>,
    rev: bool,
    limit: usize,
) -> (r: Vec<PageMetadata>)
    requires
        admitted@.len() == pages@.len(),
    ensures
        exists|idx: Seq<usize>|
            is_listing(pages@, admitted@, strings_view(keys@), rev, idx) && r@.len() == cut(
                idx.len() as int,
                limit,
            ) && forall|j: int| 0 <= j < r@.len() ==> #[trigger] r@[j]@ == pages@[idx[j] as int].1@,
{
    let idx = sort_indices(pages, admitted, keys, rev);
    let n = if limit == 0 || limit >= idx.len() { idx.len() } else { limit };
    let mut out: Vec<PageMetadata> = Vec::new();
    let mut j: usize = 0;
    while j < n
        invariant
            0 <= j <= n,
            n == cut(idx@.len() as int, limit),
            out@.len() == j,
            is_listing(pages@, admitted@, strings_view(keys@), rev, idx@),
            forall|a: int| 0 <= a < j ==> #[trigger] out@[a]@ == pages@[idx@[a] as int].1@,
        decreases n - j,
    {
        let u = pages[idx[j]].1.duplicate();
        out.push(u);
        j = j + 1;
    }
    out
}

/// A unit that is shown and matches a filter: the value at `keys` is
/// similar to the one given, or both are absent.
pub open spec fn similar_match(p: PageView, keys: Seq<Seq<char>>, val: Option<Json>) -> bool {
    !p.hidden && match (path_get(p.metadata, keys), val) {
        (Some(md), Some(v)) => similar_json(md, v),
        (None, None) => true,
        _ => false,
    }
}

/// Which units are shown.
pub fn shown_mask(pages: &Vec<(String, PageMetadata)>) -> (r: Vec<bool>)
    ensures
        r@.len() == pages@.len(),
        forall|k: int| 0 <= k < pages@.len() ==> #[trigger] r@[k] == !pages@[k].1.hidden,
{
    let mut out: Vec<bool> = Vec::new();
    let mut k: usize = 0;
    while k < pages.len()
        invariant
            0 <= k <= pages@.len(),
            out@.len() == k,
            forall|a: int| 0 <= a < k ==> #[trigger] out@[a] == !pages@[a].1.hidden,
        decreases pages.len() - k,
    {
        out.push(!pages[k].1.hidden);
        k = k + 1;
    }
    out
}

/// Which units are shown and match a filter.
pub fn similar_mask(pages: &Vec<(String, PageMetadata)>, keys: &Vec<String>, val: &Option<crate::value::MetaValue>) -> (r: Vec<bool>)
    ensures
        r@.len() == pages@.len(),
        forall|k: int|
            0 <= k < pages@.len() ==> #[trigger] r@[k] == similar_match(
                pages@[k].1@,
                strings_view(keys@),
                crate::query::opt_value_view(*val),
            ),
{
    let mut out: Vec<bool> = Vec::new();
    let mut k: usize = 0;
    while k < pages.len()
        invariant
            0 <= k <= pages@.len(),
            out@.len() == k,
            forall|a: int|
                0 <= a < k ==> #[trigger] out@[a] == similar_match(
                    pages@[a].1@,
                    strings_view(keys@),
                    crate::query::opt_value_view(*val),
                ),
        decreases pages.len() - k,
    {
        let m = if pages[k].1.hidden {
            false
        } else {
            match (pages[k].1.get_metadata(keys), val) {
                (Some(md), Some(v)) => similar_values(md, v),
                (None, None) => true,
                _ => false,
            }
        };
        out.push(m);
        k = k + 1;
    }
    out
}

/// What a query yields.
#[derive(Debug)]
pub enum StorageData {
    Nothing,
    RecentPages(Vec<PageMetadata>),
    SimilarPages(Vec<PageMetadata>),
    QueryMetadata(Vec<MetaValue>),
    PageContent { metadata: PageMetadata, body: String, lang: Option<String> },
    Templates(Vec<(String, String)>),
    StaticFileData(Vec<u8>),
    Error(LocalStorageError),
    Context(MetaValue),
}

/// How a query is answered: at once from the index, or by reading the
/// disk first.
#[derive(Debug)]
pub enum Resolution {
    /// The answer.
    Ready(StorageData),
    /// Read and split the content file at `path`; `lang` is the language chosen.
    ReadContent { path: String, lang: Option<String> },
    /// Read and decode the context document at the path.
    ReadContext(String),
    /// Load every template under the directory.
    ReadTemplates(String),
    /// Serve the first of these files that exists.
    ReadStatic(Vec<String>),
    /// The class has not been indexed yet: walk its directory, register the
    /// units found, and ask again.
    IndexClass(String),
}

/// The number of units with identity `id`.
pub open spec fn count_id(pages: Seq<(String, PageMetadata)>, id: u64) -> nat
    decreases pages.len(),
{
    if pages.len() == 0 {
        0
    } else {
        count_id(pages.drop_last(), id) + if pages.last().1.id == id { 1nat } else { 0nat }
    }
}

/// The values at `query` of the units whose value at `keys` is `val`, in
/// index order; units without a value at `query` give none.
pub open spec fn meta_values(
    pages: Seq<(String, PageMetadata)>,
    keys: Seq<Seq<char>>,
    val: Option<Json>,
    query: Seq<Seq<char>>,
) -> Seq<Json>
    decreases pages.len(),
{
    if pages.len() == 0 {
        Seq::empty()
    } else {
        let rest = meta_values(pages.drop_last(), keys, val, query);
        let md = pages.last().1@.metadata;
        if path_get(md, keys) == val {
            match path_get(md, query) {
                Some(v) => rest.push(v),
                None => rest,
            }
        } else {
            rest
        }
    }
}

/// The path of a content document: `root/class[/lang]/name.ext`.
pub open spec fn content_path(
    root: Seq<char>,
    slug: Seq<char>,
    lang: Option<Seq<char>>,
    name: Seq<char>,
    ext: Seq<char>,
) -> Seq<char> {
    root + seq!['/'] + slug + match lang {
        Some(l) => seq!['/'] + l,
        None => Seq::empty(),
    } + seq!['/'] + name + seq!['.'] + ext
}

/// A path with its leading slashes removed.
pub open spec fn trim_slashes(s: Seq<char>) -> Seq<char>
    decreases s.len(),
{
    if s.len() > 0 && s[0] == '/' {
        trim_slashes(s.subrange(1, s.len() as int))
    } else {
        s
    }
}

/// Where a requested asset would lie under an include root, before
/// normalisation.
pub open spec fn asset_path(root: Seq<char>, request: Seq<char>) -> Seq<char> {
    root + seq!['/'] + trim_slashes(request)
}

/// Units listed in order, cut to a limit.
pub open spec fn listed(
    r: Seq<PageMetadata>,
    pages: Seq<(String, PageMetadata)>,
    admitted: Seq<bool>,
    keys: Seq<Seq<char>>,
    rev: bool,
    limit: usize,
) -> bool {
    exists|idx: Seq<usize>|
        is_listing(pages, admitted, keys, rev, idx) && r.len() == cut(idx.len() as int, limit)
            && forall|j: int| 0 <= j < r.len() ==> #[trigger] r[j]@ == pages[idx[j] as int].1@
}

pub open spec fn shown(pages: Seq<(String, PageMetadata)>) -> Seq<bool> {
    Seq::new(pages.len(), |k: int| !pages[k].1.hidden)
}

pub open spec fn similar(pages: Seq<(String, PageMetadata)>, keys: Seq<Seq<char>>, val: Option<Json>) -> Seq<bool> {
    Seq::new(pages.len(), |k: int| similar_match(pages[k].1@, keys, val))
}

/// The first class named `slug`.
pub open spec fn class_of(all: Seq<(String, Vec<(String, PageMetadata)>)>, slug: Seq<char>) -> Option<int> {
    if exists|i: int| 0 <= i < all.len() && #[trigger] all[i].0@ == slug {
        Some(choose|i: int| 0 <= i < all.len() && #[trigger] all[i].0@ == slug && forall|j: int| 0 <= j < i ==> #[trigger] all[j].0@ != slug)
    } else {
        None
    }
}

pub open spec fn next_generation(g: u64) -> u64 {
    if g == u64::MAX {
        0
    } else {
        (g + 1) as u64
    }
}

/// The in-memory index of the content classes, and where their files lie.
pub struct LocalStorage {
    pub all_pages: Vec<(String, Vec<(String, PageMetadata)>)>,
    pub generation: u64,
    pub data_root: String,
    pub supported_lang: Vec<String>,
    pub default_sort: (Vec<String>, bool),
    pub template_root: String,
    pub include_assets: Vec<String>,
    /// Classes that refuse a request naming only unsupported languages;
    /// the others fall back to their default language.
    pub strict_lang: Vec<String>,
}

impl LocalStorage {
    /// Where the units of `slug` stand.
    pub fn class_index(&self, slug: &String) -> (r: Option<usize>)
        ensures
            r matches Some(i) ==> i < self.all_pages@.len() && class_of(self.all_pages@, slug@) == Some(i as int),
            r is None ==> class_of(self.all_pages@, slug@) is None,
    {
        let mut i: usize = 0;
        while i < self.all_pages.len()
            invariant
                0 <= i <= self.all_pages@.len(),
                forall|j: int| 0 <= j < i ==> #[trigger] self.all_pages@[j].0@ != slug@,
            decreases self.all_pages.len() - i,
        {
            if self.all_pages[i].0.eq(slug) {
                let ghost c = choose|k: int| 0 <= k < self.all_pages@.len() && #[trigger] self.all_pages@[k].0@ == slug@ && forall|j: int| 0 <= j < k ==> #[trigger] self.all_pages@[j].0@ != slug@;
                proof {
                    if c > i {
                        assert(self.all_pages@[i as int].0@ == slug@);
                    }
                }
                return Some(i);
            }
            i = i + 1;
        }
        None
    }

    /// Replaces the units of a class wholesale and starts a new generation.
    #[verifier::rlimit(50)]
    pub fn register_pages(&mut self, slug: String, pages: Vec<(String, PageMetadata)>)
        ensures
            final(self).generation == next_generation(old(self).generation),
            final(self).data_root == old(self).data_root,
            final(self).supported_lang == old(self).supported_lang,
            final(self).default_sort == old(self).default_sort,
            final(self).template_root == old(self).template_root,
            final(self).include_assets == old(self).include_assets,
            final(self).strict_lang == old(self).strict_lang,
            match class_of(old(self).all_pages@, slug@) {
                Some(i) => final(self).all_pages@ == old(self).all_pages@.update(i, (old(self).all_pages@[i].0, pages)),
                None => final(self).all_pages@ == old(self).all_pages@.push((slug, pages)),
            },
    {
        match self.class_index(&slug) {
            Some(i) => {
                let ghost before = self.all_pages@;
                let (name, _) = self.all_pages.remove(i);
                self.all_pages.insert(i, (name, pages));
                assert(self.all_pages@ =~= before.update(i as int, (before[i as int].0, pages)));
            },
            None => {
                self.all_pages.push((slug, pages));
            },
        }
        self.generation = if self.generation == u64::MAX { 0 } else { self.generation + 1 };
    }

    /// Whether content stamped with generation `stamp` may be out of date.
    pub fn has_changed(&self, stamp: u64) -> (r: bool)
        ensures
            r == (stamp != self.generation),
    {
        stamp != self.generation
    }

    /// The language a query is answered in.
    pub fn select_lang(&self, qry: &StorageQuery) -> (r: Result<Option<String>, LocalStorageError>)
        ensures
            match lang_choice(qry@.lang, strings_view(self.supported_lang@), strings_view(self.strict_lang@).contains(qry@.slug)) {
                Ok(Some(l)) => r matches Ok(Some(s)) && s@ == l,
                Ok(None) => r matches Ok(None),
                Err(_) => r matches Err(LocalStorageError::LangNotSupported),
            },
    {
        match &qry.lang_pref {
            None => Ok(None),
            Some(pref) => match select_lang_from(pref, &self.supported_lang) {
                Some(l) => Ok(Some(l)),
                None => {
                    if contains_str(&self.strict_lang, &qry.storage_slug) && pref.len() > 0 {
                        Err(LocalStorageError::LangNotSupported)
                    } else {
                        Ok(None)
                    }
                },
            },
        }
    }

    /// The path of a document of the query's class.
    pub fn get_content_path(&self, qry: &StorageQuery, name: &String, lang: &Option<String>, ext: &str) -> (r: String)
        ensures
            r@ == content_path(
                self.data_root@,
                qry@.slug,
                match lang {
                    Some(l) => Some(l@),
                    None => None,
                },
                name@,
                ext@,
            ),
    {
        let mut path = self.data_root.clone();
        path.append("/");
        path.append(qry.storage_slug.as_str());
        match lang {
            Some(l) => {
                path.append("/");
                path.append(l.as_str());
            },
            None => {},
        }
        path.append("/");
        path.append(name.as_str());
        path.append(".");
        path.append(ext);
        proof {
            reveal_strlit("/");
            reveal_strlit(".");
        }
        assert(path@ =~= content_path(
            self.data_root@,
            qry@.slug,
            match lang {
                Some(l) => Some(l@),
                None => None,
            },
            name@,
            ext@,
        ));
        path
    }

    /// A requested asset as it would lie under `root`, before normalisation.
    pub fn join_asset(root: &String, request: &String) -> (r: String)
        ensures
            r@ == asset_path(root@, request@),
    {
        let n = request.as_str().unicode_len();
        let mut i: usize = 0;
        assert(request@.subrange(0, n as int) =~= request@);
        while i < n && request.as_str().get_char(i) == '/'
            invariant
                n == request@.len(),
                0 <= i <= n,
                trim_slashes(request@) == trim_slashes(request@.subrange(i as int, n as int)),
            decreases n - i,
        {
            proof {
                assert(request@.subrange(i as int, n as int).subrange(1, n - i) =~= request@.subrange(i + 1, n as int));
            }
            i = i + 1;
        }
        let rest = request.as_str().substring_char(i, n);
        let mut path = root.clone();
        path.append("/");
        path.append(rest);
        proof {
            reveal_strlit("/");
            let t = request@.subrange(i as int, n as int);
            assert(t.len() == 0 || t[0] != '/');
        }
        assert(path@ =~= asset_path(root@, request@));
        path
    }

    /// Accepts a normalised asset path only at or under its include root.
    pub fn check_within_root(root: &String, path: &String) -> (r: Result<(), LocalStorageError>)
        ensures
            r is Ok <==> within(root@, path@),
            r is Err ==> r matches Err(LocalStorageError::AttackSuspected(_)),
    {
        if is_within(root, path) {
            Ok(())
        } else {
            Err(LocalStorageError::AttackSuspected("directory traversal".to_owned()))
        }
    }

    /// The files that may hold a requested asset, one per include root in
    /// order. A request that leaves any root is refused as an attack.
    pub fn static_candidates(&self, request: &String) -> (r: Result<Vec<String>, LocalStorageError>)
        ensures
            r is Ok <==> forall|i: int|
                0 <= i < self.include_assets@.len() ==> within(
                    #[trigger] self.include_assets@[i]@,
                    absolutized(asset_path(self.include_assets@[i]@, request@)),
                ),
            r is Err ==> r matches Err(LocalStorageError::AttackSuspected(_)),
            r matches Ok(c) ==> c@.len() == self.include_assets@.len() && forall|i: int|
                0 <= i < c@.len() ==> #[trigger] c@[i]@ == absolutized(asset_path(self.include_assets@[i]@, request@)),
    {
        let mut out: Vec<String> = Vec::new();
        let mut i: usize = 0;
        while i < self.include_assets.len()
            invariant
                0 <= i <= self.include_assets@.len(),
                out@.len() == i,
                forall|j: int|
                    0 <= j < i ==> #[trigger] out@[j]@ == absolutized(asset_path(self.include_assets@[j]@, request@))
                        && within(self.include_assets@[j]@, out@[j]@),
            decreases self.include_assets.len() - i,
        {
            let root = &self.include_assets[i];
            let joined = Self::join_asset(root, request);
            let abs = match absolutize(&joined) {
                Some(a) => a,
                None => String::new(),
            };
            match Self::check_within_root(root, &abs) {
                Ok(()) => {},
                Err(e) => {
                    assert(!within(
                        self.include_assets@[i as int]@,
                        absolutized(asset_path(self.include_assets@[i as int]@, request@)),
                    ));
                    return Err(e);
                },
            }
            out.push(abs);
            i = i + 1;
        }
        assert forall|k: int| 0 <= k < self.include_assets@.len() implies within(
            #[trigger] self.include_assets@[k]@,
            absolutized(asset_path(self.include_assets@[k]@, request@)),
        ) by {
            assert(out@[k]@ == absolutized(asset_path(self.include_assets@[k]@, request@)));
        }
        Ok(out)
    }

    /// The path of the only unit of a class with identity `id`.
    pub fn find_by_id(pages: &Vec<(String, PageMetadata)>, id: u64) -> (r: Result<String, LocalStorageError>)
        ensures
            count_id(pages@, id) == 0 ==> r matches Err(LocalStorageError::NoMatch(_)),
            count_id(pages@, id) > 1 ==> (r matches Err(LocalStorageError::TooManyMatches(n, m)) && n == count_id(pages@, id) - 1 && m == 1),
            count_id(pages@, id) == 1 ==> (r matches Ok(p) && exists|k: int| 0 <= k < pages@.len() && pages@[k].1.id == id && p@ == #[trigger] pages@[k].0@),
    {
        let mut count: usize = 0;
        let mut first: usize = 0;
        let mut k: usize = 0;
        while k < pages.len()
            invariant
                0 <= k <= pages@.len(),
                count == count_id(pages@.subrange(0, k as int), id),
                count <= k,
                count > 0 ==> first < k && pages@[first as int].1.id == id,
            decreases pages.len() - k,
        {
            proof {
                assert(pages@.subrange(0, k + 1).drop_last() =~= pages@.subrange(0, k as int));
            }
            if pages[k].1.id == id {
                if count == 0 {
                    first = k;
                }
                count = count + 1;
            }
            k = k + 1;
        }
        assert(pages@.subrange(0, pages.len() as int) =~= pages@);
        if count == 0 {
            Err(LocalStorageError::NoMatch("id".to_owned()))
        } else if count > 1 {
            Err(LocalStorageError::TooManyMatches(count - 1, 1))
        } else {
            let p = pages[first].0.clone();
            assert(p@ == pages@[first as int].0@ && pages@[first as int].1.id == id);
            Ok(p)
        }
    }

    /// The values at `query` of the units whose value at `keys` is `val`.
    pub fn collect_metadata(
        pages: &Vec<(String, PageMetadata)>,
        keys: &Vec<String>,
        val: &Option<MetaValue>,
        query: &Vec<String>,
    ) -> (r: Vec<MetaValue>)
        ensures
            view_items(r@) == meta_values(pages@, strings_view(keys@), opt_value_view(*val), strings_view(query@)),
    {
        let ghost ks = strings_view(keys@);
        let ghost qs = strings_view(query@);
        let ghost v = opt_value_view(*val);
        let mut out: Vec<MetaValue> = Vec::new();
        let mut k: usize = 0;
        while k < pages.len()
            invariant
                0 <= k <= pages@.len(),
                ks == strings_view(keys@),
                qs == strings_view(query@),
                v == opt_value_view(*val),
                view_items(out@) == meta_values(pages@.subrange(0, k as int), ks, v, qs),
            decreases pages.len() - k,
        {
            proof {
                assert(pages@.subrange(0, k + 1).drop_last() =~= pages@.subrange(0, k as int));
            }
            let unit = &pages[k].1;
            let matches = match (unit.get_metadata(keys), val) {
                (None, None) => true,
                (Some(a), Some(b)) => values_equal(a, b),
                _ => false,
            };
            if matches {
                match unit.get_metadata(query) {
                    Some(x) => {
                        let ghost prev = out@;
                        out.push(x.duplicate());
                        assert(out@.drop_last() =~= prev);
                    },
                    None => {},
                }
            }
            k = k + 1;
        }
        assert(pages@.subrange(0, pages.len() as int) =~= pages@);
        out
    }

    /// What `dispatch` answers for a query.
    pub open spec fn dispatch_post(&self, q: QueryView, r: Result<Resolution, LocalStorageError>) -> bool {
        let lang = lang_choice(q.lang, strings_view(self.supported_lang@), strings_view(self.strict_lang@).contains(q.slug));
        let cls = class_of(self.all_pages@, q.slug);
        let sk = match q.sort {
            Some(s) => s.0,
            None => strings_view(self.default_sort.0@),
        };
        let rev = match q.sort {
            Some(s) => s.1,
            None => self.default_sort.1,
        };
        match q.method {
            MethodView::NoOp => r matches Ok(Resolution::Ready(StorageData::Nothing)),
            MethodView::ContentFromName(n) => match lang {
                Err(_) => r matches Err(LocalStorageError::LangNotSupported),
                Ok(l) => (r matches Ok(Resolution::ReadContent { path, lang: rl }) && path@ == content_path(
                    self.data_root@,
                    q.slug,
                    l,
                    n,
                    "md"@,
                ) && opt_str(rl) == l),
            },
            MethodView::ContentSlug(n) => match lang {
                Err(_) => r matches Err(LocalStorageError::LangNotSupported),
                Ok(l) => (r matches Ok(Resolution::ReadContent { path, lang: rl }) && path@ == content_path(
                    self.data_root@,
                    q.slug,
                    l,
                    n,
                    "md"@,
                ) && opt_str(rl) == l),
            },
            MethodView::QueryContext(n) => match lang {
                Err(_) => r matches Err(LocalStorageError::LangNotSupported),
                Ok(l) => (r matches Ok(Resolution::ReadContext(path)) && path@ == content_path(
                    self.data_root@,
                    q.slug,
                    l,
                    n,
                    "toml"@,
                )),
            },
            MethodView::ContentNumId(id) => match lang {
                Err(_) => r matches Err(LocalStorageError::LangNotSupported),
                Ok(l) => match cls {
                    None => (r matches Ok(Resolution::IndexClass(s)) && s@ == q.slug),
                    Some(i) => {
                        let pages = self.all_pages@[i].1@;
                        &&& count_id(pages, id) == 0 ==> (r matches Err(LocalStorageError::NoMatch(_)))
                        &&& count_id(pages, id) > 1 ==> (r matches Err(
                            LocalStorageError::TooManyMatches(n, m),
                        ) && n == count_id(pages, id) - 1 && m == 1)
                        &&& count_id(pages, id) == 1 ==> (r matches Ok(
                            Resolution::ReadContent { path, lang: rl },
                        ) && opt_str(rl) == l && exists|k: int|
                            0 <= k < pages.len() && pages[k].1.id == id && path@
                                == #[trigger] pages[k].0@)
                    },
                },
            },
            MethodView::RecentPages => match cls {
                None => (r matches Ok(Resolution::IndexClass(s)) && s@ == q.slug),
                Some(i) => {
                    let pages = self.all_pages@[i].1@;
                    r matches Ok(Resolution::Ready(StorageData::RecentPages(v))) && listed(
                        v@,
                        pages,
                        shown(pages),
                        sk,
                        rev,
                        q.limit,
                    )
                },
            },
            MethodView::GetSimilarPages(keys, val) => match cls {
                None => (r matches Ok(Resolution::IndexClass(s)) && s@ == q.slug),
                Some(i) => {
                    let pages = self.all_pages@[i].1@;
                    r matches Ok(Resolution::Ready(StorageData::SimilarPages(v))) && listed(
                        v@,
                        pages,
                        similar(pages, keys, val),
                        sk,
                        rev,
                        q.limit,
                    )
                },
            },
            MethodView::QueryMetadata(keys, val, query) => match cls {
                None => (r matches Ok(Resolution::IndexClass(s)) && s@ == q.slug),
                Some(i) => {
                    let pages = self.all_pages@[i].1@;
                    r matches Ok(Resolution::Ready(StorageData::QueryMetadata(v))) && view_items(v@)
                        == meta_values(pages, keys, val, query)
                },
            },
            MethodView::QueryTemplates => (r matches Ok(Resolution::ReadTemplates(t)) && t@
                == self.template_root@),
            MethodView::StaticFile(f) => {
                let all_within = forall|i: int|
                    0 <= i < self.include_assets@.len() ==> within(
                        #[trigger] self.include_assets@[i]@,
                        absolutized(asset_path(self.include_assets@[i]@, f)),
                    );
                if all_within {
                    r matches Ok(Resolution::ReadStatic(c)) && c@.len() == self.include_assets@.len()
                        && forall|i: int|
                        0 <= i < c@.len() ==> #[trigger] c@[i]@ == absolutized(
                            asset_path(self.include_assets@[i]@, f),
                        )
                } else {
                    r matches Err(LocalStorageError::AttackSuspected(_))
                }
            },
        }
    }

    /// Resolves a query against the index: at once where the index holds
    /// the answer, otherwise by naming what must be read first.
    pub fn dispatch(&self, qry: &StorageQuery) -> (r: Result<Resolution, LocalStorageError>)
        ensures
            self.dispatch_post(qry@, r),
    {
        let sort_keys: &Vec<String> = match &qry.sort_by {
            Some(s) => &s.0,
            None => &self.default_sort.0,
        };
        let rev: bool = match &qry.sort_by {
            Some(s) => s.1,
            None => self.default_sort.1,
        };
        match &qry.method {
            StorageQueryMethod::NoOp => Ok(Resolution::Ready(StorageData::Nothing)),
            StorageQueryMethod::ContentFromName(name) => match self.select_lang(qry) {
                Err(e) => Err(e),
                Ok(lang) => {
                    let path = self.get_content_path(qry, name, &lang, "md");
                    Ok(Resolution::ReadContent { path, lang })
                },
            },
            StorageQueryMethod::ContentSlug(name) => match self.select_lang(qry) {
                Err(e) => Err(e),
                Ok(lang) => {
                    let path = self.get_content_path(qry, name, &lang, "md");
                    Ok(Resolution::ReadContent { path, lang })
                },
            },
            StorageQueryMethod::QueryContext(name) => match self.select_lang(qry) {
                Err(e) => Err(e),
                Ok(lang) => {
                    let path = self.get_content_path(qry, name, &lang, "toml");
                    Ok(Resolution::ReadContext(path))
                },
            },
            StorageQueryMethod::ContentNumId(id) => match self.select_lang(qry) {
                Err(e) => Err(e),
                Ok(lang) => match self.class_index(&qry.storage_slug) {
                    None => Ok(Resolution::IndexClass(qry.storage_slug.clone())),
                    Some(i) => match Self::find_by_id(&self.all_pages[i].1, *id) {
                        Err(e) => Err(e),
                        Ok(path) => Ok(Resolution::ReadContent { path, lang }),
                    },
                },
            },
            StorageQueryMethod::RecentPages => match self.class_index(&qry.storage_slug) {
                None => Ok(Resolution::IndexClass(qry.storage_slug.clone())),
                Some(i) => {
                    let pages = &self.all_pages[i].1;
                    let mask = shown_mask(pages);
                    assert(mask@ =~= shown(pages@));
                    let v = list_pages(pages, &mask, sort_keys, rev, qry.limit);
                    Ok(Resolution::Ready(StorageData::RecentPages(v)))
                },
            },
            StorageQueryMethod::GetSimilarPages(f) => match self.class_index(&qry.storage_slug) {
                None => Ok(Resolution::IndexClass(qry.storage_slug.clone())),
                Some(i) => {
                    let pages = &self.all_pages[i].1;
                    let mask = similar_mask(pages, &f.0, &f.1);
                    assert(mask@ =~= similar(pages@, strings_view(f.0@), opt_value_view(f.1)));
                    let v = list_pages(pages, &mask, sort_keys, rev, qry.limit);
                    Ok(Resolution::Ready(StorageData::SimilarPages(v)))
                },
            },
            StorageQueryMethod::QueryMetadata(f, query) => match self.class_index(&qry.storage_slug) {
                None => Ok(Resolution::IndexClass(qry.storage_slug.clone())),
                Some(i) => {
                    let v = Self::collect_metadata(&self.all_pages[i].1, &f.0, &f.1, query);
                    Ok(Resolution::Ready(StorageData::QueryMetadata(v)))
                },
            },
            StorageQueryMethod::QueryTemplates => Ok(Resolution::ReadTemplates(self.template_root.clone())),
            StorageQueryMethod::StaticFile(f) => match self.static_candidates(f) {
                Ok(c) => Ok(Resolution::ReadStatic(c)),
                Err(e) => Err(e),
            },
        }
    }
}

pub open spec fn opt_str(o: Option<String>) -> Option<Seq<char>> {
    match o {
        Some(s) => Some(s@),
        None => None,
    }
}

/// Why an answer was not of the kind asked for.
#[derive(Debug)]
pub enum DataError {
    /// The query failed.
    Storage(LocalStorageError),
    /// The answer is of another kind.
    WrongStorageData,
}

impl StorageData {
    /// The answer, if it is of this kind.
    pub fn query_metadata(self) -> (r: Result<Vec<MetaValue>, DataError>)
        ensures
            match self {
                StorageData::QueryMetadata(v) => r == Ok::<Vec<MetaValue>, DataError>(v),
                StorageData::Error(e) => r matches Err(DataError::Storage(f)) && f == e,
                _ => r matches Err(DataError::WrongStorageData),
            },
    {
        match self {
            StorageData::QueryMetadata(v) => Ok(v),
            StorageData::Error(e) => Err(DataError::Storage(e)),
            _ => Err(DataError::WrongStorageData),
        }
    }

    /// The answer, if it is of this kind.
    pub fn similar_pages(self) -> (r: Result<Vec<PageMetadata>, DataError>)
        ensures
            match self {
                StorageData::SimilarPages(v) => r == Ok::<Vec<PageMetadata>, DataError>(v),
                StorageData::Error(e) => r matches Err(DataError::Storage(f)) && f == e,
                _ => r matches Err(DataError::WrongStorageData),
            },
    {
        match self {
            StorageData::SimilarPages(v) => Ok(v),
            StorageData::Error(e) => Err(DataError::Storage(e)),
            _ => Err(DataError::WrongStorageData),
        }
    }

    /// The answer, if it is of this kind.
    pub fn recent_pages(self) -> (r: Result<Vec<PageMetadata>, DataError>)
        ensures
            match self {
                StorageData::RecentPages(v) => r == Ok::<Vec<PageMetadata>, DataError>(v),
                StorageData::Error(e) => r matches Err(DataError::Storage(f)) && f == e,
                _ => r matches Err(DataError::WrongStorageData),
            },
    {
        match self {
            StorageData::RecentPages(v) => Ok(v),
            StorageData::Error(e) => Err(DataError::Storage(e)),
            _ => Err(DataError::WrongStorageData),
        }
    }

    /// The answer, if it is of this kind.
    pub fn base_templates(self) -> (r: Result<Vec<(String, String)>, DataError>)
        ensures
            match self {
                StorageData::Templates(v) => r == Ok::<Vec<(String, String)>, DataError>(v),
                StorageData::Error(e) => r matches Err(DataError::Storage(f)) && f == e,
                _ => r matches Err(DataError::WrongStorageData),
            },
    {
        match self {
            StorageData::Templates(v) => Ok(v),
            StorageData::Error(e) => Err(DataError::Storage(e)),
            _ => Err(DataError::WrongStorageData),
        }
    }

    /// The answer, if it is of this kind.
    pub fn static_file(self) -> (r: Result<Vec<u8>, DataError>)
        ensures
            match self {
                StorageData::StaticFileData(v) => r == Ok::<Vec<u8>, DataError>(v),
                StorageData::Error(e) => r matches Err(DataError::Storage(f)) && f == e,
                _ => r matches Err(DataError::WrongStorageData),
            },
    {
        match self {
            StorageData::StaticFileData(v) => Ok(v),
            StorageData::Error(e) => Err(DataError::Storage(e)),
            _ => Err(DataError::WrongStorageData),
        }
    }

    /// The answer, if it is of this kind.
    pub fn context(self) -> (r: Result<MetaValue, DataError>)
        ensures
            match self {
                StorageData::Context(v) => r == Ok::<MetaValue, DataError>(v),
                StorageData::Error(e) => r matches Err(DataError::Storage(f)) && f == e,
                _ => r matches Err(DataError::WrongStorageData),
            },
    {
        match self {
            StorageData::Context(v) => Ok(v),
            StorageData::Error(e) => Err(DataError::Storage(e)),
            _ => Err(DataError::WrongStorageData),
        }
    }

    /// The language, front matter and body, if the answer is a content unit.
    pub fn page_content(self) -> (r: Result<(Option<String>, PageMetadata, String), DataError>)
        ensures
            match self {
                StorageData::PageContent { metadata, body, lang } => r == Ok::<(Option<String>, PageMetadata, String), DataError>((lang, metadata, body)),
                StorageData::Error(e) => r matches Err(DataError::Storage(f)) && f == e,
                _ => r matches Err(DataError::WrongStorageData),
            },
    {
        match self {
            StorageData::PageContent { metadata, body, lang } => Ok((lang, metadata, body)),
            StorageData::Error(e) => Err(DataError::Storage(e)),
            _ => Err(DataError::WrongStorageData),
        }
    }
}

/// A listing without a limit holds every admitted unit.
pub proof fn lemma_listed_all(
    r: Seq<PageMetadata>,
    pages: Seq<(String, PageMetadata)>,
    admitted: Seq<bool>,
    keys: Seq<Seq<char>>,
    rev: bool,
    k: int,
)
    requires
        listed(r, pages, admitted, keys, rev, 0),
        0 <= k < pages.len(),
        pages.len() <= usize::MAX,
        admitted[k],
    ensures
        exists|j: int| 0 <= j < r.len() && #[trigger] r[j]@ == pages[k].1@,
{
    let idx = choose|idx: Seq<usize>|
        is_listing(pages, admitted, keys, rev, idx) && r.len() == cut(idx.len() as int, 0) && forall|j: int|
            0 <= j < r.len() ==> #[trigger] r[j]@ == pages[idx[j] as int].1@;
    assert(idx.contains(k as usize));
    let j = choose|j: int| 0 <= j < idx.len() && idx[j] == k as usize;
    assert(r.len() == idx.len());
    assert(idx[j] as int == k);
    assert(r[j]@ == pages[idx[j] as int].1@);
}

/// A similar-pages query without a limit, on a scalar value, lists every
/// shown unit of the class whose value at the keys is an array holding that
/// value.
pub proof fn lemma_similar_pages_hold_array_members(
    st: LocalStorage,
    q: QueryView,
    r: Result<Resolution, LocalStorageError>,
    keys: Seq<Seq<char>>,
    v: Json,
    i: int,
    k: int,
    xs: Seq<Json>,
)
    requires
        st.dispatch_post(q, r),
        q.method == MethodView::GetSimilarPages(keys, Some(v)),
        q.limit == 0,
        !(v is Array),
        class_of(st.all_pages@, q.slug) == Some(i),
        0 <= k < st.all_pages@[i].1@.len(),
        !st.all_pages@[i].1@[k].1.hidden,
        path_get(st.all_pages@[i].1@[k].1@.metadata, keys) == Some(Json::Array(xs)),
        xs.contains(v),
    ensures
        r matches Ok(Resolution::Ready(StorageData::SimilarPages(ms))) && exists|j: int|
            0 <= j < ms@.len() && #[trigger] ms@[j]@ == st.all_pages@[i].1@[k].1@,
{
    let pages = st.all_pages@[i].1@;
    assert(similar_match(pages[k].1@, keys, Some(v)));
    let adm = similar(pages, keys, Some(v));
    assert(adm[k]);
    if let Ok(Resolution::Ready(StorageData::SimilarPages(ms))) = r {
        let sk = match q.sort {
            Some(s) => s.0,
            None => strings_view(st.default_sort.0@),
        };
        let rev = match q.sort {
            Some(s) => s.1,
            None => st.default_sort.1,
        };
        assert(pages.len() <= usize::MAX) by {
            vstd::std_specs::vec::axiom_spec_len(&st.all_pages@[i].1);
        }
        lemma_listed_all(ms@, pages, adm, sk, rev, k);
    }
}

} // verus!
