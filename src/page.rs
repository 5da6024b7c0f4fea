//! Content units: front matter split from the body, identity, and ordering.
use vstd::prelude::*;
use core::cmp::Ordering;
use crate::context::ContextQuery;
use crate::encode::{digest, digest_of, push_str, strings_view};
use crate::value::{
    cmp_opt, compare_opt, flip, get_path, members_bytes, opt_view, path_get, push_value,
    view_members, lemma_view_members, keys_increase, values_wf, Json, MetaValue,
};

verus! {

/// Why a content request failed.
#[derive(Clone, Debug)]
pub enum LocalStorageError {
    LoadContent(String),
    LoadStaticFile(String),
    LoadContext(String),
    DataNotFound(String),
    TemplateLoading(String),
    NoMatch(String),
    TooManyMatches(usize, usize),
    TomlDecode(String),
    NoMetadataSplit,
    BadRequest(String),
    InitPaths(String),
    NotDataDir(String),
    ListFiles(String),
    CssNotFound(String),
    LangNotSupported,
    AttackSuspected(String),
}

/// A content unit's front matter.
#[derive(Debug)]
pub struct PageMetadata {
    pub id: u64,
    pub hidden: bool,
    pub metadata: Vec<(String, MetaValue)>,
    /// Named sub-queries that fill the page's template context.
    pub add_context: Vec<(String, ContextQuery)>,
    pub template: Option<String>,
}

pub struct PageView {
    pub id: u64,
    pub hidden: bool,
    pub metadata: Seq<(Seq<char>, Json)>,
    pub template: Option<Seq<char>>,
}

impl View for PageMetadata {
    type V = PageView;

    open spec fn view(&self) -> PageView {
        PageView {
            id: self.id,
            hidden: self.hidden,
            metadata: view_members(self.metadata@),
            template: match self.template {
                None => None,
                Some(t) => Some(t@),
            },
        }
    }
}

/// The bytes an identity is derived from: the hidden flag, then each
/// metadata key with its value, in key order. The body and the file's path
/// play no part.
pub open spec fn id_bytes(hidden: bool, metadata: Seq<(Seq<char>, Json)>) -> Seq<u8> {
    seq![if hidden { 1u8 } else { 0u8 }] + members_bytes(metadata)
}

/// The identity derived for a unit with no explicit one.
pub open spec fn derived_id(p: PageView) -> u64 {
    digest_of(id_bytes(p.hidden, p.metadata))
}

/// The marker between front matter and body.
pub open spec fn marker_at(s: Seq<char>, i: int) -> bool {
    0 <= i && i + 3 <= s.len() && s[i] == '-' && s[i + 1] == '-' && s[i + 2] == '-'
}

/// Splits a content file at the first `---`: the front matter before it,
/// the body after it.
pub fn split_front_matter(content: &str) -> (r: Result<(String, String), LocalStorageError>)
    ensures
        match r {
            Ok((front, body)) => exists|i: int|
                marker_at(content@, i) && (forall|j: int| 0 <= j < i ==> !#[trigger] marker_at(content@, j))
                    && front@ == content@.subrange(0, i) && body@ == content@.subrange(i + 3, content@.len() as int),
            Err(e) => e is NoMetadataSplit && forall|j: int| !#[trigger] marker_at(content@, j),
        },
{
    let n = content.unicode_len();
    let mut i: usize = 0;
    while i < n && n - i >= 3
        invariant
            n == content@.len(),
            i <= n,
            forall|j: int| 0 <= j < i ==> !#[trigger] marker_at(content@, j),
        decreases n - i,
    {
        if content.get_char(i) == '-' && content.get_char(i + 1) == '-' && content.get_char(i + 2) == '-' {
            let front = content.substring_char(0, i).to_owned();
            let body = content.substring_char(i + 3, n).to_owned();
            assert(marker_at(content@, i as int));
            return Ok((front, body));
        }
        i = i + 1;
    }
    assert forall|j: int| !#[trigger] marker_at(content@, j) by {
        if 0 <= j < i {
        } else if j >= i {
            assert(j + 3 > n);
        }
    }
    Err(LocalStorageError::NoMetadataSplit)
}

impl PageMetadata {
    /// Metadata keys are kept in increasing order and every value is well
    /// formed, so one mapping has one representation.
    pub open spec fn wf(&self) -> bool {
        keys_increase(self@.metadata) && values_wf(self@.metadata)
    }

    /// A copy of the unit's front matter.
    pub fn duplicate(&self) -> (r: PageMetadata)
        ensures
            r@ == self@,
    {
        let mut md: Vec<(String, MetaValue)> = Vec::new();
        let mut i: usize = 0;
        while i < self.metadata.len()
            invariant
                0 <= i <= self.metadata@.len(),
                view_members(md@) == view_members(self.metadata@.subrange(0, i as int)),
            decreases self.metadata.len() - i,
        {
            let k = self.metadata[i].0.clone();
            let v = self.metadata[i].1.duplicate();
            let ghost prev = md@;
            md.push((k, v));
            proof {
                assert(md@.drop_last() =~= prev);
                assert(self.metadata@.subrange(0, i + 1).drop_last() =~= self.metadata@.subrange(0, i as int));
            }
            i = i + 1;
        }
        assert(self.metadata@.subrange(0, self.metadata@.len() as int) =~= self.metadata@);
        let template = match &self.template {
            None => None,
            Some(t) => Some(t.clone()),
        };
        let mut add_context: Vec<(String, ContextQuery)> = Vec::new();
        let mut j: usize = 0;
        while j < self.add_context.len()
            decreases self.add_context.len() - j,
        {
            add_context.push((self.add_context[j].0.clone(), self.add_context[j].1.duplicate()));
            j = j + 1;
        }
        PageMetadata { id: self.id, hidden: self.hidden, metadata: md, add_context, template }
    }

    /// The metadata value at a path of keys.
    pub fn get_metadata(&self, keys: &Vec<String>) -> (r: Option<&MetaValue>)
        ensures
            opt_view(r) == path_get(self@.metadata, strings_view(keys@)),
    {
        get_path(&self.metadata, keys)
    }

    /// Orders two units by the value at a path of keys, greatest first; a
    /// unit without a value there comes last.
    pub fn compare_md(&self, keys: &Vec<String>, other: &Self) -> (r: Ordering)
        ensures
            r == flip(
                cmp_opt(
                    path_get(self@.metadata, strings_view(keys@)),
                    path_get(other@.metadata, strings_view(keys@)),
                ),
            ),
    {
        let a = self.get_metadata(keys);
        let b = other.get_metadata(keys);
        match compare_opt(a, b) {
            Ordering::Less => Ordering::Greater,
            Ordering::Equal => Ordering::Equal,
            Ordering::Greater => Ordering::Less,
        }
    }

    /// Derives the unit's identity from its hidden flag and metadata.
    pub fn update_id(&mut self)
        requires
            old(self).wf(),
        ensures
            final(self)@ == (PageView { id: derived_id(old(self)@), ..old(self)@ }),
    {
        let mut out: Vec<u8> = Vec::new();
        out.push(if self.hidden { 1u8 } else { 0u8 });
        let ghost start = out@;
        let ghost ms = view_members(self.metadata@);
        proof {
            lemma_view_members(self.metadata@);
        }
        let mut i: usize = 0;
        while i < self.metadata.len()
            invariant
                0 <= i <= self.metadata@.len(),
                ms == view_members(self.metadata@),
                ms.len() == self.metadata@.len(),
                forall|k: int| 0 <= k < self.metadata@.len() ==> #[trigger] ms[k] == (self.metadata@[k].0@, self.metadata@[k].1@),
                values_wf(ms),
                out@ == start + members_bytes(ms.subrange(0, i as int)),
            decreases self.metadata.len() - i,
        {
            push_str(&mut out, &self.metadata[i].0);
            assert(ms[i as int].1 == self.metadata@[i as int].1@);
            push_value(&mut out, &self.metadata[i].1);
            proof {
                assert(ms.subrange(0, i + 1).drop_last() =~= ms.subrange(0, i as int));
                assert(out@ =~= start + members_bytes(ms.subrange(0, i + 1)));
            }
            i = i + 1;
        }
        assert(ms.subrange(0, self.metadata@.len() as int) =~= ms);
        assert(out@ =~= id_bytes(self.hidden, ms));
        self.id = digest(&out);
    }

    /// Gives a unit loaded without an explicit identity (zero) its derived one.
    pub fn ensure_id(&mut self)
        requires
            old(self).wf(),
        ensures
            old(self).id == 0 ==> final(self)@ == (PageView { id: derived_id(old(self)@), ..old(self)@ }),
            old(self).id != 0 ==> final(self)@ == old(self)@,
    {
        if self.id == 0 {
            self.update_id();
        }
    }
}

/// Units with the same hidden flag and the same metadata members get the
/// same derived identity, whatever order the members were gathered in and
/// whatever file they came from: members are hashed in ascending key order.
pub proof fn lemma_derived_id_member_order(a: PageMetadata, b: PageMetadata)
    requires
        a.wf(),
        b.wf(),
        a.hidden == b.hidden,
        forall|x: (Seq<char>, Json)| a@.metadata.contains(x) <==> b@.metadata.contains(x),
    ensures
        derived_id(a@) == derived_id(b@),
{
    crate::value::lemma_members_canonical(a@.metadata, b@.metadata);
}

} // verus!
