//! Configuration records read at startup.
use vstd::prelude::*;
use vstd::string::StringExecFns;

verus! {

/// A path joined to a base directory; an absolute path stands alone.
pub open spec fn join_path(base: Seq<char>, rel: Seq<char>) -> Seq<char> {
    if rel.len() > 0 && rel[0] == '/' {
        rel
    } else if base.len() == 0 || base.last() == '/' {
        base + rel
    } else {
        base + seq!['/'] + rel
    }
}

/// Joins a path to a base directory.
pub fn join(base: &String, rel: &String) -> (r: String)
    ensures
        r@ == join_path(base@, rel@),
{
    let n = base.as_str().unicode_len();
    let m = rel.as_str().unicode_len();
    if m > 0 && rel.as_str().get_char(0) == '/' {
        return rel.clone();
    }
    let mut out = base.clone();
    if !(n == 0 || base.as_str().get_char(n - 1) == '/') {
        out.append("/");
        proof {
            reveal_strlit("/");
        }
    }
    out.append(rel.as_str());
    out
}

/// Where posts and their registry lie.
pub struct LocalStorageConfig {
    pub posts_dir: String,
    pub post_registry: String,
}

impl LocalStorageConfig {
    /// The locations under a root directory.
    pub fn init(root: &String, posts_dir: &String, posts_registry: &String) -> (r: LocalStorageConfig)
        ensures
            r.posts_dir@ == join_path(root@, posts_dir@),
            r.post_registry@ == join_path(root@, posts_registry@),
    {
        LocalStorageConfig { post_registry: join(root, posts_registry), posts_dir: join(root, posts_dir) }
    }
}

/// How the address of a content unit is built.
pub enum UrlBuildMethod {
    ContentId,
    /// From the metadata value under this key.
    FromMetadata(String),
}

pub struct WebringConfig {
    pub name: String,
    pub next: String,
    pub previous: String,
}

pub struct GithookConfig {
    pub zipfile_fetch_url: String,
}

pub struct WebhookConfig {
    pub zipfile_fetch_url: String,
}

pub struct UploadEndpoint {
    pub route: String,
}

/// Why a stylesheet could not be produced.
pub enum ScssError {
    SourceNotFound(String),
    GrassError(String),
    WriteCss(String),
    MinificationError(String),
}

/// An endpoint path made into a name: each `/` becomes `_`.
pub open spec fn slug_of(path: Seq<char>) -> Seq<char> {
    path.map_values(|c: char| if c == '/' { '_' } else { c })
}

/// The name of an endpoint path.
pub fn slug_from_path(path: String) -> (r: String)
    ensures
        r@ == slug_of(path@),
{
    let n = path.as_str().unicode_len();
    let mut out = String::new();
    let mut i: usize = 0;
    while i < n
        invariant
            n == path@.len(),
            0 <= i <= n,
            out@ == slug_of(path@.subrange(0, i as int)),
        decreases n - i,
    {
        let c = path.as_str().get_char(i);
        if c == '/' {
            out.append("_");
        } else {
            out.append(path.as_str().substring_char(i, i + 1));
        }
        proof {
            reveal_strlit("_");
            assert(out@ =~= slug_of(path@.subrange(0, i + 1)));
        }
        i = i + 1;
    }
    assert(path@.subrange(0, n as int) =~= path@);
    out
}

/// The longest common prefix of two paths, character by character.
pub open spec fn common_prefix_len(a: Seq<char>, b: Seq<char>, n: int) -> bool {
    &&& 0 <= n <= a.len()
    &&& n <= b.len()
    &&& a.subrange(0, n) == b.subrange(0, n)
    &&& (n == a.len() || n == b.len() || a[n] != b[n])
}

/// The directory two archive paths share.
pub fn get_basedir(acc: &String, x: &str) -> (r: String)
    ensures
        exists|n: int| common_prefix_len(acc@, x@, n) && r@ == acc@.subrange(0, n),
{
    let n = acc.as_str().unicode_len();
    let m = x.unicode_len();
    let mut i: usize = 0;
    while i < n && i < m && acc.as_str().get_char(i) == x.get_char(i)
        invariant
            n == acc@.len(),
            m == x@.len(),
            i <= n,
            i <= m,
            acc@.subrange(0, i as int) =~= x@.subrange(0, i as int),
        decreases n - i,
    {
        proof {
            assert(acc@.subrange(0, i + 1) =~= x@.subrange(0, i + 1));
        }
        i = i + 1;
    }
    let r = acc.as_str().substring_char(0, i).to_owned();
    assert(common_prefix_len(acc@, x@, i as int));
    r
}

} // verus!
