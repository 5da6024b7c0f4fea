//! Building a content query from a route's parameters.
use vstd::prelude::*;
use crate::query::{MethodView, StorageQuery, StorageQueryMethod};

verus! {

/// How a route finds its content.
pub enum ContentQueryMethod {
    /// No content, only context.
    EmptyContent,
    /// The content whose slug is the named route parameter.
    ContentSlug(String),
    /// The content whose numeric identity is the named route parameter.
    ContentId(String),
    /// The content with a fixed name.
    FromName(String),
}

/// Why a route's query could not be built.
pub enum RouteError {
    ParameterNotInUrl,
    ContentIdParsing,
}

pub open spec fn digit_value(c: char) -> int {
    c as int - '0' as int
}

pub open spec fn is_digit(c: char) -> bool {
    '0' <= c && c <= '9'
}

/// The number written by a sequence of decimal digits.
pub open spec fn decimal_value(s: Seq<char>) -> int
    decreases s.len(),
{
    if s.len() == 0 {
        0
    } else {
        decimal_value(s.drop_last()) * 10 + digit_value(s.last())
    }
}

/// The digits of an unsigned decimal number, after an optional `+`.
pub open spec fn digits_of(s: Seq<char>) -> Seq<char> {
    if s.len() > 0 && s[0] == '+' {
        s.subrange(1, s.len() as int)
    } else {
        s
    }
}

/// The value of an unsigned decimal number that fits 64 bits.
pub open spec fn parsed_u64(s: Seq<char>) -> Option<u64> {
    let d = digits_of(s);
    if d.len() > 0 && (forall|i: int| 0 <= i < d.len() ==> is_digit(#[trigger] d[i]))
        && decimal_value(d) <= u64::MAX {
        Some(decimal_value(d) as u64)
    } else {
        None
    }
}

proof fn lemma_decimal_nonneg(s: Seq<char>)
    requires
        forall|i: int| 0 <= i < s.len() ==> is_digit(#[trigger] s[i]),
    ensures
        decimal_value(s) >= 0,
    decreases s.len(),
{
    if s.len() > 0 {
        lemma_decimal_nonneg(s.drop_last());
    }
}

proof fn lemma_decimal_prefix_le(s: Seq<char>, j: int)
    requires
        0 <= j <= s.len(),
        forall|i: int| 0 <= i < s.len() ==> is_digit(#[trigger] s[i]),
    ensures
        decimal_value(s.subrange(0, j)) <= decimal_value(s),
    decreases s.len(),
{
    if j < s.len() {
        lemma_decimal_prefix_le(s.drop_last(), j);
        assert(s.drop_last().subrange(0, j) =~= s.subrange(0, j));
        lemma_decimal_nonneg(s.drop_last());
    } else {
        assert(s.subrange(0, j) =~= s);
    }
}

/// Reads an unsigned decimal number, as `str::parse::<u64>` does.
pub fn parse_u64(s: &String) -> (r: Option<u64>)
    ensures
        r == parsed_u64(s@),
{
    let n = s.as_str().unicode_len();
    let start: usize = if n > 0 && s.as_str().get_char(0) == '+' { 1 } else { 0 };
    let ghost d = digits_of(s@);
    assert(d =~= s@.subrange(start as int, n as int));
    if start == n {
        return None;
    }
    let mut acc: u64 = 0;
    let mut i: usize = start;
    while i < n
        invariant
            n == s@.len(),
            start <= i <= n,
            d == s@.subrange(start as int, n as int),
            d == digits_of(s@),
            forall|k: int| 0 <= k < i - start ==> is_digit(#[trigger] d[k]),
            acc as int == decimal_value(d.subrange(0, i - start)),
        decreases n - i,
    {
        let c = s.as_str().get_char(i);
        assert(d[i - start] == c);
        if !('0' <= c && c <= '9') {
            assert(!is_digit(d[i - start]));
            assert(!(forall|k: int| 0 <= k < d.len() ==> is_digit(#[trigger] d[k])));
            return None;
        }
        let v = (c as u32 - '0' as u32) as u64;
        proof {
            let t = d.subrange(0, i + 1 - start);
            assert(t.drop_last() =~= d.subrange(0, i - start));
            assert(t.last() == c);
            assert(decimal_value(t) == acc * 10 + v);
        }
        if acc > (u64::MAX - v) / 10 {
            proof {
                assert(acc * 10 + v > u64::MAX) by (nonlinear_arith)
                    requires
                        acc > (u64::MAX - v) / 10,
                        v <= 9,
                ;
                if forall|k: int| 0 <= k < d.len() ==> is_digit(#[trigger] d[k]) {
                    lemma_decimal_prefix_le(d, i + 1 - start);
                    assert(decimal_value(d) > u64::MAX);
                }
            }
            return None;
        }
        assert(acc * 10 + v <= u64::MAX) by (nonlinear_arith)
            requires
                acc <= (u64::MAX - v) / 10,
                v <= 9,
        ;
        acc = acc * 10 + v;
        i = i + 1;
    }
    assert(d.subrange(0, n - start) =~= d);
    Some(acc)
}

/// The parameters matched in a request's route, by name.
pub struct RequestArgs {
    pub match_infos: Vec<(String, String)>,
}

impl RequestArgs {
    /// The value of the named route parameter.
    pub fn get_query_slug(&self, name: &String) -> (r: Result<String, RouteError>)
        ensures
            match r {
                Ok(v) => exists|i: int| 0 <= i < self.match_infos@.len() && #[trigger] self.match_infos@[i].0@ == name@ && v@ == self.match_infos@[i].1@
                    && forall|j: int| 0 <= j < i ==> #[trigger] self.match_infos@[j].0@ != name@,
                Err(e) => e is ParameterNotInUrl && forall|i: int| 0 <= i < self.match_infos@.len() ==> #[trigger] self.match_infos@[i].0@ != name@,
            },
    {
        let mut i: usize = 0;
        while i < self.match_infos.len()
            invariant
                0 <= i <= self.match_infos@.len(),
                forall|j: int| 0 <= j < i ==> #[trigger] self.match_infos@[j].0@ != name@,
            decreases self.match_infos.len() - i,
        {
            if self.match_infos[i].0.eq(name) {
                return Ok(self.match_infos[i].1.clone());
            }
            i = i + 1;
        }
        Err(RouteError::ParameterNotInUrl)
    }

    /// The numeric identity in the named route parameter.
    pub fn get_query_id(&self, name: &String) -> (r: Result<u64, RouteError>)
        ensures
            match r {
                Ok(id) => exists|i: int| 0 <= i < self.match_infos@.len() && #[trigger] self.match_infos@[i].0@ == name@ && parsed_u64(self.match_infos@[i].1@) == Some(id)
                    && forall|j: int| 0 <= j < i ==> #[trigger] self.match_infos@[j].0@ != name@,
                Err(RouteError::ParameterNotInUrl) => forall|i: int| 0 <= i < self.match_infos@.len() ==> #[trigger] self.match_infos@[i].0@ != name@,
                Err(RouteError::ContentIdParsing) => exists|i: int| 0 <= i < self.match_infos@.len() && #[trigger] self.match_infos@[i].0@ == name@ && parsed_u64(self.match_infos@[i].1@) is None
                    && forall|j: int| 0 <= j < i ==> #[trigger] self.match_infos@[j].0@ != name@,
            },
    {
        match self.get_query_slug(name) {
            Err(e) => Err(e),
            Ok(v) => match parse_u64(&v) {
                Some(id) => Ok(id),
                None => Err(RouteError::ContentIdParsing),
            },
        }
    }
}

impl ContentQueryMethod {
    /// The query a route makes on a class, given the route's parameters.
    pub fn build_query(&self, storage: &String, args: &RequestArgs) -> (r: Result<StorageQuery, RouteError>)
        ensures
            r matches Ok(q) ==> q.wf() && q@.slug == storage@ && q@.limit == 0 && q@.lang is None && q@.sort is None,
            match self {
                ContentQueryMethod::EmptyContent => r matches Ok(q) && q@.method == MethodView::NoOp,
                ContentQueryMethod::FromName(n) => r matches Ok(q) && q@.method == MethodView::ContentFromName(n@),
                ContentQueryMethod::ContentSlug(p) => match r {
                    Ok(q) => exists|i: int| 0 <= i < args.match_infos@.len() && #[trigger] args.match_infos@[i].0@ == p@
                        && q@.method == MethodView::ContentSlug(args.match_infos@[i].1@),
                    Err(e) => e is ParameterNotInUrl && forall|i: int| 0 <= i < args.match_infos@.len() ==> #[trigger] args.match_infos@[i].0@ != p@,
                },
                ContentQueryMethod::ContentId(p) => match r {
                    Ok(q) => exists|i: int| 0 <= i < args.match_infos@.len() && #[trigger] args.match_infos@[i].0@ == p@
                        && (q@.method matches MethodView::ContentNumId(id) && parsed_u64(args.match_infos@[i].1@) == Some(id)),
                    Err(RouteError::ParameterNotInUrl) => forall|i: int| 0 <= i < args.match_infos@.len() ==> #[trigger] args.match_infos@[i].0@ != p@,
                    Err(RouteError::ContentIdParsing) => exists|i: int| 0 <= i < args.match_infos@.len() && #[trigger] args.match_infos@[i].0@ == p@
                        && parsed_u64(args.match_infos@[i].1@) is None,
                },
            },
    {
        let method = match self {
            ContentQueryMethod::EmptyContent => StorageQueryMethod::NoOp,
            ContentQueryMethod::ContentSlug(p) => match args.get_query_slug(p) {
                Ok(v) => StorageQueryMethod::ContentSlug(v),
                Err(e) => {
                    return Err(e);
                },
            },
            ContentQueryMethod::ContentId(p) => match args.get_query_id(p) {
                Ok(id) => StorageQueryMethod::ContentNumId(id),
                Err(e) => {
                    return Err(e);
                },
            },
            ContentQueryMethod::FromName(n) => StorageQueryMethod::ContentFromName(n.clone()),
        };
        Ok(method.build_query(storage.as_str()))
    }
}

} // verus!
