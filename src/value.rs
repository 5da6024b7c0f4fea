//! Metadata values: a JSON-like tree, its mathematical model, and the
//! comparisons that sorting and matching of content units rely on.
use vstd::prelude::*;
use core::cmp::Ordering;
use crate::encode::{str_bytes, u64_bytes, push_str, push_u64};

verus! {

/// The mathematical model of a metadata value.
pub enum Json {
    Null,
    Bool(bool),
    Number(i128),
    Str(Seq<char>),
    Array(Seq<Json>),
    Object(Seq<(Seq<char>, Json)>),
}

/// A metadata value. A well-formed value (`wf`) keeps object members with
/// their keys in strictly increasing order, so that one mapping has exactly
/// one representation; `insert_member` builds members that way.
#[derive(Debug)]
pub enum MetaValue {
    Null,
    Bool(bool),
    Number(i128),
    Str(String),
    Array(Vec<MetaValue>),
    Object(Vec<(String, MetaValue)>),
}

pub open spec fn view_value(v: MetaValue) -> Json
    decreases v,
{
    match v {
        MetaValue::Null => Json::Null,
        MetaValue::Bool(b) => Json::Bool(b),
        MetaValue::Number(n) => Json::Number(n),
        MetaValue::Str(s) => Json::Str(s@),
        MetaValue::Array(items) => Json::Array(view_items(items@)),
        MetaValue::Object(members) => Json::Object(view_members(members@)),
    }
}

pub open spec fn view_items(s: Seq<MetaValue>) -> Seq<Json>
    decreases s,
{
    if s.len() == 0 {
        Seq::empty()
    } else {
        view_items(s.drop_last()).push(view_value(s.last()))
    }
}

pub open spec fn view_members(s: Seq<(String, MetaValue)>) -> Seq<(Seq<char>, Json)>
    decreases s,
{
    if s.len() == 0 {
        Seq::empty()
    } else {
        view_members(s.drop_last()).push((s.last().0@, view_value(s.last().1)))
    }
}

impl View for MetaValue {
    type V = Json;

    open spec fn view(&self) -> Json {
        view_value(*self)
    }
}

pub proof fn lemma_view_items(s: Seq<MetaValue>)
    ensures
        view_items(s).len() == s.len(),
        forall|i: int| 0 <= i < s.len() ==> #[trigger] view_items(s)[i] == view_value(s[i]),
    decreases s.len(),
{
    if s.len() > 0 {
        lemma_view_items(s.drop_last());
    }
}

pub proof fn lemma_view_members(s: Seq<(String, MetaValue)>)
    ensures
        view_members(s).len() == s.len(),
        forall|i: int|
            0 <= i < s.len() ==> #[trigger] view_members(s)[i] == (s[i].0@, view_value(s[i].1)),
    decreases s.len(),
{
    if s.len() > 0 {
        lemma_view_members(s.drop_last());
    }
}

/// Characters compared one by one by scalar value; a proper prefix sorts first.
pub open spec fn cmp_chars(a: Seq<char>, b: Seq<char>) -> Ordering
    decreases a.len(),
{
    if a.len() == 0 && b.len() == 0 {
        Ordering::Equal
    } else if a.len() == 0 {
        Ordering::Less
    } else if b.len() == 0 {
        Ordering::Greater
    } else if (a[0] as u32) < (b[0] as u32) {
        Ordering::Less
    } else if (a[0] as u32) > (b[0] as u32) {
        Ordering::Greater
    } else {
        cmp_chars(a.drop_first(), b.drop_first())
    }
}

/// Compares two strings lexically.
pub fn compare_strs(a: &String, b: &String) -> (r: Ordering)
    ensures
        r == cmp_chars(a@, b@),
{
    let n = a.as_str().unicode_len();
    let m = b.as_str().unicode_len();
    let mut i: usize = 0;
    assert(a@.skip(0) =~= a@);
    assert(b@.skip(0) =~= b@);
    while i < n && i < m
        invariant
            n == a@.len(),
            m == b@.len(),
            i <= n,
            i <= m,
            cmp_chars(a@, b@) == cmp_chars(a@.skip(i as int), b@.skip(i as int)),
        decreases n - i,
    {
        let x = a.as_str().get_char(i);
        let y = b.as_str().get_char(i);
        if (x as u32) < (y as u32) {
            return Ordering::Less;
        } else if (x as u32) > (y as u32) {
            return Ordering::Greater;
        }
        proof {
            assert(a@.skip(i as int).drop_first() =~= a@.skip(i + 1));
            assert(b@.skip(i as int).drop_first() =~= b@.skip(i + 1));
        }
        i = i + 1;
    }
    if i == n && i == m {
        Ordering::Equal
    } else if i == n {
        Ordering::Less
    } else {
        Ordering::Greater
    }
}

/// Members whose keys strictly increase, at every level of the tree.
pub open spec fn wf_json(j: Json) -> bool
    decreases j,
{
    match j {
        Json::Array(items) => items_wf(items),
        Json::Object(members) => {
            &&& forall|i: int, k: int|
                0 <= i < k < members.len() ==> cmp_chars(#[trigger] members[i].0, #[trigger] members[k].0)
                    == Ordering::Less
            &&& members_wf(members)
        },
        _ => true,
    }
}

/// Every item is well formed.
pub open spec fn items_wf(s: Seq<Json>) -> bool
    decreases s,
{
    if s.len() == 0 {
        true
    } else {
        items_wf(s.drop_last()) && wf_json(s.last())
    }
}

/// Every member's value is well formed.
pub open spec fn members_wf(m: Seq<(Seq<char>, Json)>) -> bool
    decreases m,
{
    if m.len() == 0 {
        true
    } else {
        members_wf(m.drop_last()) && wf_json(m.last().1)
    }
}

pub proof fn lemma_items_wf(s: Seq<Json>)
    ensures
        items_wf(s) <==> forall|i: int| 0 <= i < s.len() ==> wf_json(#[trigger] s[i]),
    decreases s.len(),
{
    if s.len() > 0 {
        let d = s.drop_last();
        lemma_items_wf(d);
        if items_wf(s) {
            assert forall|i: int| 0 <= i < s.len() implies wf_json(#[trigger] s[i]) by {
                if i < s.len() - 1 {
                    assert(d[i] == s[i]);
                }
            }
        }
        if forall|i: int| 0 <= i < s.len() ==> wf_json(#[trigger] s[i]) {
            assert forall|i: int| 0 <= i < d.len() implies wf_json(#[trigger] d[i]) by {
                assert(d[i] == s[i]);
            }
            assert(wf_json(s[s.len() - 1]));
        }
    }
}

pub proof fn lemma_members_wf(m: Seq<(Seq<char>, Json)>)
    ensures
        members_wf(m) <==> values_wf(m),
    decreases m.len(),
{
    if m.len() > 0 {
        let d = m.drop_last();
        lemma_members_wf(d);
        if members_wf(m) {
            assert forall|i: int| 0 <= i < m.len() implies wf_json(#[trigger] m[i].1) by {
                if i < m.len() - 1 {
                    assert(d[i] == m[i]);
                }
            }
        }
        if values_wf(m) {
            assert forall|i: int| 0 <= i < d.len() implies wf_json(#[trigger] d[i].1) by {
                assert(d[i] == m[i]);
            }
            assert(wf_json(m[m.len() - 1].1));
        }
    }
}

impl MetaValue {
    /// A copy of the value.
    pub fn duplicate(&self) -> (r: MetaValue)
        ensures
            r@ == self@,
        decreases self@,
    {
        match self {
            MetaValue::Null => MetaValue::Null,
            MetaValue::Bool(b) => MetaValue::Bool(*b),
            MetaValue::Number(n) => MetaValue::Number(*n),
            MetaValue::Str(s) => MetaValue::Str(s.clone()),
            MetaValue::Array(items) => {
                let mut out: Vec<MetaValue> = Vec::new();
                let mut i: usize = 0;
                proof {
                    lemma_view_items(items@);
                    let j = self@;
                    assert forall|k: int| 0 <= k < items.len() implies decreases_to!(j => #[trigger] items@[k]@) by {
                        assert(decreases_to!(j => j->Array_0));
                        assert(decreases_to!(j->Array_0 => j->Array_0[k]));
                    }
                }
                while i < items.len()
                    invariant
                        0 <= i <= items.len(),
                        forall|k: int| 0 <= k < items.len() ==> decreases_to!(self@ => #[trigger] items@[k]@),
                        view_items(out@) == view_items(items@.subrange(0, i as int)),
                    decreases items.len() - i,
                {
                    let c = items[i].duplicate();
                    let ghost prev = out@;
                    out.push(c);
                    proof {
                        assert(out@.drop_last() =~= prev);
                        assert(items@.subrange(0, i + 1).drop_last() =~= items@.subrange(0, i as int));
                    }
                    i = i + 1;
                }
                assert(items@.subrange(0, items.len() as int) =~= items@);
                MetaValue::Array(out)
            },
            MetaValue::Object(members) => {
                let mut out: Vec<(String, MetaValue)> = Vec::new();
                let mut i: usize = 0;
                proof {
                    lemma_view_members(members@);
                    let j = self@;
                    assert forall|k: int| 0 <= k < members.len() implies decreases_to!(j => #[trigger] members@[k].1@) by {
                        assert(decreases_to!(j => j->Object_0));
                        assert(decreases_to!(j->Object_0 => j->Object_0[k]));
                        assert(decreases_to!(j->Object_0[k] => j->Object_0[k].1));
                    }
                }
                while i < members.len()
                    invariant
                        0 <= i <= members.len(),
                        forall|k: int| 0 <= k < members.len() ==> decreases_to!(self@ => #[trigger] members@[k].1@),
                        view_members(out@) == view_members(members@.subrange(0, i as int)),
                    decreases members.len() - i,
                {
                    let k = members[i].0.clone();
                    let c = members[i].1.duplicate();
                    let ghost prev = out@;
                    out.push((k, c));
                    proof {
                        assert(out@.drop_last() =~= prev);
                        assert(members@.subrange(0, i + 1).drop_last() =~= members@.subrange(0, i as int));
                    }
                    i = i + 1;
                }
                assert(members@.subrange(0, members.len() as int) =~= members@);
                MetaValue::Object(out)
            },
        }
    }
}

/// Orders values of different kinds: null, booleans, numbers, strings,
/// arrays, objects.
pub open spec fn kind_rank(j: Json) -> int {
    match j {
        Json::Null => 0,
        Json::Bool(_) => 1,
        Json::Number(_) => 2,
        Json::Str(_) => 3,
        Json::Array(_) => 4,
        Json::Object(_) => 5,
    }
}

pub open spec fn cmp_int(x: int, y: int) -> Ordering {
    if x < y {
        Ordering::Less
    } else if x > y {
        Ordering::Greater
    } else {
        Ordering::Equal
    }
}

/// The typed comparison of two values: numbers numerically, strings
/// lexically, arrays and objects element by element.
pub open spec fn cmp_json(a: Json, b: Json) -> Ordering
    decreases a,
{
    match a {
        Json::Null => match b {
            Json::Null => Ordering::Equal,
            _ => cmp_int(kind_rank(a), kind_rank(b)),
        },
        Json::Bool(x) => match b {
            Json::Bool(y) => cmp_int(if x { 1 } else { 0 }, if y { 1 } else { 0 }),
            _ => cmp_int(kind_rank(a), kind_rank(b)),
        },
        Json::Number(x) => match b {
            Json::Number(y) => cmp_int(x as int, y as int),
            _ => cmp_int(kind_rank(a), kind_rank(b)),
        },
        Json::Str(x) => match b {
            Json::Str(y) => cmp_chars(x, y),
            _ => cmp_int(kind_rank(a), kind_rank(b)),
        },
        Json::Array(x) => match b {
            Json::Array(y) => cmp_items(x, y),
            _ => cmp_int(kind_rank(a), kind_rank(b)),
        },
        Json::Object(x) => match b {
            Json::Object(y) => cmp_members(x, y),
            _ => cmp_int(kind_rank(a), kind_rank(b)),
        },
    }
}

pub open spec fn cmp_items(x: Seq<Json>, y: Seq<Json>) -> Ordering
    decreases x,
{
    if x.len() == 0 && y.len() == 0 {
        Ordering::Equal
    } else if x.len() == 0 {
        Ordering::Less
    } else if y.len() == 0 {
        Ordering::Greater
    } else {
        let c = cmp_json(x[0], y[0]);
        if c != Ordering::Equal {
            c
        } else {
            cmp_items(x.subrange(1, x.len() as int), y.subrange(1, y.len() as int))
        }
    }
}

pub open spec fn cmp_members(x: Seq<(Seq<char>, Json)>, y: Seq<(Seq<char>, Json)>) -> Ordering
    decreases x,
{
    if x.len() == 0 && y.len() == 0 {
        Ordering::Equal
    } else if x.len() == 0 {
        Ordering::Less
    } else if y.len() == 0 {
        Ordering::Greater
    } else {
        let k = cmp_chars(x[0].0, y[0].0);
        let c = if k != Ordering::Equal { k } else { cmp_json(x[0].1, y[0].1) };
        if c != Ordering::Equal {
            c
        } else {
            cmp_members(x.subrange(1, x.len() as int), y.subrange(1, y.len() as int))
        }
    }
}

/// An absent value sorts before any present one.
pub open spec fn cmp_opt(a: Option<Json>, b: Option<Json>) -> Ordering {
    match (a, b) {
        (None, None) => Ordering::Equal,
        (None, Some(_)) => Ordering::Less,
        (Some(_), None) => Ordering::Greater,
        (Some(x), Some(y)) => cmp_json(x, y),
    }
}

/// Two values match when they are equal, or when one of them is an array
/// (and the other is not) that holds the other.
pub open spec fn similar_json(a: Json, b: Json) -> bool {
    match (a, b) {
        (Json::Array(_), Json::Array(_)) => a == b,
        (Json::Array(x), _) => x.contains(b),
        (_, Json::Array(y)) => y.contains(a),
        _ => a == b,
    }
}

pub open spec fn opt_view(v: Option<&MetaValue>) -> Option<Json> {
    match v {
        None => None,
        Some(x) => Some(x@),
    }
}

fn rank(v: &MetaValue) -> (r: u8)
    ensures
        r as int == kind_rank(v@),
{
    match v {
        MetaValue::Null => 0,
        MetaValue::Bool(_) => 1,
        MetaValue::Number(_) => 2,
        MetaValue::Str(_) => 3,
        MetaValue::Array(_) => 4,
        MetaValue::Object(_) => 5,
    }
}

fn cmp_u64(x: u64, y: u64) -> (r: Ordering)
    ensures
        r == cmp_int(x as int, y as int),
{
    if x < y {
        Ordering::Less
    } else if x > y {
        Ordering::Greater
    } else {
        Ordering::Equal
    }
}

fn cmp_i128(x: i128, y: i128) -> (r: Ordering)
    ensures
        r == cmp_int(x as int, y as int),
{
    if x < y {
        Ordering::Less
    } else if x > y {
        Ordering::Greater
    } else {
        Ordering::Equal
    }
}

/// Structural equality of two values.
pub fn values_equal(a: &MetaValue, b: &MetaValue) -> (r: bool)
    ensures
        r == (a@ == b@),
    decreases a@,
{
    match (a, b) {
        (MetaValue::Null, MetaValue::Null) => {
            assert(a@ == Json::Null);
            assert(b@ == Json::Null);
            true
        },
        (MetaValue::Bool(x), MetaValue::Bool(y)) => {
            assert(a@ == Json::Bool(*x));
            assert(b@ == Json::Bool(*y));
            let r = *x == *y;
            assert(r == (a@ == b@));
            r
        },
        (MetaValue::Number(x), MetaValue::Number(y)) => {
            assert(a@ == Json::Number(*x));
            assert(b@ == Json::Number(*y));
            let r = *x == *y;
            assert(r == (a@ == b@));
            r
        },
        (MetaValue::Str(x), MetaValue::Str(y)) => {
            assert(a@ == Json::Str(x@));
            assert(b@ == Json::Str(y@));
            let r = x.eq(y);
            assert(r == (a@ == b@));
            r
        },
        (MetaValue::Array(x), MetaValue::Array(y)) => {
            proof {
                lemma_view_items(x@);
                lemma_view_items(y@);
                let j = a@;
                assert forall|k: int| 0 <= k < x.len() implies decreases_to!(j => #[trigger] x@[k]@) by {
                    assert(decreases_to!(j => j->Array_0));
                    assert(decreases_to!(j->Array_0 => j->Array_0[k]));
                }
            }
            if x.len() != y.len() {
                assert(a@ != b@);
                return false;
            }
            let mut i: usize = 0;
            while i < x.len()
                invariant
                    0 <= i <= x.len(),
                    x.len() == y.len(),
                    view_items(x@).len() == x.len(),
                    view_items(y@).len() == y.len(),
                    forall|k: int| 0 <= k < x.len() ==> #[trigger] view_items(x@)[k] == view_value(x@[k]),
                    forall|k: int| 0 <= k < y.len() ==> #[trigger] view_items(y@)[k] == view_value(y@[k]),
                    forall|k: int| 0 <= k < x.len() ==> decreases_to!(a@ => #[trigger] x@[k]@),
                    forall|k: int| 0 <= k < i ==> #[trigger] view_items(x@)[k] == view_items(y@)[k],
                    a@ == Json::Array(view_items(x@)),
                    b@ == Json::Array(view_items(y@)),
                decreases x.len() - i,
            {
                if !values_equal(&x[i], &y[i]) {
                    assert(view_items(x@)[i as int] != view_items(y@)[i as int]);
                    return false;
                }
                assert(view_items(x@)[i as int] == view_items(y@)[i as int]);
                i = i + 1;
            }
            assert(view_items(x@) =~= view_items(y@));
            true
        },
        (MetaValue::Object(x), MetaValue::Object(y)) => {
            proof {
                lemma_view_members(x@);
                lemma_view_members(y@);
                let j = a@;
                assert forall|k: int| 0 <= k < x.len() implies decreases_to!(j => #[trigger] x@[k].1@) by {
                    assert(decreases_to!(j => j->Object_0));
                    assert(decreases_to!(j->Object_0 => j->Object_0[k]));
                    assert(decreases_to!(j->Object_0[k] => j->Object_0[k].1));
                }
            }
            if x.len() != y.len() {
                assert(a@ != b@);
                return false;
            }
            let mut i: usize = 0;
            while i < x.len()
                invariant
                    0 <= i <= x.len(),
                    x.len() == y.len(),
                    view_members(x@).len() == x.len(),
                    view_members(y@).len() == y.len(),
                    forall|k: int| 0 <= k < x.len() ==> #[trigger] view_members(x@)[k] == (x@[k].0@, view_value(x@[k].1)),
                    forall|k: int| 0 <= k < y.len() ==> #[trigger] view_members(y@)[k] == (y@[k].0@, view_value(y@[k].1)),
                    forall|k: int| 0 <= k < x.len() ==> decreases_to!(a@ => #[trigger] x@[k].1@),
                    forall|k: int| 0 <= k < i ==> #[trigger] view_members(x@)[k] == view_members(y@)[k],
                    a@ == Json::Object(view_members(x@)),
                    b@ == Json::Object(view_members(y@)),
                decreases x.len() - i,
            {
                if !x[i].0.eq(&y[i].0) || !values_equal(&x[i].1, &y[i].1) {
                    assert(view_members(x@)[i as int] != view_members(y@)[i as int]);
                    return false;
                }
                i = i + 1;
            }
            assert(view_members(x@) =~= view_members(y@));
            true
        },
        _ => {
            assert(kind_rank(a@) != kind_rank(b@));
            false
        },
    }
}

/// The typed comparison of two values.
pub fn compare_values(a: &MetaValue, b: &MetaValue) -> (r: Ordering)
    ensures
        r == cmp_json(a@, b@),
    decreases a@,
{
    match a {
        MetaValue::Null => match b {
            MetaValue::Null => Ordering::Equal,
            _ => cmp_u64(rank(a) as u64, rank(b) as u64),
        },
        MetaValue::Bool(x) => match b {
            MetaValue::Bool(y) => cmp_u64(if *x { 1 } else { 0 }, if *y { 1 } else { 0 }),
            _ => cmp_u64(rank(a) as u64, rank(b) as u64),
        },
        MetaValue::Number(x) => match b {
            MetaValue::Number(y) => cmp_i128(*x, *y),
            _ => cmp_u64(rank(a) as u64, rank(b) as u64),
        },
        MetaValue::Str(x) => match b {
            MetaValue::Str(y) => compare_strs(x, y),
            _ => cmp_u64(rank(a) as u64, rank(b) as u64),
        },
        MetaValue::Array(x) => match b {
            MetaValue::Array(y) => {
                let ghost xs = view_items(x@);
                let ghost ys = view_items(y@);
                proof {
                    lemma_view_items(x@);
                    lemma_view_items(y@);
                    let j = a@;
                    assert forall|k: int| 0 <= k < x.len() implies decreases_to!(j => #[trigger] x@[k]@) by {
                        assert(decreases_to!(j => j->Array_0));
                        assert(decreases_to!(j->Array_0 => j->Array_0[k]));
                    }
                    assert(xs.subrange(0, xs.len() as int) =~= xs);
                    assert(ys.subrange(0, ys.len() as int) =~= ys);
                }
                let mut i: usize = 0;
                while i < x.len() && i < y.len()
                    invariant
                        0 <= i <= x.len(),
                        i <= y.len(),
                        xs == view_items(x@),
                        ys == view_items(y@),
                        xs.len() == x.len(),
                        ys.len() == y.len(),
                        forall|k: int| 0 <= k < x.len() ==> #[trigger] xs[k] == view_value(x@[k]),
                        forall|k: int| 0 <= k < y.len() ==> #[trigger] ys[k] == view_value(y@[k]),
                        forall|k: int| 0 <= k < x.len() ==> decreases_to!(a@ => #[trigger] x@[k]@),
                        a@ == Json::Array(xs),
                        b@ == Json::Array(ys),
                        cmp_items(xs, ys) == cmp_items(
                            xs.subrange(i as int, xs.len() as int),
                            ys.subrange(i as int, ys.len() as int),
                        ),
                    decreases x.len() - i,
                {
                    let c = compare_values(&x[i], &y[i]);
                    match c {
                        Ordering::Equal => {},
                        _ => {
                            return c;
                        },
                    }
                    proof {
                        assert(xs.subrange(i as int, xs.len() as int).subrange(1, xs.len() - i)
                            =~= xs.subrange(i + 1, xs.len() as int));
                        assert(ys.subrange(i as int, ys.len() as int).subrange(1, ys.len() - i)
                            =~= ys.subrange(i + 1, ys.len() as int));
                    }
                    i = i + 1;
                }
                if i == x.len() && i == y.len() {
                    Ordering::Equal
                } else if i == x.len() {
                    Ordering::Less
                } else {
                    Ordering::Greater
                }
            },
            _ => cmp_u64(rank(a) as u64, rank(b) as u64),
        },
        MetaValue::Object(x) => match b {
            MetaValue::Object(y) => {
                let ghost xs = view_members(x@);
                let ghost ys = view_members(y@);
                proof {
                    lemma_view_members(x@);
                    lemma_view_members(y@);
                    let j = a@;
                    assert forall|k: int| 0 <= k < x.len() implies decreases_to!(j => #[trigger] x@[k].1@) by {
                        assert(decreases_to!(j => j->Object_0));
                        assert(decreases_to!(j->Object_0 => j->Object_0[k]));
                        assert(decreases_to!(j->Object_0[k] => j->Object_0[k].1));
                    }
                    assert(xs.subrange(0, xs.len() as int) =~= xs);
                    assert(ys.subrange(0, ys.len() as int) =~= ys);
                }
                let mut i: usize = 0;
                while i < x.len() && i < y.len()
                    invariant
                        0 <= i <= x.len(),
                        i <= y.len(),
                        xs == view_members(x@),
                        ys == view_members(y@),
                        xs.len() == x.len(),
                        ys.len() == y.len(),
                        forall|k: int| 0 <= k < x.len() ==> #[trigger] xs[k] == (x@[k].0@, view_value(x@[k].1)),
                        forall|k: int| 0 <= k < y.len() ==> #[trigger] ys[k] == (y@[k].0@, view_value(y@[k].1)),
                        forall|k: int| 0 <= k < x.len() ==> decreases_to!(a@ => #[trigger] x@[k].1@),
                        a@ == Json::Object(xs),
                        b@ == Json::Object(ys),
                        cmp_members(xs, ys) == cmp_members(
                            xs.subrange(i as int, xs.len() as int),
                            ys.subrange(i as int, ys.len() as int),
                        ),
                    decreases x.len() - i,
                {
                    let kc = compare_strs(&x[i].0, &y[i].0);
                    match kc {
                        Ordering::Equal => {},
                        _ => {
                            return kc;
                        },
                    }
                    let c = compare_values(&x[i].1, &y[i].1);
                    match c {
                        Ordering::Equal => {},
                        _ => {
                            return c;
                        },
                    }
                    proof {
                        assert(xs.subrange(i as int, xs.len() as int).subrange(1, xs.len() - i)
                            =~= xs.subrange(i + 1, xs.len() as int));
                        assert(ys.subrange(i as int, ys.len() as int).subrange(1, ys.len() - i)
                            =~= ys.subrange(i + 1, ys.len() as int));
                    }
                    i = i + 1;
                }
                if i == x.len() && i == y.len() {
                    Ordering::Equal
                } else if i == x.len() {
                    Ordering::Less
                } else {
                    Ordering::Greater
                }
            },
            _ => cmp_u64(rank(a) as u64, rank(b) as u64),
        },
    }
}

/// The typed comparison of two optional values; an absent value sorts first.
pub fn compare_opt(a: Option<&MetaValue>, b: Option<&MetaValue>) -> (r: Ordering)
    ensures
        r == cmp_opt(opt_view(a), opt_view(b)),
{
    match (a, b) {
        (None, None) => Ordering::Equal,
        (None, Some(_)) => Ordering::Less,
        (Some(_), None) => Ordering::Greater,
        (Some(x), Some(y)) => compare_values(x, y),
    }
}

fn items_contain(x: &Vec<MetaValue>, v: &MetaValue) -> (r: bool)
    ensures
        r == view_items(x@).contains(v@),
{
    proof {
        lemma_view_items(x@);
    }
    let mut i: usize = 0;
    while i < x.len()
        invariant
            0 <= i <= x.len(),
            view_items(x@).len() == x.len(),
            forall|k: int| 0 <= k < x.len() ==> #[trigger] view_items(x@)[k] == view_value(x@[k]),
            forall|k: int| 0 <= k < i ==> #[trigger] view_items(x@)[k] != v@,
        decreases x.len() - i,
    {
        if values_equal(&x[i], v) {
            assert(view_items(x@)[i as int] == v@);
            return true;
        }
        i = i + 1;
    }
    false
}

/// Whether two metadata values match: equal, or one an array holding the other.
pub fn similar_values(a: &MetaValue, b: &MetaValue) -> (r: bool)
    ensures
        r == similar_json(a@, b@),
{
    match (a, b) {
        (MetaValue::Array(_), MetaValue::Array(_)) => values_equal(a, b),
        (MetaValue::Array(x), _) => items_contain(x, b),
        (_, MetaValue::Array(y)) => items_contain(y, a),
        _ => values_equal(a, b),
    }
}

/// The value of the first member with key `k`.
pub open spec fn member_get(m: Seq<(Seq<char>, Json)>, k: Seq<char>) -> Option<Json>
    decreases m.len(),
{
    if m.len() == 0 {
        None
    } else if m[0].0 == k {
        Some(m[0].1)
    } else {
        member_get(m.subrange(1, m.len() as int), k)
    }
}

/// Follows the remaining keys of a path down through nested objects.
pub open spec fn descend(v: Option<Json>, rest: Seq<Seq<char>>) -> Option<Json>
    decreases rest.len(),
{
    if rest.len() == 0 {
        v
    } else {
        match v {
            Some(Json::Object(m)) => descend(member_get(m, rest[0]), rest.subrange(1, rest.len() as int)),
            _ => None,
        }
    }
}

/// The value at a path of keys in a set of members; an empty path names nothing.
pub open spec fn path_get(root: Seq<(Seq<char>, Json)>, keys: Seq<Seq<char>>) -> Option<Json> {
    if keys.len() == 0 {
        None
    } else {
        descend(member_get(root, keys[0]), keys.subrange(1, keys.len() as int))
    }
}

/// Looks a key up among the members of an object.
pub fn find_member<'a>(m: &'a Vec<(String, MetaValue)>, k: &String) -> (r: Option<&'a MetaValue>)
    ensures
        opt_view(r) == member_get(view_members(m@), k@),
{
    let ghost ms = view_members(m@);
    proof {
        lemma_view_members(m@);
        assert(ms.subrange(0, ms.len() as int) =~= ms);
    }
    let mut i: usize = 0;
    while i < m.len()
        invariant
            0 <= i <= m.len(),
            ms == view_members(m@),
            ms.len() == m.len(),
            forall|j: int| 0 <= j < m.len() ==> #[trigger] ms[j] == (m@[j].0@, view_value(m@[j].1)),
            member_get(ms, k@) == member_get(ms.subrange(i as int, ms.len() as int), k@),
        decreases m.len() - i,
    {
        if m[i].0.eq(k) {
            return Some(&m[i].1);
        }
        proof {
            assert(ms.subrange(i as int, ms.len() as int).subrange(1, ms.len() - i)
                =~= ms.subrange(i + 1, ms.len() as int));
        }
        i = i + 1;
    }
    None
}

/// The value at a path of keys, descending through nested objects.
pub fn get_path<'a>(root: &'a Vec<(String, MetaValue)>, keys: &Vec<String>) -> (r: Option<&'a MetaValue>)
    ensures
        opt_view(r) == path_get(view_members(root@), crate::encode::strings_view(keys@)),
{
    let ghost ks = crate::encode::strings_view(keys@);
    if keys.len() == 0 {
        return None;
    }
    let mut cur = find_member(root, &keys[0]);
    let mut i: usize = 1;
    while i < keys.len()
        invariant
            1 <= i <= keys.len(),
            ks == crate::encode::strings_view(keys@),
            ks.len() == keys.len(),
            path_get(view_members(root@), ks) == descend(opt_view(cur), ks.subrange(i as int, ks.len() as int)),
        decreases keys.len() - i,
    {
        proof {
            assert(ks.subrange(i as int, ks.len() as int).subrange(1, ks.len() - i)
                =~= ks.subrange(i + 1, ks.len() as int));
        }
        match cur {
            Some(MetaValue::Object(m)) => {
                cur = find_member(m, &keys[i]);
            },
            _ => {
                return None;
            },
        }
        i = i + 1;
    }
    proof {
        assert(ks.subrange(keys.len() as int, ks.len() as int) =~= Seq::<Seq<char>>::empty());
    }
    cur
}

/// The canonical bytes of a value: a kind tag, then its payload.
pub open spec fn json_bytes(j: Json) -> Seq<u8>
    decreases j,
{
    match j {
        Json::Null => seq![0u8],
        Json::Bool(b) => seq![1u8, if b { 1u8 } else { 0u8 }],
        Json::Number(n) => seq![2u8] + u64_bytes((n as u128) as u64) + u64_bytes(((n as u128) >> 64u128) as u64),
        Json::Str(s) => seq![3u8] + str_bytes(s),
        Json::Array(x) => seq![4u8] + u64_bytes(x.len() as u64) + items_bytes(x),
        Json::Object(m) => seq![5u8] + u64_bytes(m.len() as u64) + members_bytes(m),
    }
}

pub open spec fn items_bytes(x: Seq<Json>) -> Seq<u8>
    decreases x,
{
    if x.len() == 0 {
        Seq::empty()
    } else {
        items_bytes(x.drop_last()) + json_bytes(x.last())
    }
}

pub open spec fn members_bytes(m: Seq<(Seq<char>, Json)>) -> Seq<u8>
    decreases m,
{
    if m.len() == 0 {
        Seq::empty()
    } else {
        members_bytes(m.drop_last()) + str_bytes(m.last().0) + json_bytes(m.last().1)
    }
}

/// Appends the canonical bytes of a well-formed value: object members are
/// written in ascending key order, the order a well-formed value keeps.
pub fn push_value(out: &mut Vec<u8>, v: &MetaValue)
    requires
        v.wf(),
    ensures
        final(out)@ == old(out)@ + json_bytes(v@),
    decreases v@,
{
    match v {
        MetaValue::Null => {
            out.push(0u8);
            assert(out@ =~= old(out)@ + json_bytes(v@));
        },
        MetaValue::Bool(b) => {
            out.push(1u8);
            out.push(if *b { 1u8 } else { 0u8 });
            assert(out@ =~= old(out)@ + json_bytes(v@));
        },
        MetaValue::Number(n) => {
            out.push(2u8);
            push_u64(out, (*n as u128) as u64);
            push_u64(out, ((*n as u128) >> 64u128) as u64);
            assert(out@ =~= old(out)@ + json_bytes(v@));
        },
        MetaValue::Str(s) => {
            out.push(3u8);
            push_str(out, s);
            assert(out@ =~= old(out)@ + json_bytes(v@));
        },
        MetaValue::Array(x) => {
            let ghost xs = view_items(x@);
            proof {
                lemma_view_items(x@);
                let j = v@;
                assert forall|k: int| 0 <= k < x.len() implies decreases_to!(j => #[trigger] x@[k]@) by {
                    assert(decreases_to!(j => j->Array_0));
                    assert(decreases_to!(j->Array_0 => j->Array_0[k]));
                }
            }
            assert(v@ == Json::Array(xs));
            assert(items_wf(xs));
            proof {
                lemma_items_wf(xs);
            }
            out.push(4u8);
            push_u64(out, x.len() as u64);
            let ghost start = out@;
            let mut i: usize = 0;
            while i < x.len()
                invariant
                    0 <= i <= x.len(),
                    xs == view_items(x@),
                    xs.len() == x.len(),
                    forall|k: int| 0 <= k < x.len() ==> #[trigger] xs[k] == view_value(x@[k]),
                    forall|k: int| 0 <= k < x.len() ==> decreases_to!(v@ => #[trigger] x@[k]@),
                    forall|k: int| 0 <= k < x.len() ==> wf_json(#[trigger] xs[k]),
                    out@ == start + items_bytes(xs.subrange(0, i as int)),
                decreases x.len() - i,
            {
                assert(xs[i as int] == x@[i as int]@);
                push_value(out, &x[i]);
                proof {
                    assert(xs.subrange(0, i + 1).drop_last() =~= xs.subrange(0, i as int));
                }
                i = i + 1;
            }
            assert(xs.subrange(0, x.len() as int) =~= xs);
            assert(out@ =~= old(out)@ + json_bytes(v@));
        },
        MetaValue::Object(m) => {
            let ghost ms = view_members(m@);
            proof {
                lemma_view_members(m@);
                let j = v@;
                assert forall|k: int| 0 <= k < m.len() implies decreases_to!(j => #[trigger] m@[k].1@) by {
                    assert(decreases_to!(j => j->Object_0));
                    assert(decreases_to!(j->Object_0 => j->Object_0[k]));
                    assert(decreases_to!(j->Object_0[k] => j->Object_0[k].1));
                }
            }
            assert(v@ == Json::Object(ms));
            assert(members_wf(ms));
            proof {
                lemma_members_wf(ms);
            }
            out.push(5u8);
            push_u64(out, m.len() as u64);
            let ghost start = out@;
            let mut i: usize = 0;
            while i < m.len()
                invariant
                    0 <= i <= m.len(),
                    ms == view_members(m@),
                    ms.len() == m.len(),
                    forall|k: int| 0 <= k < m.len() ==> #[trigger] ms[k] == (m@[k].0@, view_value(m@[k].1)),
                    forall|k: int| 0 <= k < m.len() ==> decreases_to!(v@ => #[trigger] m@[k].1@),
                    forall|k: int| 0 <= k < m.len() ==> wf_json(#[trigger] ms[k].1),
                    out@ == start + members_bytes(ms.subrange(0, i as int)),
                decreases m.len() - i,
            {
                push_str(out, &m[i].0);
                assert(ms[i as int].1 == m@[i as int].1@);
                push_value(out, &m[i].1);
                proof {
                    assert(ms.subrange(0, i + 1).drop_last() =~= ms.subrange(0, i as int));
                    assert(out@ =~= start + members_bytes(ms.subrange(0, i + 1)));
                }
                i = i + 1;
            }
            assert(ms.subrange(0, m.len() as int) =~= ms);
            assert(out@ =~= old(out)@ + json_bytes(v@));
        },
    }
}

pub open spec fn flip(o: Ordering) -> Ordering {
    match o {
        Ordering::Less => Ordering::Greater,
        Ordering::Equal => Ordering::Equal,
        Ordering::Greater => Ordering::Less,
    }
}

pub proof fn lemma_cmp_chars_antisym(a: Seq<char>, b: Seq<char>)
    ensures
        cmp_chars(a, b) == flip(cmp_chars(b, a)),
    decreases a.len(),
{
    if a.len() > 0 && b.len() > 0 && (a[0] as u32) == (b[0] as u32) {
        lemma_cmp_chars_antisym(a.drop_first(), b.drop_first());
    }
}

/// Swapping the two sides of the typed comparison flips its result.
pub proof fn lemma_cmp_json_antisym(a: Json, b: Json)
    ensures
        cmp_json(a, b) == flip(cmp_json(b, a)),
    decreases a,
{
    match (a, b) {
        (Json::Str(x), Json::Str(y)) => lemma_cmp_chars_antisym(x, y),
        (Json::Array(x), Json::Array(y)) => lemma_cmp_items_antisym(x, y),
        (Json::Object(x), Json::Object(y)) => lemma_cmp_members_antisym(x, y),
        _ => {},
    }
}

pub proof fn lemma_cmp_items_antisym(x: Seq<Json>, y: Seq<Json>)
    ensures
        cmp_items(x, y) == flip(cmp_items(y, x)),
    decreases x,
{
    if x.len() > 0 && y.len() > 0 {
        lemma_cmp_json_antisym(x[0], y[0]);
        lemma_cmp_items_antisym(x.subrange(1, x.len() as int), y.subrange(1, y.len() as int));
    }
}

pub proof fn lemma_cmp_members_antisym(x: Seq<(Seq<char>, Json)>, y: Seq<(Seq<char>, Json)>)
    ensures
        cmp_members(x, y) == flip(cmp_members(y, x)),
    decreases x,
{
    if x.len() > 0 && y.len() > 0 {
        lemma_cmp_chars_antisym(x[0].0, y[0].0);
        assert(decreases_to!(x => x[0]));
        lemma_cmp_json_antisym(x[0].1, y[0].1);
        lemma_cmp_members_antisym(x.subrange(1, x.len() as int), y.subrange(1, y.len() as int));
    }
}

pub proof fn lemma_cmp_opt_antisym(a: Option<Json>, b: Option<Json>)
    ensures
        cmp_opt(a, b) == flip(cmp_opt(b, a)),
{
    if a is Some && b is Some {
        lemma_cmp_json_antisym(a->Some_0, b->Some_0);
    }
}

pub proof fn lemma_cmp_chars_refl(a: Seq<char>)
    ensures
        cmp_chars(a, a) == Ordering::Equal,
    decreases a.len(),
{
    if a.len() > 0 {
        lemma_cmp_chars_refl(a.drop_first());
    }
}

/// Members whose keys strictly increase.
pub open spec fn keys_increase(m: Seq<(Seq<char>, Json)>) -> bool {
    forall|i: int, k: int| 0 <= i < k < m.len() ==> cmp_chars(#[trigger] m[i].0, #[trigger] m[k].0) == Ordering::Less
}

/// Two member lists kept in key order that hold the same members are the
/// same list: however an object was built, its kept form is one.
pub proof fn lemma_members_canonical(a: Seq<(Seq<char>, Json)>, b: Seq<(Seq<char>, Json)>)
    requires
        keys_increase(a),
        keys_increase(b),
        forall|x: (Seq<char>, Json)| a.contains(x) <==> b.contains(x),
    ensures
        a == b,
    decreases a.len() + b.len(),
{
    if a.len() == 0 || b.len() == 0 {
        if a.len() > 0 {
            assert(a.contains(a[0]));
        }
        if b.len() > 0 {
            assert(b.contains(b[0]));
        }
        assert(a =~= b);
        return;
    }
    assert(a.contains(a[0]));
    assert(b.contains(b[0]));
    let j = choose|j: int| 0 <= j < b.len() && b[j] == a[0];
    let k = choose|k: int| 0 <= k < a.len() && a[k] == b[0];
    lemma_cmp_chars_refl(a[0].0);
    if j > 0 && k > 0 {
        assert(cmp_chars(b[0].0, b[j].0) == Ordering::Less);
        assert(cmp_chars(a[0].0, a[k].0) == Ordering::Less);
        lemma_cmp_chars_antisym(a[0].0, b[0].0);
    }
    assert(a[0] == b[0]);
    let ta = a.subrange(1, a.len() as int);
    let tb = b.subrange(1, b.len() as int);
    assert forall|x: (Seq<char>, Json)| ta.contains(x) <==> tb.contains(x) by {
        if ta.contains(x) {
            let i = choose|i: int| 0 <= i < ta.len() && ta[i] == x;
            assert(a[i + 1] == x);
            assert(cmp_chars(a[0].0, a[i + 1].0) == Ordering::Less);
            assert(b.contains(x));
            let m = choose|m: int| 0 <= m < b.len() && b[m] == x;
            if m == 0 {
                assert(x == a[0]);
            }
            assert(tb[m - 1] == x);
        }
        if tb.contains(x) {
            let i = choose|i: int| 0 <= i < tb.len() && tb[i] == x;
            assert(b[i + 1] == x);
            assert(cmp_chars(b[0].0, b[i + 1].0) == Ordering::Less);
            assert(a.contains(x));
            let m = choose|m: int| 0 <= m < a.len() && a[m] == x;
            if m == 0 {
                assert(x == b[0]);
            }
            assert(ta[m - 1] == x);
        }
    }
    assert(keys_increase(ta)) by {
        assert forall|i: int, k: int| 0 <= i < k < ta.len() implies cmp_chars(#[trigger] ta[i].0, #[trigger] ta[k].0) == Ordering::Less by {
            assert(ta[i] == a[i + 1] && ta[k] == a[k + 1]);
        }
    }
    assert(keys_increase(tb)) by {
        assert forall|i: int, k: int| 0 <= i < k < tb.len() implies cmp_chars(#[trigger] tb[i].0, #[trigger] tb[k].0) == Ordering::Less by {
            assert(tb[i] == b[i + 1] && tb[k] == b[k + 1]);
        }
    }
    lemma_members_canonical(ta, tb);
    assert(a =~= seq![a[0]] + ta);
    assert(b =~= seq![b[0]] + tb);
}

pub proof fn lemma_cmp_chars_trans(a: Seq<char>, b: Seq<char>, c: Seq<char>)
    requires
        cmp_chars(a, b) == Ordering::Less,
        cmp_chars(b, c) == Ordering::Less,
    ensures
        cmp_chars(a, c) == Ordering::Less,
    decreases a.len(),
{
    if a.len() > 0 && b.len() > 0 && c.len() > 0 && (a[0] as u32) == (b[0] as u32) && (b[0] as u32) == (c[0] as u32) {
        lemma_cmp_chars_trans(a.drop_first(), b.drop_first(), c.drop_first());
    }
}

pub proof fn lemma_cmp_chars_equal(a: Seq<char>, b: Seq<char>)
    requires
        cmp_chars(a, b) == Ordering::Equal,
    ensures
        a == b,
    decreases a.len(),
{
    if a.len() > 0 && b.len() > 0 {
        assert((a[0] as u32) == (b[0] as u32));
        lemma_cmp_chars_equal(a.drop_first(), b.drop_first());
        crate::encode::lemma_char_u32_injective(a[0], b[0]);
        assert(a[0] == b[0]);
        assert(a =~= seq![a[0]] + a.drop_first());
        assert(b =~= seq![b[0]] + b.drop_first());
    } else {
        assert(a =~= b);
    }
}

impl MetaValue {
    /// Object members at every level are kept in increasing key order.
    pub open spec fn wf(&self) -> bool {
        wf_json(self@)
    }
}

/// Every value of a member list is well formed.
pub open spec fn values_wf(m: Seq<(Seq<char>, Json)>) -> bool {
    forall|i: int| 0 <= i < m.len() ==> wf_json(#[trigger] m[i].1)
}

/// Sets `key` to `value` in a member list kept in key order: a member with
/// that key is replaced, otherwise the new member goes where its key
/// belongs. This is how objects and metadata are built.
pub fn insert_member(members: &mut Vec<(String, MetaValue)>, key: String, value: MetaValue)
    requires
        keys_increase(view_members(old(members)@)),
        values_wf(view_members(old(members)@)),
        value.wf(),
    ensures
        keys_increase(view_members(final(members)@)),
        values_wf(view_members(final(members)@)),
        forall|x: (Seq<char>, Json)|
            view_members(final(members)@).contains(x) <==> ((view_members(old(members)@).contains(x)
                && x.0 != key@) || x == (key@, value@)),
{
    let ghost om = view_members(members@);
    proof {
        lemma_view_members(members@);
    }
    let mut p: usize = 0;
    while p < members.len() && is_less_ord(compare_strs(&members[p].0, &key))
        invariant
            0 <= p <= members@.len(),
            om == view_members(members@),
            om.len() == members@.len(),
            forall|j: int| 0 <= j < members@.len() ==> #[trigger] om[j] == (members@[j].0@, view_value(members@[j].1)),
            forall|j: int| 0 <= j < p ==> cmp_chars(#[trigger] om[j].0, key@) == Ordering::Less,
        decreases members.len() - p,
    {
        p = p + 1;
    }
    let replace = p < members.len() && members[p].0.eq(&key);
    let ghost kv = (key@, value@);
    if replace {
        let _ = members.remove(p);
    }
    members.insert(p, (key, value));
    proof {
        lemma_view_members(members@);
        let nm = view_members(members@);
        let shift: int = if replace { 0 } else { 1 };
        // nm = om[..p] ++ [kv] ++ om[p + (1 - shift)..]
        assert(nm.len() == om.len() + shift);
        assert forall|j: int| 0 <= j < nm.len() implies #[trigger] nm[j] == (if j < p { om[j] } else if j == p { kv } else { om[j - shift] }) by {
            assert(nm[j] == (members@[j].0@, view_value(members@[j].1)));
        }
        if p < om.len() && !replace {
            assert(cmp_chars(om[p as int].0, key@) != Ordering::Less);
            lemma_cmp_chars_antisym(om[p as int].0, key@);
            if cmp_chars(key@, om[p as int].0) == Ordering::Equal {
                lemma_cmp_chars_equal(key@, om[p as int].0);
            }
            assert(cmp_chars(key@, om[p as int].0) == Ordering::Less);
        }
        if p < om.len() && replace {
            assert(om[p as int].0 == key@);
        }
        assert forall|i: int, k: int| 0 <= i < k < nm.len() implies cmp_chars(#[trigger] nm[i].0, #[trigger] nm[k].0) == Ordering::Less by {
            if i < p && k < p {
            } else if i < p && k == p {
            } else if i < p {
                assert(cmp_chars(om[i].0, key@) == Ordering::Less);
                if replace {
                    // om[p] has the key; om[k] lies after it
                    lemma_cmp_chars_trans(om[i].0, om[p as int].0, om[k - shift].0);
                } else {
                    lemma_cmp_chars_trans(om[i].0, key@, om[p as int].0);
                    if k - shift > p {
                        lemma_cmp_chars_trans(om[i].0, om[p as int].0, om[k - shift].0);
                    }
                }
            } else if i == p {
                if replace {
                    assert(nm[k] == om[k]);
                    assert(cmp_chars(om[p as int].0, om[k].0) == Ordering::Less);
                } else {
                    if k - 1 > p {
                        lemma_cmp_chars_trans(key@, om[p as int].0, om[k - 1].0);
                    }
                }
            } else {
            }
        }
        assert forall|j: int| 0 <= j < nm.len() implies wf_json(#[trigger] nm[j].1) by {
            if j != p {
                let oj = if j < p { j } else { j - shift };
                assert(nm[j] == om[oj]);
            }
        }
        assert forall|x: (Seq<char>, Json)| nm.contains(x) <==> ((om.contains(x) && x.0 != key@) || x == kv) by {
            if nm.contains(x) {
                let j = choose|j: int| 0 <= j < nm.len() && nm[j] == x;
                if j != p {
                    let oj = if j < p { j } else { j - shift };
                    assert(om[oj] == x);
                    if x.0 == key@ {
                        if oj < p {
                            assert(cmp_chars(om[oj].0, key@) == Ordering::Less);
                            lemma_cmp_chars_refl(key@);
                        } else if replace {
                            assert(oj > p);
                            assert(cmp_chars(om[p as int].0, om[oj].0) == Ordering::Less);
                            lemma_cmp_chars_refl(key@);
                        } else if p < om.len() {
                            if oj > p {
                                lemma_cmp_chars_trans(key@, om[p as int].0, om[oj].0);
                            }
                            lemma_cmp_chars_refl(key@);
                        }
                    }
                }
            }
            if om.contains(x) && x.0 != key@ {
                let oj = choose|oj: int| 0 <= oj < om.len() && om[oj] == x;
                if replace {
                    assert(oj != p);
                }
                let j = if oj < p { oj } else { oj + shift };
                assert(nm[j] == x);
            }
            if x == kv {
                assert(nm[p as int] == x);
            }
        }
    }
}

fn is_less_ord(o: Ordering) -> (r: bool)
    ensures
        r == (o == Ordering::Less),
{
    match o {
        Ordering::Less => true,
        _ => false,
    }
}

pub proof fn lemma_member_get_wf(m: Seq<(Seq<char>, Json)>, k: Seq<char>)
    requires
        values_wf(m),
    ensures
        member_get(m, k) matches Some(v) ==> wf_json(v),
    decreases m.len(),
{
    if m.len() > 0 && m[0].0 != k {
        let t = m.subrange(1, m.len() as int);
        assert forall|i: int| 0 <= i < t.len() implies wf_json(#[trigger] t[i].1) by {
            assert(t[i] == m[i + 1]);
        }
        lemma_member_get_wf(t, k);
    }
}

pub proof fn lemma_descend_wf(v: Option<Json>, rest: Seq<Seq<char>>)
    requires
        v matches Some(j) ==> wf_json(j),
    ensures
        descend(v, rest) matches Some(j) ==> wf_json(j),
    decreases rest.len(),
{
    if rest.len() > 0 {
        if let Some(Json::Object(m)) = v {
            lemma_members_wf(m);
            lemma_member_get_wf(m, rest[0]);
            lemma_descend_wf(member_get(m, rest[0]), rest.subrange(1, rest.len() as int));
        }
    }
}

/// A value found in well-formed members is well formed.
pub proof fn lemma_path_get_wf(root: Seq<(Seq<char>, Json)>, keys: Seq<Seq<char>>)
    requires
        values_wf(root),
    ensures
        path_get(root, keys) matches Some(v) ==> wf_json(v),
{
    if keys.len() > 0 {
        lemma_member_get_wf(root, keys[0]);
        lemma_descend_wf(member_get(root, keys[0]), keys.subrange(1, keys.len() as int));
    }
}

/// An object made of members kept in key order.
pub fn object_from_members(members: Vec<(String, MetaValue)>) -> (r: MetaValue)
    requires
        keys_increase(view_members(members@)),
        values_wf(view_members(members@)),
    ensures
        r.wf(),
        r@ == Json::Object(view_members(members@)),
{
    proof {
        lemma_members_wf(view_members(members@));
    }
    MetaValue::Object(members)
}

/// The bytes of an object whose members are kept in key order depend on its
/// members alone, not on the order they were gathered in: object members are
/// hashed in ascending key order.
pub proof fn lemma_object_bytes_member_order(m1: Seq<(Seq<char>, Json)>, m2: Seq<(Seq<char>, Json)>)
    requires
        keys_increase(m1),
        keys_increase(m2),
        forall|x: (Seq<char>, Json)| m1.contains(x) <==> m2.contains(x),
    ensures
        json_bytes(Json::Object(m1)) == json_bytes(Json::Object(m2)),
{
    lemma_members_canonical(m1, m2);
}

} // verus!
