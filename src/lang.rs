//! The language preferences of a request: `lang` parameters of its query
//! string first, then the languages of its `Accept-Language` header.
use vstd::prelude::*;
use vstd::string::StringExecFns;
use crate::encode::strings_view;

verus! {

/// The pieces of a text between occurrences of `c`, as `str::split` gives them.
pub open spec fn split_on(s: Seq<char>, c: char) -> Seq<Seq<char>>
    decreases s.len(),
{
    if s.len() == 0 {
        seq![Seq::empty()]
    } else {
        let p = split_on(s.drop_last(), c);
        if s.last() == c {
            p.push(Seq::empty())
        } else {
            p.update(p.len() - 1, p.last().push(s.last()))
        }
    }
}

pub proof fn lemma_split_nonempty(s: Seq<char>, c: char)
    ensures
        split_on(s, c).len() >= 1,
    decreases s.len(),
{
    if s.len() > 0 {
        lemma_split_nonempty(s.drop_last(), c);
    }
}

/// The lower-case form of a text.
pub uninterp spec fn lower_of(s: Seq<char>) -> Seq<char>;

/// Relies on `str::to_lowercase`, whose result depends on the text alone.
#[verifier::external_body]
fn lowercase(s: &str) -> (r: String)
    ensures
        r@ == lower_of(s@),
{
    s.to_lowercase()
}

/// The values of the `lang` parameters among the pieces of a query string.
pub open spec fn query_langs(pieces: Seq<Seq<char>>) -> Seq<Seq<char>>
    decreases pieces.len(),
{
    if pieces.len() == 0 {
        Seq::empty()
    } else {
        let rest = query_langs(pieces.drop_last());
        let kv = split_on(pieces.last(), '=');
        if kv[0] == "lang"@ && kv.len() > 1 {
            rest.push(kv[1])
        } else {
            rest
        }
    }
}

/// The language of one entry of an `Accept-Language` header: before any
/// `;` and any `-`, in lower case.
pub open spec fn accept_lang(entry: Seq<char>) -> Seq<char> {
    lower_of(split_on(split_on(entry, ';')[0], '-')[0])
}

pub open spec fn accept_langs(entries: Seq<Seq<char>>) -> Seq<Seq<char>>
    decreases entries.len(),
{
    if entries.len() == 0 {
        Seq::empty()
    } else {
        accept_langs(entries.drop_last()).push(accept_lang(entries.last()))
    }
}

/// A list with runs of equal neighbours cut to one.
pub open spec fn dedup(s: Seq<Seq<char>>) -> Seq<Seq<char>>
    decreases s.len(),
{
    if s.len() <= 1 {
        s
    } else if s.last() == s[s.len() - 2] {
        dedup(s.drop_last())
    } else {
        dedup(s.drop_last()).push(s.last())
    }
}

pub proof fn lemma_dedup_last(s: Seq<Seq<char>>)
    ensures
        s.len() > 0 ==> dedup(s).len() > 0 && dedup(s).last() == s.last(),
        s.len() == 0 ==> dedup(s).len() == 0,
    decreases s.len(),
{
    if s.len() > 1 {
        lemma_dedup_last(s.drop_last());
    }
}

/// The preferences of a request, most preferred first; none when it names
/// no language.
pub open spec fn lang_prefs(query: Option<Seq<char>>, accept: Option<Seq<char>>) -> Option<Seq<Seq<char>>> {
    let from_query = match query {
        Some(q) => query_langs(split_on(q, '&')),
        None => Seq::empty(),
    };
    let from_header = match accept {
        Some(a) => accept_langs(split_on(a, ',')),
        None => Seq::empty(),
    };
    let all = dedup(from_query + from_header);
    if all.len() == 0 {
        None
    } else {
        Some(all)
    }
}

/// Splits a text at each occurrence of `c`.
pub fn split_char(s: &str, c: char) -> (r: Vec<String>)
    ensures
        strings_view(r@) == split_on(s@, c),
{
    let n = s.unicode_len();
    let mut done: Vec<String> = Vec::new();
    let mut cur = String::new();
    let mut i: usize = 0;
    while i < n
        invariant
            n == s@.len(),
            0 <= i <= n,
            strings_view(done@).push(cur@) == split_on(s@.subrange(0, i as int), c),
        decreases n - i,
    {
        let x = s.get_char(i);
        let ghost prefix = s@.subrange(0, i + 1);
        proof {
            assert(prefix.drop_last() =~= s@.subrange(0, i as int));
            lemma_split_nonempty(s@.subrange(0, i as int), c);
        }
        if x == c {
            let ghost before = strings_view(done@).push(cur@);
            let piece = cur;
            done.push(piece);
            cur = String::new();
            assert(strings_view(done@) =~= before);
            assert(strings_view(done@).push(cur@) =~= before.push(Seq::empty()));
        } else {
            let ghost before = strings_view(done@).push(cur@);
            let ghost oc = cur@;
            cur.append(s.substring_char(i, i + 1));
            assert(s@.subrange(i as int, i + 1) =~= seq![x]);
            assert(cur@ =~= oc.push(x));
            assert(before.last() == oc);
            assert(strings_view(done@).push(cur@) =~= before.update(before.len() - 1, before.last().push(x)));
        }
        i = i + 1;
    }
    assert(s@.subrange(0, n as int) =~= s@);
    let ghost before = strings_view(done@).push(cur@);
    done.push(cur);
    assert(strings_view(done@) =~= before);
    done
}

/// The language preferences of a request, from its query string and its
/// `Accept-Language` header.
pub fn get_lang(query: Option<&str>, accept: Option<&str>) -> (r: Option<Vec<String>>)
    ensures
        match r {
            Some(v) => lang_prefs(
                match query {
                    Some(q) => Some(q@),
                    None => None,
                },
                match accept {
                    Some(a) => Some(a@),
                    None => None,
                },
            ) == Some(strings_view(v@)),
            None => lang_prefs(
                match query {
                    Some(q) => Some(q@),
                    None => None,
                },
                match accept {
                    Some(a) => Some(a@),
                    None => None,
                },
            ) is None,
        },
{
    let mut langs: Vec<String> = Vec::new();
    let ghost mut all: Seq<Seq<char>> = Seq::empty();
    match query {
        Some(q) => {
            let pieces = split_char(q, '&');
            let ghost ps = strings_view(pieces@);
            let mut i: usize = 0;
            while i < pieces.len()
                invariant
                    0 <= i <= pieces@.len(),
                    ps == strings_view(pieces@),
                    strings_view(langs@) == query_langs(ps.subrange(0, i as int)),
                decreases pieces.len() - i,
            {
                let kv = split_char(pieces[i].as_str(), '=');
                proof {
                    assert(ps.subrange(0, i + 1).drop_last() =~= ps.subrange(0, i as int));
                    lemma_split_nonempty(pieces@[i as int]@, '=');
                }
                let key = "lang".to_owned();
                if kv.len() > 1 && kv[0].eq(&key) {
                    let ghost before = strings_view(langs@);
                    langs.push(kv[1].clone());
                    assert(strings_view(langs@) =~= before.push(kv@[1]@));
                }
                i = i + 1;
            }
            assert(ps.subrange(0, pieces@.len() as int) =~= ps);
        },
        None => {},
    }
    let ghost from_query = strings_view(langs@);
    match accept {
        Some(a) => {
            let entries = split_char(a, ',');
            let ghost es = strings_view(entries@);
            let mut i: usize = 0;
            while i < entries.len()
                invariant
                    0 <= i <= entries@.len(),
                    es == strings_view(entries@),
                    strings_view(langs@) == from_query + accept_langs(es.subrange(0, i as int)),
                decreases entries.len() - i,
            {
                let e = entries[i].as_str();
                let head = split_char(e, ';');
                proof {
                    lemma_split_nonempty(e@, ';');
                }
                let tag = split_char(head[0].as_str(), '-');
                proof {
                    lemma_split_nonempty(head@[0]@, '-');
                }
                let l = lowercase(tag[0].as_str());
                let ghost before = strings_view(langs@);
                langs.push(l);
                proof {
                    assert(es.subrange(0, i + 1).drop_last() =~= es.subrange(0, i as int));
                    assert(strings_view(langs@) =~= before.push(accept_lang(es[i as int])));
                }
                i = i + 1;
            }
            assert(es.subrange(0, entries@.len() as int) =~= es);
        },
        None => {
            assert(from_query + Seq::<Seq<char>>::empty() =~= from_query);
        },
    }
    let ghost full = strings_view(langs@);
    let mut out: Vec<String> = Vec::new();
    let mut i: usize = 0;
    while i < langs.len()
        invariant
            0 <= i <= langs@.len(),
            full == strings_view(langs@),
            strings_view(out@) == dedup(full.subrange(0, i as int)),
        decreases langs.len() - i,
    {
        let ghost t = full.subrange(0, i + 1);
        proof {
            assert(t.drop_last() =~= full.subrange(0, i as int));
            lemma_dedup_last(full.subrange(0, i as int));
        }
        if i > 0 && langs[i].eq(&langs[i - 1]) {
            assert(t.last() == t[t.len() - 2]);
        } else {
            let ghost before = strings_view(out@);
            out.push(langs[i].clone());
            assert(strings_view(out@) =~= before.push(t.last()));
        }
        i = i + 1;
    }
    assert(full.subrange(0, langs@.len() as int) =~= full);
    if out.len() == 0 {
        None
    } else {
        Some(out)
    }
}

} // verus!
