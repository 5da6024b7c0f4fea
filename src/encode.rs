//! A canonical, prefix-free byte encoding of plain values, and the 64-bit
//! digest that turns such an encoding into a fingerprint.
use vstd::prelude::*;

verus! {

/// Little-endian bytes of a 64-bit integer.
pub open spec fn u64_bytes(n: u64) -> Seq<u8> {
    seq![
        n as u8,
        (n >> 8u64) as u8,
        (n >> 16u64) as u8,
        (n >> 24u64) as u8,
        (n >> 32u64) as u8,
        (n >> 40u64) as u8,
        (n >> 48u64) as u8,
        (n >> 56u64) as u8,
    ]
}

/// Little-endian bytes of a 32-bit integer.
pub open spec fn u32_bytes(n: u32) -> Seq<u8> {
    seq![n as u8, (n >> 8u32) as u8, (n >> 16u32) as u8, (n >> 24u32) as u8]
}

/// Each character as the four bytes of its scalar value.
pub open spec fn chars_bytes(s: Seq<char>) -> Seq<u8>
    decreases s.len(),
{
    if s.len() == 0 {
        Seq::empty()
    } else {
        chars_bytes(s.drop_last()) + u32_bytes(s.last() as u32)
    }
}

/// A string: its length in characters, then its characters.
pub open spec fn str_bytes(s: Seq<char>) -> Seq<u8> {
    u64_bytes(s.len() as u64) + chars_bytes(s)
}

/// An optional string: a presence tag, then the string if present.
pub open spec fn opt_str_bytes(s: Option<Seq<char>>) -> Seq<u8> {
    match s {
        None => seq![0u8],
        Some(t) => seq![1u8] + str_bytes(t),
    }
}

/// A list of strings: its length, then each string.
pub open spec fn strs_bytes(l: Seq<Seq<char>>) -> Seq<u8> {
    u64_bytes(l.len() as u64) + strs_body(l)
}

pub open spec fn strs_body(l: Seq<Seq<char>>) -> Seq<u8>
    decreases l.len(),
{
    if l.len() == 0 {
        Seq::empty()
    } else {
        strs_body(l.drop_last()) + str_bytes(l.last())
    }
}

pub open spec fn strings_view(v: Seq<String>) -> Seq<Seq<char>> {
    v.map_values(|s: String| s@)
}

/// The digest of a byte sequence, as computed by std's default hasher.
pub uninterp spec fn digest_of(b: Seq<u8>) -> u64;

/// Relies on `std::collections::hash_map::DefaultHasher`: `new` always starts
/// from the same keys, so the digest depends on the bytes written alone.
#[verifier::external_body]
pub(crate) fn digest(bytes: &Vec<u8>) -> (r: u64)
    ensures
        r == digest_of(bytes@),
{
    let mut h = std::collections::hash_map::DefaultHasher::new();
    std::hash::Hasher::write(&mut h, bytes.as_slice());
    std::hash::Hasher::finish(&h)
}

pub fn push_u64(out: &mut Vec<u8>, n: u64)
    ensures
        final(out)@ == old(out)@ + u64_bytes(n),
{
    out.push(n as u8);
    out.push((n >> 8u64) as u8);
    out.push((n >> 16u64) as u8);
    out.push((n >> 24u64) as u8);
    out.push((n >> 32u64) as u8);
    out.push((n >> 40u64) as u8);
    out.push((n >> 48u64) as u8);
    out.push((n >> 56u64) as u8);
    assert(final(out)@ =~= old(out)@ + u64_bytes(n));
}

pub fn push_u32(out: &mut Vec<u8>, n: u32)
    ensures
        final(out)@ == old(out)@ + u32_bytes(n),
{
    out.push(n as u8);
    out.push((n >> 8u32) as u8);
    out.push((n >> 16u32) as u8);
    out.push((n >> 24u32) as u8);
    assert(final(out)@ =~= old(out)@ + u32_bytes(n));
}

pub fn push_str(out: &mut Vec<u8>, s: &String)
    ensures
        final(out)@ == old(out)@ + str_bytes(s@),
{
    let n = s.as_str().unicode_len();
    push_u64(out, n as u64);
    let ghost start = out@;
    let mut i: usize = 0;
    while i < n
        invariant
            n == s@.len(),
            0 <= i <= n,
            out@ == start + chars_bytes(s@.subrange(0, i as int)),
        decreases n - i,
    {
        let c = s.as_str().get_char(i);
        push_u32(out, c as u32);
        proof {
            let t = s@.subrange(0, i + 1);
            assert(t.drop_last() =~= s@.subrange(0, i as int));
        }
        i = i + 1;
    }
    assert(s@.subrange(0, n as int) =~= s@);
    assert(out@ =~= old(out)@ + str_bytes(s@));
}

pub fn push_opt_str(out: &mut Vec<u8>, s: &Option<String>)
    ensures
        final(out)@ == old(out)@ + opt_str_bytes(
            match s {
                None => None,
                Some(t) => Some(t@),
            },
        ),
{
    match s {
        None => {
            out.push(0u8);
            assert(out@ =~= old(out)@ + seq![0u8]);
        },
        Some(t) => {
            out.push(1u8);
            push_str(out, t);
            assert(out@ =~= old(out)@ + (seq![1u8] + str_bytes(t@)));
        },
    }
}

pub fn push_strs(out: &mut Vec<u8>, l: &Vec<String>)
    ensures
        final(out)@ == old(out)@ + strs_bytes(strings_view(l@)),
{
    push_u64(out, l.len() as u64);
    let ghost start = out@;
    let mut i: usize = 0;
    while i < l.len()
        invariant
            0 <= i <= l.len(),
            out@ == start + strs_body(strings_view(l@).subrange(0, i as int)),
        decreases l.len() - i,
    {
        push_str(out, &l[i]);
        proof {
            let t = strings_view(l@).subrange(0, i + 1);
            assert(t.drop_last() =~= strings_view(l@).subrange(0, i as int));
        }
        i = i + 1;
    }
    assert(strings_view(l@).subrange(0, l.len() as int) =~= strings_view(l@));
    assert(strings_view(l@).len() == l@.len());
    assert(out@ =~= old(out)@ + strs_bytes(strings_view(l@)));
}

proof fn lemma_u64_bytes_injective(a: u64, b: u64)
    requires
        u64_bytes(a) == u64_bytes(b),
    ensures
        a == b,
{
    assert(u64_bytes(a)[0] == u64_bytes(b)[0]);
    assert(u64_bytes(a)[1] == u64_bytes(b)[1]);
    assert(u64_bytes(a)[2] == u64_bytes(b)[2]);
    assert(u64_bytes(a)[3] == u64_bytes(b)[3]);
    assert(u64_bytes(a)[4] == u64_bytes(b)[4]);
    assert(u64_bytes(a)[5] == u64_bytes(b)[5]);
    assert(u64_bytes(a)[6] == u64_bytes(b)[6]);
    assert(u64_bytes(a)[7] == u64_bytes(b)[7]);
    assert(a == b) by (bit_vector)
        requires
            a as u8 == b as u8,
            (a >> 8u64) as u8 == (b >> 8u64) as u8,
            (a >> 16u64) as u8 == (b >> 16u64) as u8,
            (a >> 24u64) as u8 == (b >> 24u64) as u8,
            (a >> 32u64) as u8 == (b >> 32u64) as u8,
            (a >> 40u64) as u8 == (b >> 40u64) as u8,
            (a >> 48u64) as u8 == (b >> 48u64) as u8,
            (a >> 56u64) as u8 == (b >> 56u64) as u8,
    ;
}

proof fn lemma_u32_bytes_injective(a: u32, b: u32)
    requires
        u32_bytes(a) == u32_bytes(b),
    ensures
        a == b,
{
    assert(u32_bytes(a)[0] == u32_bytes(b)[0]);
    assert(u32_bytes(a)[1] == u32_bytes(b)[1]);
    assert(u32_bytes(a)[2] == u32_bytes(b)[2]);
    assert(u32_bytes(a)[3] == u32_bytes(b)[3]);
    assert(a == b) by (bit_vector)
        requires
            a as u8 == b as u8,
            (a >> 8u32) as u8 == (b >> 8u32) as u8,
            (a >> 16u32) as u8 == (b >> 16u32) as u8,
            (a >> 24u32) as u8 == (b >> 24u32) as u8,
    ;
}

/// Two concatenations with first parts of equal length agree part by part.
proof fn lemma_split_eq(a: Seq<u8>, b: Seq<u8>, c: Seq<u8>, d: Seq<u8>)
    requires
        a + b == c + d,
        a.len() == c.len(),
    ensures
        a == c,
        b == d,
{
    assert(a =~= (a + b).subrange(0, a.len() as int));
    assert(c =~= (c + d).subrange(0, c.len() as int));
    assert(b =~= (a + b).subrange(a.len() as int, (a + b).len() as int));
    assert(d =~= (c + d).subrange(c.len() as int, (c + d).len() as int));
}

proof fn lemma_chars_bytes_len(s: Seq<char>)
    ensures
        chars_bytes(s).len() == 4 * s.len(),
    decreases s.len(),
{
    if s.len() > 0 {
        lemma_chars_bytes_len(s.drop_last());
    }
}

pub proof fn lemma_char_u32_injective(a: char, b: char)
    ensures
        (a as u32) == (b as u32) ==> a == b,
{
}

proof fn lemma_chars_bytes_injective(s: Seq<char>, t: Seq<char>)
    requires
        s.len() == t.len(),
        chars_bytes(s) == chars_bytes(t),
    ensures
        s == t,
    decreases s.len(),
{
    if s.len() > 0 {
        lemma_chars_bytes_len(s.drop_last());
        lemma_chars_bytes_len(t.drop_last());
        lemma_split_eq(
            chars_bytes(s.drop_last()),
            u32_bytes(s.last() as u32),
            chars_bytes(t.drop_last()),
            u32_bytes(t.last() as u32),
        );
        lemma_u32_bytes_injective(s.last() as u32, t.last() as u32);
        lemma_char_u32_injective(s.last(), t.last());
        lemma_chars_bytes_injective(s.drop_last(), t.drop_last());
        assert(s =~= s.drop_last().push(s.last()));
        assert(t =~= t.drop_last().push(t.last()));
    } else {
        assert(s =~= t);
    }
}

/// A string's bytes determine the string, and where they end.
pub proof fn lemma_str_bytes_prefix(a: Seq<char>, b: Seq<char>, x: Seq<u8>, y: Seq<u8>)
    requires
        a.len() <= u64::MAX,
        b.len() <= u64::MAX,
        str_bytes(a) + x == str_bytes(b) + y,
    ensures
        a == b,
        x == y,
{
    let ea = str_bytes(a) + x;
    let eb = str_bytes(b) + y;
    assert(ea =~= u64_bytes(a.len() as u64) + (chars_bytes(a) + x));
    assert(eb =~= u64_bytes(b.len() as u64) + (chars_bytes(b) + y));
    lemma_split_eq(u64_bytes(a.len() as u64), chars_bytes(a) + x, u64_bytes(b.len() as u64), chars_bytes(b) + y);
    lemma_u64_bytes_injective(a.len() as u64, b.len() as u64);
    lemma_chars_bytes_len(a);
    lemma_chars_bytes_len(b);
    lemma_split_eq(chars_bytes(a), x, chars_bytes(b), y);
    lemma_chars_bytes_injective(a, b);
}

/// An optional string's bytes determine it, and where they end.
pub proof fn lemma_opt_str_bytes_prefix(a: Option<Seq<char>>, b: Option<Seq<char>>, x: Seq<u8>, y: Seq<u8>)
    requires
        a matches Some(s) ==> s.len() <= u64::MAX,
        b matches Some(s) ==> s.len() <= u64::MAX,
        opt_str_bytes(a) + x == opt_str_bytes(b) + y,
    ensures
        a == b,
        x == y,
{
    let ea = opt_str_bytes(a) + x;
    let eb = opt_str_bytes(b) + y;
    assert(ea[0] == eb[0]);
    match (a, b) {
        (Some(s), Some(t)) => {
            assert(ea =~= seq![1u8] + (str_bytes(s) + x));
            assert(eb =~= seq![1u8] + (str_bytes(t) + y));
            lemma_split_eq(seq![1u8], str_bytes(s) + x, seq![1u8], str_bytes(t) + y);
            lemma_str_bytes_prefix(s, t, x, y);
        },
        (None, None) => {
            lemma_split_eq(seq![0u8], x, seq![0u8], y);
        },
        (Some(s), None) => {
            assert(ea =~= seq![1u8] + (str_bytes(s) + x));
            assert(eb =~= seq![0u8] + y);
            assert(ea[0] == 1u8 && eb[0] == 0u8);
        },
        (None, Some(t)) => {
            assert(ea =~= seq![0u8] + x);
            assert(eb =~= seq![1u8] + (str_bytes(t) + y));
            assert(ea[0] == 0u8 && eb[0] == 1u8);
        },
    }
}

} // verus!
