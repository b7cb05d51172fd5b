//! The bounded binary format of stored values: little-endian integers, length-prefixed UTF-8
//! text, count-prefixed lists of text.
use vstd::prelude::*;
use vstd::slice::slice_subrange;
use vstd::string::*;
use vstd::utf8::*;

verus! {

broadcast use group_utf8_lib;

/// `e` stands in `b` at position `pos`.
#[verifier::opaque]
pub open spec fn starts_at(b: Seq<u8>, pos: int, e: Seq<u8>) -> bool {
    0 <= pos && pos + e.len() <= b.len() && b.subrange(pos, pos + e.len()) == e
}

pub proof fn lemma_starts_at_split(b: Seq<u8>, pos: int, e1: Seq<u8>, e2: Seq<u8>)
    requires
        starts_at(b, pos, e1 + e2),
    ensures
        starts_at(b, pos, e1),
        starts_at(b, pos + e1.len(), e2),
{
    reveal(starts_at);
    let whole = b.subrange(pos, pos + e1.len() + e2.len());
    assert(whole == e1 + e2);
    assert(b.subrange(pos, pos + e1.len()) =~= whole.subrange(0, e1.len() as int));
    assert(whole.subrange(0, e1.len() as int) =~= e1);
    assert(b.subrange(pos + e1.len(), pos + e1.len() + e2.len()) =~= whole.subrange(
        e1.len() as int,
        whole.len() as int,
    ));
    assert(whole.subrange(e1.len() as int, whole.len() as int) =~= e2);
}

/// Eight bytes, least significant first.
pub open spec fn enc_u64(x: u64) -> Seq<u8> {
    seq![
        x as u8, (x >> 8) as u8, (x >> 16) as u8, (x >> 24) as u8,
        (x >> 32) as u8, (x >> 40) as u8, (x >> 48) as u8, (x >> 56) as u8,
    ]
}

/// Four bytes, least significant first.
pub open spec fn enc_u32(x: u32) -> Seq<u8> {
    seq![x as u8, (x >> 8) as u8, (x >> 16) as u8, (x >> 24) as u8]
}

/// A text: its UTF-8 byte length as four bytes, then its UTF-8 bytes.
pub open spec fn enc_text(s: Seq<char>) -> Seq<u8> {
    enc_u32(encode_utf8(s).len() as u32) + encode_utf8(s)
}

/// The texts one after the other.
pub open spec fn enc_items(l: Seq<Seq<char>>) -> Seq<u8>
    decreases l.len(),
{
    if l.len() == 0 {
        Seq::empty()
    } else {
        enc_items(l.drop_last()) + enc_text(l.last())
    }
}

/// A list of texts: the count as four bytes, then the texts.
pub open spec fn enc_list(l: Seq<Seq<char>>) -> Seq<u8> {
    enc_u32(l.len() as u32) + enc_items(l)
}

/// A text that the format can hold: its UTF-8 form fits a four-byte length.
pub open spec fn text_fits(s: Seq<char>) -> bool {
    encode_utf8(s).len() <= u32::MAX
}

/// A list that the format can hold.
pub open spec fn list_fits(l: Seq<Seq<char>>) -> bool {
    l.len() <= u32::MAX && forall|i: int| 0 <= i < l.len() ==> text_fits(#[trigger] l[i])
}

pub fn put_u64(out: &mut Vec<u8>, x: u64)
    ensures
        final(out)@ == old(out)@ + enc_u64(x),
{
    out.push(x as u8);
    out.push((x >> 8) as u8);
    out.push((x >> 16) as u8);
    out.push((x >> 24) as u8);
    out.push((x >> 32) as u8);
    out.push((x >> 40) as u8);
    out.push((x >> 48) as u8);
    out.push((x >> 56) as u8);
    assert(out@ =~= old(out)@ + enc_u64(x));
}

pub fn put_u32(out: &mut Vec<u8>, x: u32)
    ensures
        final(out)@ == old(out)@ + enc_u32(x),
{
    out.push(x as u8);
    out.push((x >> 8) as u8);
    out.push((x >> 16) as u8);
    out.push((x >> 24) as u8);
    assert(out@ =~= old(out)@ + enc_u32(x));
}

fn put_bytes(out: &mut Vec<u8>, b: &[u8])
    ensures
        final(out)@ == old(out)@ + b@,
{
    let mut i: usize = 0;
    while i < b.len()
        invariant
            i <= b@.len(),
            out@ == old(out)@ + b@.subrange(0, i as int),
        decreases b@.len() - i,
    {
        out.push(b[i]);
        i = i + 1;
        assert(out@ =~= old(out)@ + b@.subrange(0, i as int));
    }
    assert(b@.subrange(0, i as int) =~= b@);
}

pub fn put_text(out: &mut Vec<u8>, s: &String)
    requires
        text_fits(s@),
    ensures
        final(out)@ == old(out)@ + enc_text(s@),
{
    let b = s.as_str().as_bytes();
    put_u32(out, b.len() as u32);
    put_bytes(out, b);
    assert(out@ =~= old(out)@ + enc_text(s@));
}

pub fn take_u64(b: &[u8], pos: usize) -> (r: Option<(u64, usize)>)
    ensures
        forall|x: u64| #[trigger] starts_at(b@, pos as int, enc_u64(x)) ==> r == Some((x, (pos + 8) as usize)),
        r matches Some((_, e)) ==> e == pos + 8 && e <= b@.len(),
{
    reveal(starts_at);
    if pos > b.len() || b.len() - pos < 8 {
        return None;
    }
    let b0 = b[pos] as u64;
    let b1 = b[pos + 1] as u64;
    let b2 = b[pos + 2] as u64;
    let b3 = b[pos + 3] as u64;
    let b4 = b[pos + 4] as u64;
    let b5 = b[pos + 5] as u64;
    let b6 = b[pos + 6] as u64;
    let b7 = b[pos + 7] as u64;
    let v = b0 | (b1 << 8) | (b2 << 16) | (b3 << 24) | (b4 << 32) | (b5 << 40) | (b6 << 48) | (
    b7 << 56);
    assert forall|x: u64| #[trigger] starts_at(b@, pos as int, enc_u64(x)) implies v == x by {
        let e = enc_u64(x);
        assert(b@.subrange(pos as int, pos + 8) == e);
        assert(b0 == (x as u8) as u64) by {
            assert(b@[pos as int] == b@.subrange(pos as int, pos + 8)[0]);
        }
        assert(b1 == ((x >> 8) as u8) as u64) by {
            assert(b@[pos + 1] == b@.subrange(pos as int, pos + 8)[1]);
        }
        assert(b2 == ((x >> 16) as u8) as u64) by {
            assert(b@[pos + 2] == b@.subrange(pos as int, pos + 8)[2]);
        }
        assert(b3 == ((x >> 24) as u8) as u64) by {
            assert(b@[pos + 3] == b@.subrange(pos as int, pos + 8)[3]);
        }
        assert(b4 == ((x >> 32) as u8) as u64) by {
            assert(b@[pos + 4] == b@.subrange(pos as int, pos + 8)[4]);
        }
        assert(b5 == ((x >> 40) as u8) as u64) by {
            assert(b@[pos + 5] == b@.subrange(pos as int, pos + 8)[5]);
        }
        assert(b6 == ((x >> 48) as u8) as u64) by {
            assert(b@[pos + 6] == b@.subrange(pos as int, pos + 8)[6]);
        }
        assert(b7 == ((x >> 56) as u8) as u64) by {
            assert(b@[pos + 7] == b@.subrange(pos as int, pos + 8)[7]);
        }
        assert((((x as u8) as u64) | ((((x >> 8) as u8) as u64) << 8) | ((((x >> 16) as u8) as u64)
            << 16) | ((((x >> 24) as u8) as u64) << 24) | ((((x >> 32) as u8) as u64) << 32) | ((((x
            >> 40) as u8) as u64) << 40) | ((((x >> 48) as u8) as u64) << 48) | ((((x >> 56) as u8)
            as u64) << 56)) == x) by (bit_vector);
    }
    Some((v, pos + 8))
}

pub fn take_u32(b: &[u8], pos: usize) -> (r: Option<(u32, usize)>)
    ensures
        forall|x: u32| #[trigger] starts_at(b@, pos as int, enc_u32(x)) ==> r == Some((x, (pos + 4) as usize)),
        r matches Some((_, e)) ==> e == pos + 4 && e <= b@.len(),
{
    reveal(starts_at);
    if pos > b.len() || b.len() - pos < 4 {
        return None;
    }
    let b0 = b[pos] as u32;
    let b1 = b[pos + 1] as u32;
    let b2 = b[pos + 2] as u32;
    let b3 = b[pos + 3] as u32;
    let v = b0 | (b1 << 8) | (b2 << 16) | (b3 << 24);
    assert forall|x: u32| #[trigger] starts_at(b@, pos as int, enc_u32(x)) implies v == x by {
        assert(b0 == (x as u8) as u32) by {
            assert(b@[pos as int] == b@.subrange(pos as int, pos + 4)[0]);
        }
        assert(b1 == ((x >> 8) as u8) as u32) by {
            assert(b@[pos + 1] == b@.subrange(pos as int, pos + 4)[1]);
        }
        assert(b2 == ((x >> 16) as u8) as u32) by {
            assert(b@[pos + 2] == b@.subrange(pos as int, pos + 4)[2]);
        }
        assert(b3 == ((x >> 24) as u8) as u32) by {
            assert(b@[pos + 3] == b@.subrange(pos as int, pos + 4)[3]);
        }
        assert((((x as u8) as u32) | ((((x >> 8) as u8) as u32) << 8) | ((((x >> 16) as u8) as u32)
            << 16) | ((((x >> 24) as u8) as u32) << 24)) == x) by (bit_vector);
    }
    Some((v, pos + 4))
}

/// Relies on `std::str::from_utf8`: it accepts exactly the valid UTF-8 byte strings, and the
/// text it gives back is made of those bytes.
#[verifier::external_body]
fn utf8_text(b: &[u8]) -> (r: Option<String>)
    ensures
        r is Some <==> valid_utf8(b@),
        r matches Some(s) ==> encode_utf8(s@) == b@,
{
    std::str::from_utf8(b).ok().map(|s| s.to_string())
}

pub fn take_text(b: &[u8], pos: usize) -> (r: Option<(String, usize)>)
    ensures
        forall|s: Seq<char>| #[trigger] starts_at(b@, pos as int, enc_text(s)) && text_fits(s) ==> {
            &&& r matches Some((t, e))
            &&& t@ == s
            &&& e == pos + enc_text(s).len()
        },
{
    reveal(starts_at);
    let (n, start) = match take_u32(b, pos) {
        Some(p) => p,
        None => {
            assert forall|s: Seq<char>| !(#[trigger] starts_at(b@, pos as int, enc_text(s)) && text_fits(s)) by {
                if starts_at(b@, pos as int, enc_text(s)) && text_fits(s) {
                    lemma_starts_at_split(b@, pos as int, enc_u32(encode_utf8(s).len() as u32), encode_utf8(s));
                }
            }
            return None;
        },
    };
    if b.len() - start < n as usize {
        assert forall|s: Seq<char>| !(#[trigger] starts_at(b@, pos as int, enc_text(s)) && text_fits(s)) by {
            if starts_at(b@, pos as int, enc_text(s)) && text_fits(s) {
                lemma_starts_at_split(b@, pos as int, enc_u32(encode_utf8(s).len() as u32), encode_utf8(s));
            }
        }
        return None;
    }
    let end = start + n as usize;
    let body = slice_subrange(b, start, end);
    match utf8_text(body) {
        Some(t) => {
            assert forall|s: Seq<char>| #[trigger] starts_at(b@, pos as int, enc_text(s)) && text_fits(s) implies t@ == s && end == pos + enc_text(s).len() by {
                let e = encode_utf8(s);
                lemma_starts_at_split(b@, pos as int, enc_u32(e.len() as u32), e);
                assert(b@.subrange(start as int, end as int) == e);
                assert(decode_utf8(encode_utf8(t@)) == t@);
            }
            Some((t, end))
        },
        None => {
            assert forall|s: Seq<char>| !(#[trigger] starts_at(b@, pos as int, enc_text(s)) && text_fits(s)) by {
                if starts_at(b@, pos as int, enc_text(s)) && text_fits(s) {
                    let e = encode_utf8(s);
                    lemma_starts_at_split(b@, pos as int, enc_u32(e.len() as u32), e);
                    assert(body@ == e);
                }
            }
            None
        },
    }
}

pub proof fn lemma_enc_items_append(a: Seq<Seq<char>>, c: Seq<Seq<char>>)
    ensures
        enc_items(a + c) == enc_items(a) + enc_items(c),
    decreases c.len(),
{
    if c.len() == 0 {
        assert(a + c =~= a);
        assert(enc_items(a) + enc_items(c) =~= enc_items(a));
    } else {
        lemma_enc_items_append(a, c.drop_last());
        assert((a + c).drop_last() =~= a + c.drop_last());
        assert(enc_items(a + c) =~= enc_items(a) + enc_items(c));
    }
}

pub proof fn lemma_enc_items_at(l: Seq<Seq<char>>, i: int)
    requires
        0 <= i < l.len(),
    ensures
        enc_items(l) == enc_items(l.take(i)) + (enc_text(l[i]) + enc_items(l.skip(i + 1))),
{
    lemma_enc_items_append(l.take(i + 1), l.skip(i + 1));
    assert(l.take(i + 1) + l.skip(i + 1) =~= l);
    assert(l.take(i + 1).drop_last() =~= l.take(i));
    assert(enc_items(l) =~= enc_items(l.take(i)) + (enc_text(l[i]) + enc_items(l.skip(i + 1))));
}

pub open spec fn texts_view(v: Seq<String>) -> Seq<Seq<char>> {
    v.map_values(|x: String| x@)
}

pub fn put_list(out: &mut Vec<u8>, l: &Vec<String>)
    requires
        list_fits(texts_view(l@)),
    ensures
        final(out)@ == old(out)@ + enc_list(texts_view(l@)),
{
    let ghost lv = texts_view(l@);
    put_u32(out, l.len() as u32);
    let ghost head = out@;
    let mut i: usize = 0;
    while i < l.len()
        invariant
            i <= l@.len(),
            lv == texts_view(l@),
            list_fits(lv),
            out@ == head + enc_items(lv.take(i as int)),
        decreases l@.len() - i,
    {
        assert(text_fits(lv[i as int]));
        put_text(out, &l[i]);
        assert(lv.take(i + 1).drop_last() =~= lv.take(i as int));
        i = i + 1;
    }
    assert(lv.take(i as int) =~= lv);
    assert(out@ =~= old(out)@ + enc_list(lv));
}

pub fn take_list(b: &[u8], pos: usize) -> (r: Option<(Vec<String>, usize)>)
    ensures
        forall|l: Seq<Seq<char>>| #[trigger] starts_at(b@, pos as int, enc_list(l)) && list_fits(l) ==> {
            &&& r matches Some((v, e))
            &&& texts_view(v@) == l
            &&& e == pos + enc_list(l).len()
        },
{
    let (n, start) = match take_u32(b, pos) {
        Some(p) => p,
        None => {
            assert forall|l: Seq<Seq<char>>| !#[trigger] starts_at(b@, pos as int, enc_list(l)) by {
                if starts_at(b@, pos as int, enc_list(l)) {
                    lemma_starts_at_split(b@, pos as int, enc_u32(l.len() as u32), enc_items(l));
                }
            }
            return None;
        },
    };
    let mut out: Vec<String> = Vec::new();
    let mut at: usize = start;
    assert forall|l: Seq<Seq<char>>| #[trigger] starts_at(b@, pos as int, enc_list(l)) && list_fits(l) implies l.len() == n by {
        lemma_starts_at_split(b@, pos as int, enc_u32(l.len() as u32), enc_items(l));
    }
    assert(Seq::<Seq<char>>::empty() =~= texts_view(out@));
    let mut i: u32 = 0;
    while i < n
        invariant
            i <= n,
            start == pos + 4,
            forall|l: Seq<Seq<char>>| #[trigger] starts_at(b@, pos as int, enc_list(l)) && list_fits(l) ==> {
                &&& l.len() == n
                &&& texts_view(out@) == l.take(i as int)
                &&& at == start + enc_items(l.take(i as int)).len()
            },
        decreases n - i,
    {
        match take_text(b, at) {
            Some((t, next)) => {
                assert forall|l: Seq<Seq<char>>| #[trigger] starts_at(b@, pos as int, enc_list(l)) && list_fits(l) implies {
                    &&& texts_view(out@.push(t)) == l.take(i + 1)
                    &&& next == start + enc_items(l.take(i + 1)).len()
                } by {
                    lemma_starts_at_split(b@, pos as int, enc_u32(l.len() as u32), enc_items(l));
                    lemma_enc_items_at(l, i as int);
                    lemma_starts_at_split(b@, start as int, enc_items(l.take(i as int)), enc_text(l[i as int]) + enc_items(l.skip(i + 1)));
                    lemma_starts_at_split(b@, at as int, enc_text(l[i as int]), enc_items(l.skip(i + 1)));
                    assert(text_fits(l[i as int]));
                    assert(l.take(i + 1).drop_last() =~= l.take(i as int));
                    assert(texts_view(out@.push(t)) =~= l.take(i + 1));
                }
                out.push(t);
                at = next;
            },
            None => {
                assert forall|l: Seq<Seq<char>>| !(#[trigger] starts_at(b@, pos as int, enc_list(l)) && list_fits(l)) by {
                    if starts_at(b@, pos as int, enc_list(l)) && list_fits(l) {
                        lemma_starts_at_split(b@, pos as int, enc_u32(l.len() as u32), enc_items(l));
                        lemma_enc_items_at(l, i as int);
                        lemma_starts_at_split(b@, start as int, enc_items(l.take(i as int)), enc_text(l[i as int]) + enc_items(l.skip(i + 1)));
                        lemma_starts_at_split(b@, at as int, enc_text(l[i as int]), enc_items(l.skip(i + 1)));
                        assert(text_fits(l[i as int]));
                    }
                }
                return None;
            },
        }
        i = i + 1;
    }
    assert forall|l: Seq<Seq<char>>| #[trigger] starts_at(b@, pos as int, enc_list(l)) && list_fits(l) implies {
        &&& texts_view(out@) == l
        &&& at == pos + enc_list(l).len()
    } by {
        assert(l.take(n as int) =~= l);
    }
    Some((out, at))
}

/// Whether the format can hold the text.
pub fn text_ok(s: &String) -> (r: bool)
    ensures
        r == text_fits(s@),
{
    let b = s.as_str().as_bytes();
    (b.len() as u64) <= 4294967295u64
}

pub fn list_ok(l: &Vec<String>) -> (r: bool)
    ensures
        r == list_fits(texts_view(l@)),
{
    if (l.len() as u64) > 4294967295u64 {
        return false;
    }
    let mut i: usize = 0;
    while i < l.len()
        invariant
            i <= l@.len(),
            forall|k: int| 0 <= k < i ==> text_fits(#[trigger] texts_view(l@)[k]),
        decreases l@.len() - i,
    {
        if !text_ok(&l[i]) {
            assert(!text_fits(texts_view(l@)[i as int]));
            return false;
        }
        i = i + 1;
    }
    true
}

/// Whether two byte strings are equal.
pub fn same_bytes(a: &Vec<u8>, b: &Vec<u8>) -> (r: bool)
    ensures
        r == (a@ == b@),
{
    if a.len() != b.len() {
        return false;
    }
    let mut i: usize = 0;
    while i < a.len()
        invariant
            i <= a@.len(),
            a@.len() == b@.len(),
            forall|k: int| 0 <= k < i ==> a@[k] == b@[k],
        decreases a@.len() - i,
    {
        if a[i] != b[i] {
            assert(a@[i as int] != b@[i as int]);
            return false;
        }
        i = i + 1;
    }
    assert(a@ =~= b@);
    true
}

} // verus!
