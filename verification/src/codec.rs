//! Byte encoding of record fields.
//!
//! Records are persisted as byte strings: integers little-endian, strings as
//! a length prefix followed by their UTF-8 bytes, lists as a count prefix
//! followed by the items.  Every decoder is exact: it returns a value if and
//! only if the bytes at the given position are that value's encoding.
use vstd::bytes::lemma_auto_spec_u32_to_from_le_bytes;
use vstd::bytes::lemma_auto_spec_u64_to_from_le_bytes;
use vstd::bytes::spec_u32_from_le_bytes;
use vstd::bytes::spec_u32_to_le_bytes;
use vstd::bytes::spec_u64_to_le_bytes;
use vstd::bytes::u32_from_le_bytes;
use vstd::bytes::u32_to_le_bytes;
use vstd::bytes::u64_from_le_bytes;
use vstd::bytes::u64_to_le_bytes;
use vstd::prelude::*;
use vstd::slice::slice_subrange;
use vstd::slice::slice_to_vec;
use vstd::utf8::decode_utf8;
use vstd::utf8::decode_utf8_encode_utf8;
use vstd::utf8::encode_utf8;
use vstd::utf8::encode_utf8_decode_utf8;
use vstd::utf8::encode_utf8_valid_utf8;
use vstd::utf8::valid_utf8;

verus! {

/// Little-endian bytes of a 64-bit value.
pub open spec fn enc_u64(v: u64) -> Seq<u8> {
    spec_u64_to_le_bytes(v)
}

/// Little-endian bytes of a 32-bit value.
pub open spec fn enc_u32(v: u32) -> Seq<u8> {
    spec_u32_to_le_bytes(v)
}

/// A character sequence whose UTF-8 byte length fits the length prefix.
/// Every character sequence read off a real string satisfies this.
pub open spec fn str_fits(s: Seq<char>) -> bool {
    encode_utf8(s).len() <= u64::MAX
}

/// Length-prefixed UTF-8 bytes of a string.
pub open spec fn enc_str(s: Seq<char>) -> Seq<u8> {
    enc_u64(encode_utf8(s).len() as u64) + encode_utf8(s)
}

/// A tag byte, then the value if present.
pub open spec fn enc_opt_u64(v: Option<u64>) -> Seq<u8> {
    match v {
        Option::None => seq![0u8],
        Option::Some(x) => seq![1u8] + enc_u64(x),
    }
}

pub proof fn lemma_enc_u64(v: u64)
    ensures
        enc_u64(v).len() == 8,
        forall|w: u64| enc_u64(v) == enc_u64(w) ==> v == w,
{
    lemma_auto_spec_u64_to_from_le_bytes();
}

pub proof fn lemma_enc_u32(v: u32)
    ensures
        enc_u32(v).len() == 4,
        forall|w: u32| enc_u32(v) == enc_u32(w) ==> v == w,
{
    lemma_auto_spec_u32_to_from_le_bytes();
    assert forall|w: u32| enc_u32(v) == enc_u32(w) implies v == w by {
        assert(spec_u32_to_le_bytes(v).len() == 4);
        assert(spec_u32_to_le_bytes(w).len() == 4);
        assert(spec_u32_from_le_bytes(spec_u32_to_le_bytes(v)) == v);
        assert(spec_u32_from_le_bytes(spec_u32_to_le_bytes(w)) == w);
    }
}

/// Appends the encoding of a 64-bit value.
pub fn put_u64(out: &mut Vec<u8>, v: u64)
    ensures
        final(out)@ == old(out)@ + enc_u64(v),
{
    let mut bs = u64_to_le_bytes(v);
    out.append(&mut bs);
}

/// Appends the encoding of a 32-bit value.
pub fn put_u32(out: &mut Vec<u8>, v: u32)
    ensures
        final(out)@ == old(out)@ + enc_u32(v),
{
    let mut bs = u32_to_le_bytes(v);
    out.append(&mut bs);
}

/// Appends the encoding of a string.
pub fn put_str(out: &mut Vec<u8>, s: &str)
    ensures
        final(out)@ == old(out)@ + enc_str(s@),
        str_fits(s@),
{
    let bs: &[u8] = s.as_bytes();
    put_u64(out, bs.len() as u64);
    out.extend_from_slice(bs);
    proof {
        assert(out@ =~= old(out)@ + enc_str(s@));
    }
}

/// Appends the encoding of an optional 64-bit value.
pub fn put_opt_u64(out: &mut Vec<u8>, v: &Option<u64>)
    ensures
        final(out)@ == old(out)@ + enc_opt_u64(*v),
{
    match v {
        Option::None => {
            out.push(0u8);
            proof {
                assert(out@ =~= old(out)@ + enc_opt_u64(Option::<u64>::None));
            }
        },
        Option::Some(x) => {
            out.push(1u8);
            put_u64(out, *x);
            proof {
                assert(out@ =~= old(out)@ + enc_opt_u64(Option::Some(*x)));
            }
        },
    }
}

/// Reads a 64-bit value; succeeds exactly when eight bytes remain.
pub fn take_u64(bytes: &Vec<u8>, pos: usize) -> (r: Option<(u64, usize)>)
    requires
        pos <= bytes@.len(),
    ensures
        r is Some <==> pos + 8 <= bytes@.len(),
        r matches Some((v, end)) ==> end == pos + 8 && bytes@.subrange(
            pos as int,
            end as int,
        ) == enc_u64(v),
{
    if bytes.len() - pos >= 8 {
        let sl = slice_subrange(bytes.as_slice(), pos, pos + 8);
        let v = u64_from_le_bytes(sl);
        proof {
            lemma_auto_spec_u64_to_from_le_bytes();
        }
        Some((v, pos + 8))
    } else {
        None
    }
}

/// Reads a 32-bit value; succeeds exactly when four bytes remain.
pub fn take_u32(bytes: &Vec<u8>, pos: usize) -> (r: Option<(u32, usize)>)
    requires
        pos <= bytes@.len(),
    ensures
        r is Some <==> pos + 4 <= bytes@.len(),
        r matches Some((v, end)) ==> end == pos + 4 && bytes@.subrange(
            pos as int,
            end as int,
        ) == enc_u32(v),
{
    if bytes.len() - pos >= 4 {
        let sl = slice_subrange(bytes.as_slice(), pos, pos + 4);
        let v = u32_from_le_bytes(sl);
        proof {
            lemma_auto_spec_u32_to_from_le_bytes();
        }
        Some((v, pos + 4))
    } else {
        None
    }
}

/// Relies on `String::from_utf8`: returns the string of the given bytes
/// exactly when they are valid UTF-8.
#[verifier::external_body]
fn string_from_utf8(bytes: Vec<u8>) -> (r: Option<String>)
    ensures
        r is Some <==> valid_utf8(bytes@),
        r matches Some(s) ==> s@ == decode_utf8(bytes@),
{
    String::from_utf8(bytes).ok()
}

/// Reads a string: a value is returned if and only if a string's encoding
/// stands at `pos`, and then it is that string.
pub fn take_str(bytes: &Vec<u8>, pos: usize) -> (r: Option<(String, usize)>)
    requires
        pos <= bytes@.len(),
    ensures
        r matches Some((s, end)) ==> pos <= end <= bytes@.len() && str_fits(s@) && bytes@.subrange(
            pos as int,
            end as int,
        ) == enc_str(s@),
        forall|cs: Seq<char>|
            str_fits(cs) && pos + enc_str(cs).len() <= bytes@.len() && bytes@.subrange(
                pos as int,
                pos as int + enc_str(cs).len() as int,
            ) == enc_str(cs) ==> (r matches Some((s, end)) && s@ == cs && end == pos + enc_str(
                cs,
            ).len()),
{
    proof {
        lemma_auto_spec_u64_to_from_le_bytes();
    }
    match take_u64(bytes, pos) {
        None => {
            assert forall|cs: Seq<char>|
                str_fits(cs) && pos + enc_str(cs).len() <= bytes@.len() implies !(bytes@.subrange(
                pos as int,
                pos as int + enc_str(cs).len() as int,
            ) == enc_str(cs)) by {
                assert(enc_str(cs).len() >= 8);
            }
            None
        },
        Some((n, p1)) => {
            let rem = bytes.len() - p1;
            if n <= rem as u64 {
                let nn = n as usize;
                let sl = slice_subrange(bytes.as_slice(), p1, p1 + nn);
                let bv = slice_to_vec(sl);
                match string_from_utf8(bv) {
                    None => {
                        proof {
                            assert forall|cs: Seq<char>|
                                str_fits(cs) && pos + enc_str(cs).len() <= bytes@.len()
                                    && bytes@.subrange(
                                    pos as int,
                                    pos as int + enc_str(cs).len() as int,
                                ) == enc_str(cs) implies false by {
                                lemma_take_str_pattern(bytes@, pos as int, cs, n, nn as int);
                                encode_utf8_valid_utf8(cs);
                            }
                        }
                        None
                    },
                    Some(s) => {
                        proof {
                            let b = bytes@.subrange(p1 as int, p1 as int + nn as int);
                            decode_utf8_encode_utf8(b);
                            assert(encode_utf8(s@) == b);
                            assert(bytes@.subrange(pos as int, p1 as int + nn as int)
                                =~= bytes@.subrange(pos as int, p1 as int) + b);
                            assert(bytes@.subrange(pos as int, p1 as int + nn as int) == enc_str(
                                s@,
                            ));
                            assert forall|cs: Seq<char>|
                                str_fits(cs) && pos + enc_str(cs).len() <= bytes@.len()
                                    && bytes@.subrange(
                                    pos as int,
                                    pos as int + enc_str(cs).len() as int,
                                ) == enc_str(cs) implies s@ == cs && p1 + nn == pos + enc_str(
                                cs,
                            ).len() by {
                                lemma_take_str_pattern(bytes@, pos as int, cs, n, nn as int);
                                encode_utf8_decode_utf8(cs);
                            }
                        }
                        Some((s, p1 + nn))
                    },
                }
            } else {
                assert forall|cs: Seq<char>|
                    str_fits(cs) && pos + enc_str(cs).len() <= bytes@.len() && bytes@.subrange(
                        pos as int,
                        pos as int + enc_str(cs).len() as int,
                    ) == enc_str(cs) implies false by {
                    lemma_take_str_pattern(bytes@, pos as int, cs, n, (bytes@.len() - p1) as int);
                    assert(enc_str(cs).len() == 8 + encode_utf8(cs).len());
                }
                None
            }
        },
    }
}

/// Reads an optional 64-bit value: a value is returned if and only if such
/// an encoding stands at `pos`, and then it is that value.
pub fn take_opt_u64(bytes: &Vec<u8>, pos: usize) -> (r: Option<(Option<u64>, usize)>)
    requires
        pos <= bytes@.len(),
    ensures
        r matches Some((v, end)) ==> pos < end <= bytes@.len() && bytes@.subrange(
            pos as int,
            end as int,
        ) == enc_opt_u64(v),
        forall|ov: Option<u64>|
            pos + enc_opt_u64(ov).len() <= bytes@.len() && bytes@.subrange(
                pos as int,
                pos as int + enc_opt_u64(ov).len() as int,
            ) == enc_opt_u64(ov) ==> (r matches Some((v, end)) && v == ov && end == pos
                + enc_opt_u64(ov).len()),
{
    proof {
        lemma_auto_spec_u64_to_from_le_bytes();
    }
    if pos < bytes.len() {
        let tag = bytes[pos];
        proof {
            assert(bytes@.subrange(pos as int, pos as int + 1) =~= seq![bytes@[pos as int]]);
            assert forall|ov: Option<u64>|
                pos + enc_opt_u64(ov).len() <= bytes@.len() && bytes@.subrange(
                    pos as int,
                    pos as int + enc_opt_u64(ov).len() as int,
                ) == enc_opt_u64(ov) implies bytes@[pos as int] == enc_opt_u64(ov)[0] by {
                lemma_enc_opt_u64_shape(ov);
            }
        }
        if tag == 0 {
            Some((None, pos + 1))
        } else if tag == 1 {
            match take_u64(bytes, pos + 1) {
                None => {
                    proof {
                        assert forall|ov: Option<u64>|
                            pos + enc_opt_u64(ov).len() <= bytes@.len() && bytes@.subrange(
                                pos as int,
                                pos as int + enc_opt_u64(ov).len() as int,
                            ) == enc_opt_u64(ov) implies false by {
                            lemma_enc_opt_u64_shape(ov);
                        }
                    }
                    None
                },
                Some((v, end)) => {
                    proof {
                        assert(bytes@.subrange(pos as int, end as int) =~= bytes@.subrange(
                            pos as int,
                            pos as int + 1,
                        ) + bytes@.subrange(pos as int + 1, end as int));
                        assert(bytes@.subrange(pos as int, end as int) == enc_opt_u64(
                            Option::Some(v),
                        ));
                        assert forall|ov: Option<u64>|
                            pos + enc_opt_u64(ov).len() <= bytes@.len() && bytes@.subrange(
                                pos as int,
                                pos as int + enc_opt_u64(ov).len() as int,
                            ) == enc_opt_u64(ov) implies ov == Option::Some(v) by {
                            lemma_enc_opt_u64_shape(ov);
                            if let Option::Some(x) = ov {
                                assert(bytes@.subrange(pos as int, pos as int + 9).subrange(1, 9)
                                    =~= bytes@.subrange(pos as int + 1, pos as int + 9));
                                assert(enc_u64(x) == enc_u64(v));
                            }
                        }
                    }
                    Some((Some(v), end))
                },
            }
        } else {
            proof {
                assert forall|ov: Option<u64>|
                    pos + enc_opt_u64(ov).len() <= bytes@.len() && bytes@.subrange(
                        pos as int,
                        pos as int + enc_opt_u64(ov).len() as int,
                    ) == enc_opt_u64(ov) implies false by {
                    lemma_enc_opt_u64_shape(ov);
                }
            }
            None
        }
    } else {
        proof {
            assert forall|ov: Option<u64>|
                pos + enc_opt_u64(ov).len() <= bytes@.len() implies false by {
                lemma_enc_opt_u64_shape(ov);
            }
        }
        None
    }
}

/// The length and leading byte of an optional value's encoding.
pub proof fn lemma_enc_opt_u64_shape(ov: Option<u64>)
    ensures
        ov is None ==> enc_opt_u64(ov).len() == 1 && enc_opt_u64(ov)[0] == 0,
        ov matches Some(x) ==> enc_opt_u64(ov).len() == 9 && enc_opt_u64(ov)[0] == 1
            && enc_opt_u64(ov).subrange(1, 9) == enc_u64(x),
{
    lemma_auto_spec_u64_to_from_le_bytes();
    match ov {
        Option::None => {
        },
        Option::Some(x) => {
            assert((seq![1u8] + enc_u64(x)).subrange(1, 9) =~= enc_u64(x));
        },
    }
}

/// Fixed-width bytes of a list of exactly six 32-bit values.
pub open spec fn enc_six_u32(l: Seq<u32>) -> Seq<u8> {
    enc_u32(l[0]) + enc_u32(l[1]) + enc_u32(l[2]) + enc_u32(l[3]) + enc_u32(l[4]) + enc_u32(l[5])
}

/// Two six-item lists with the same bytes are the same list.
pub proof fn lemma_enc_six_u32_inj(a: Seq<u32>, b: Seq<u32>)
    requires
        a.len() == 6,
        b.len() == 6,
        enc_six_u32(a) == enc_six_u32(b),
    ensures
        a =~= b,
{
    lemma_auto_spec_u32_to_from_le_bytes();
    let ea = enc_six_u32(a);
    let eb = enc_six_u32(b);
    assert forall|k: int| 0 <= k < 6 implies a[k] == b[k] by {
        assert(ea.subrange(0, 4) =~= enc_u32(a[0]) && eb.subrange(0, 4) =~= enc_u32(b[0]));
        assert(ea.subrange(4, 8) =~= enc_u32(a[1]) && eb.subrange(4, 8) =~= enc_u32(b[1]));
        assert(ea.subrange(8, 12) =~= enc_u32(a[2]) && eb.subrange(8, 12) =~= enc_u32(b[2]));
        assert(ea.subrange(12, 16) =~= enc_u32(a[3]) && eb.subrange(12, 16) =~= enc_u32(b[3]));
        assert(ea.subrange(16, 20) =~= enc_u32(a[4]) && eb.subrange(16, 20) =~= enc_u32(b[4]));
        assert(ea.subrange(20, 24) =~= enc_u32(a[5]) && eb.subrange(20, 24) =~= enc_u32(b[5]));
        assert forall|x: u32, y: u32| enc_u32(x) == enc_u32(y) implies x == y by {
            assert(spec_u32_to_le_bytes(x).len() == 4);
            assert(spec_u32_to_le_bytes(y).len() == 4);
            assert(spec_u32_from_le_bytes(spec_u32_to_le_bytes(x)) == x);
            assert(spec_u32_from_le_bytes(spec_u32_to_le_bytes(y)) == y);
        }
    }
}

/// Appends the encoding of a six-item list.
pub fn put_six_u32(out: &mut Vec<u8>, l: &Vec<u32>)
    requires
        l@.len() == 6,
    ensures
        final(out)@ == old(out)@ + enc_six_u32(l@),
{
    put_u32(out, l[0]);
    put_u32(out, l[1]);
    put_u32(out, l[2]);
    put_u32(out, l[3]);
    put_u32(out, l[4]);
    put_u32(out, l[5]);
    proof {
        assert(out@ =~= old(out)@ + enc_six_u32(l@));
    }
}

/// Reads a six-item list; succeeds exactly when 24 bytes remain.
pub fn take_six_u32(bytes: &Vec<u8>, pos: usize) -> (r: Option<(Vec<u32>, usize)>)
    requires
        pos <= bytes@.len(),
    ensures
        r is Some <==> pos + 24 <= bytes@.len(),
        r matches Some((l, end)) ==> l@.len() == 6 && end == pos + 24 && bytes@.subrange(
            pos as int,
            end as int,
        ) == enc_six_u32(l@),
{
    proof {
        lemma_auto_spec_u32_to_from_le_bytes();
    }
    if bytes.len() - pos >= 24 {
        let mut l: Vec<u32> = Vec::new();
        let mut cur: usize = pos;
        let mut k: usize = 0;
        while k < 6
            invariant
                pos <= bytes@.len(),
                l@.len() == k,
                k <= 6,
                cur == pos + 4 * k,
                pos + 24 <= bytes@.len(),
                forall|j: int|
                    0 <= j < k ==> bytes@.subrange(pos + 4 * j, pos + 4 * j + 4) == enc_u32(
                        #[trigger] l@[j],
                    ),
            decreases 6 - k,
        {
            let t = take_u32(bytes, cur);
            let (v, end) = t.unwrap();
            l.push(v);
            cur = end;
            k = k + 1;
        }
        proof {
            assert(bytes@.subrange(pos as int, pos as int + 24) =~= enc_six_u32(l@));
        }
        Some((l, cur))
    } else {
        None
    }
}

/// Bytes of a list of strings, one encoding after the other.
pub open spec fn enc_str_items(l: Seq<Seq<char>>) -> Seq<u8>
    decreases l.len(),
{
    if l.len() == 0 {
        Seq::empty()
    } else {
        enc_str(l[0]) + enc_str_items(l.drop_first())
    }
}

/// A list of strings whose count and items fit their length prefixes.
pub open spec fn strs_fit(l: Seq<Seq<char>>) -> bool {
    l.len() <= u64::MAX && (forall|i: int| 0 <= i < l.len() ==> str_fits(#[trigger] l[i]))
}

/// Count-prefixed bytes of a list of strings.
pub open spec fn enc_strs(l: Seq<Seq<char>>) -> Seq<u8> {
    enc_u64(l.len() as u64) + enc_str_items(l)
}

/// A list of strings' encoding stands at `pos` in `bytes`.
pub open spec fn strs_at(bytes: Seq<u8>, pos: int, ls: Seq<Seq<char>>) -> bool {
    strs_fit(ls) && 0 <= pos && pos + enc_strs(ls).len() <= bytes.len() && bytes.subrange(
        pos,
        pos + enc_strs(ls).len() as int,
    ) == enc_strs(ls)
}

pub proof fn lemma_enc_str_items_append(a: Seq<Seq<char>>, b: Seq<Seq<char>>)
    ensures
        enc_str_items(a + b) == enc_str_items(a) + enc_str_items(b),
    decreases a.len(),
{
    if a.len() == 0 {
        assert(a + b =~= b);
        assert(enc_str_items(a) + enc_str_items(b) =~= enc_str_items(b));
    } else {
        assert((a + b).drop_first() =~= a.drop_first() + b);
        lemma_enc_str_items_append(a.drop_first(), b);
        assert((a + b)[0] == a[0]);
        assert(enc_str_items(a + b) == enc_str(a[0]) + (enc_str_items(a.drop_first())
            + enc_str_items(b)));
        assert(enc_str(a[0]) + (enc_str_items(a.drop_first()) + enc_str_items(b)) =~= (enc_str(
            a[0],
        ) + enc_str_items(a.drop_first())) + enc_str_items(b));
    }
}

pub proof fn lemma_enc_str_items_push(l: Seq<Seq<char>>, s: Seq<char>)
    ensures
        enc_str_items(l.push(s)) == enc_str_items(l) + enc_str(s),
{
    assert(l.push(s) =~= l + seq![s]);
    lemma_enc_str_items_append(l, seq![s]);
    assert(seq![s].drop_first() =~= Seq::<Seq<char>>::empty());
    assert(enc_str_items(Seq::<Seq<char>>::empty()) == Seq::<u8>::empty());
    assert(enc_str_items(seq![s]) == enc_str(s) + Seq::<u8>::empty());
    assert(enc_str(s) + Seq::<u8>::empty() =~= enc_str(s));
}

/// The items of a list's encoding split at any position into the items of
/// the prefix, the item there, and the items of the rest.
pub proof fn lemma_enc_str_items_split(ls: Seq<Seq<char>>, i: int)
    requires
        0 <= i < ls.len(),
    ensures
        enc_str_items(ls) == enc_str_items(ls.take(i)) + enc_str(ls[i]) + enc_str_items(
            ls.skip(i + 1),
        ),
        enc_str_items(ls.take(i + 1)) == enc_str_items(ls.take(i)) + enc_str(ls[i]),
{
    assert(ls.take(i + 1) =~= ls.take(i).push(ls[i]));
    lemma_enc_str_items_push(ls.take(i), ls[i]);
    assert(ls =~= ls.take(i + 1) + ls.skip(i + 1));
    lemma_enc_str_items_append(ls.take(i + 1), ls.skip(i + 1));
}

/// Appends the encoding of a list of strings.
pub fn put_strs(out: &mut Vec<u8>, l: &Vec<String>)
    ensures
        final(out)@ == old(out)@ + enc_strs(l.deep_view()),
        strs_fit(l.deep_view()),
{
    let ghost dv = l.deep_view();
    proof {
        assert(dv.len() == l@.len());
    }
    put_u64(out, l.len() as u64);
    let mut i: usize = 0;
    while i < l.len()
        invariant
            i <= l@.len(),
            dv == l.deep_view(),
            dv.len() == l@.len() <= u64::MAX,
            forall|j: int| 0 <= j < i ==> str_fits(#[trigger] dv[j]),
            out@ == old(out)@ + enc_u64(l@.len() as u64) + enc_str_items(dv.take(i as int)),
        decreases l@.len() - i,
    {
        put_str(out, l[i].as_str());
        proof {
            assert(dv[i as int] == l@[i as int]@);
            lemma_enc_str_items_split(dv, i as int);
            assert(out@ =~= old(out)@ + enc_u64(l@.len() as u64) + enc_str_items(
                dv.take(i as int + 1),
            ));
        }
        i = i + 1;
    }
    proof {
        assert(dv.take(dv.len() as int) =~= dv);
        assert(out@ =~= old(out)@ + enc_strs(dv));
    }
}

/// When a list's encoding stands at `pos` and the first `i` items have been
/// read up to `cur`, the `i`-th item's encoding stands at `cur`.
proof fn lemma_strs_at_item(bytes: Seq<u8>, pos: int, ls: Seq<Seq<char>>, i: int, cur: int)
    requires
        strs_at(bytes, pos, ls),
        0 <= i < ls.len(),
        cur == pos + 8 + enc_str_items(ls.take(i)).len(),
    ensures
        str_fits(ls[i]),
        cur + enc_str(ls[i]).len() <= bytes.len(),
        bytes.subrange(cur, cur + enc_str(ls[i]).len() as int) == enc_str(ls[i]),
        enc_str_items(ls.take(i + 1)).len() == enc_str_items(ls.take(i)).len() + enc_str(
            ls[i],
        ).len(),
{
    lemma_auto_spec_u64_to_from_le_bytes();
    lemma_enc_str_items_split(ls, i);
    let whole = bytes.subrange(pos, pos + enc_strs(ls).len() as int);
    let a = enc_str_items(ls.take(i)).len() as int;
    let b = enc_str(ls[i]).len() as int;
    assert(whole.subrange(8 + a, 8 + a + b) =~= bytes.subrange(cur, cur + b));
    assert(enc_strs(ls).subrange(8 + a, 8 + a + b) =~= enc_str(ls[i]));
}

/// Reads a list of strings: a value is returned if and only if a list's
/// encoding stands at `pos`, and then it is that list.
pub fn take_strs(bytes: &Vec<u8>, pos: usize) -> (r: Option<(Vec<String>, usize)>)
    requires
        pos <= bytes@.len(),
    ensures
        r matches Some((l, end)) ==> pos <= end <= bytes@.len() && strs_fit(l.deep_view())
            && bytes@.subrange(pos as int, end as int) == enc_strs(l.deep_view()),
        forall|ls: Seq<Seq<char>>|
            strs_at(bytes@, pos as int, ls) ==> (r matches Some((l, end)) && l.deep_view() == ls
                && end == pos + enc_strs(ls).len()),
{
    proof {
        lemma_auto_spec_u64_to_from_le_bytes();
    }
    match take_u64(bytes, pos) {
        None => {
            assert forall|ls: Seq<Seq<char>>| !strs_at(bytes@, pos as int, ls) by {
                assert(enc_strs(ls).len() >= 8);
            }
            None
        },
        Some((n, p1)) => {
            proof {
                assert forall|ls: Seq<Seq<char>>|
                    strs_at(bytes@, pos as int, ls) implies n == ls.len() by {
                    assert(bytes@.subrange(pos as int, pos as int + enc_strs(ls).len() as int)
                        .subrange(0, 8) =~= bytes@.subrange(pos as int, p1 as int));
                    assert(enc_strs(ls).subrange(0, 8) =~= enc_u64(ls.len() as u64));
                    assert(enc_u64(n) == enc_u64(ls.len() as u64));
                }
            }
            let mut out: Vec<String> = Vec::new();
            let mut cur: usize = p1;
            let mut i: u64 = 0;
            proof {
                assert(bytes@.subrange(p1 as int, p1 as int) =~= enc_str_items(out.deep_view()));
                assert forall|ls: Seq<Seq<char>>|
                    strs_at(bytes@, pos as int, ls) implies out.deep_view() == ls.take(0) by {
                    assert(out.deep_view() =~= ls.take(0));
                }
            }
            while i < n
                invariant
                    pos + 8 == p1,
                    p1 <= cur <= bytes@.len(),
                    i as int == out@.len(),
                    i <= n,
                    forall|j: int| 0 <= j < out@.len() ==> str_fits(#[trigger] out.deep_view()[j]),
                    bytes@.subrange(p1 as int, cur as int) == enc_str_items(out.deep_view()),
                    forall|ls: Seq<Seq<char>>|
                        #[trigger] strs_at(bytes@, pos as int, ls) ==> n == ls.len() && i
                            <= ls.len() && out.deep_view() == ls.take(i as int) && cur == p1
                            + enc_str_items(ls.take(i as int)).len(),
                decreases n - i,
            {
                let ghost old_out = out.deep_view();
                let ghost old_cur = cur as int;
                let ghost old_i = i as int;
                match take_str(bytes, cur) {
                    None => {
                        proof {
                            assert forall|ls: Seq<Seq<char>>|
                                !strs_at(bytes@, pos as int, ls) by {
                                if strs_at(bytes@, pos as int, ls) {
                                    lemma_strs_at_item(bytes@, pos as int, ls, old_i, old_cur);
                                }
                            }
                        }
                        return None;
                    },
                    Some((s, e2)) => {
                        proof {
                            assert forall|ls: Seq<Seq<char>>|
                                strs_at(bytes@, pos as int, ls) implies s@ == ls[old_i] && e2
                                == old_cur + enc_str(ls[old_i]).len() by {
                                lemma_strs_at_item(bytes@, pos as int, ls, old_i, old_cur);
                            }
                            lemma_enc_str_items_push(old_out, s@);
                            assert(bytes@.subrange(p1 as int, e2 as int) =~= bytes@.subrange(
                                p1 as int,
                                cur as int,
                            ) + bytes@.subrange(cur as int, e2 as int));
                        }
                        out.push(s);
                        cur = e2;
                        i = i + 1;
                        proof {
                            assert(out.deep_view() =~= old_out.push(s@));
                            assert(bytes@.subrange(p1 as int, cur as int) == enc_str_items(
                                out.deep_view(),
                            ));
                            assert forall|ls: Seq<Seq<char>>|
                                strs_at(bytes@, pos as int, ls) implies out.deep_view() == ls.take(
                                i as int,
                            ) && cur == p1 + enc_str_items(ls.take(i as int)).len() by {
                                lemma_strs_at_item(bytes@, pos as int, ls, old_i, old_cur);
                                lemma_enc_str_items_split(ls, old_i);
                                assert(out.deep_view() =~= ls.take(i as int));
                            }
                        }
                    },
                }
            }
            proof {
                assert(bytes@.subrange(pos as int, cur as int) =~= bytes@.subrange(
                    pos as int,
                    p1 as int,
                ) + bytes@.subrange(p1 as int, cur as int));
                assert(bytes@.subrange(pos as int, cur as int) == enc_strs(out.deep_view()));
                assert forall|ls: Seq<Seq<char>>|
                    strs_at(bytes@, pos as int, ls) implies out.deep_view() == ls && cur == pos
                    + enc_strs(ls).len() by {
                    assert(ls.take(ls.len() as int) =~= ls);
                }
            }
            Some((out, cur))
        },
    }
}

/// When a string's encoding stands at `pos` and the length prefix read there
/// is `n`, the prefix equals the string's UTF-8 length and the UTF-8 bytes
/// stand right after it.
proof fn lemma_take_str_pattern(bytes: Seq<u8>, pos: int, cs: Seq<char>, n: u64, avail: int)
    requires
        str_fits(cs),
        0 <= pos,
        pos + enc_str(cs).len() <= bytes.len(),
        bytes.subrange(pos, pos + enc_str(cs).len() as int) == enc_str(cs),
        bytes.subrange(pos, pos + 8) == enc_u64(n),
    ensures
        n == encode_utf8(cs).len(),
        bytes.subrange(pos + 8, pos + 8 + encode_utf8(cs).len() as int) == encode_utf8(cs),
{
    lemma_auto_spec_u64_to_from_le_bytes();
    let e = encode_utf8(cs);
    let whole = bytes.subrange(pos, pos + enc_str(cs).len() as int);
    assert(whole.subrange(0, 8) =~= bytes.subrange(pos, pos + 8));
    assert(whole.subrange(0, 8) =~= enc_u64(e.len() as u64));
    assert(n == e.len() as u64);
    assert(bytes.subrange(pos + 8, pos + 8 + e.len() as int) =~= whole.subrange(
        8,
        8 + e.len() as int,
    ));
    assert(whole.subrange(8, 8 + e.len() as int) =~= e);
}

} // verus!
