//! The canonical byte layer: recursive-length-prefix items.
//!
//! A byte string is encoded as itself when it is one byte below 0x80, else
//! as a length header followed by its bytes; a list is a length header
//! followed by the concatenated encodings of its items. Lengths up to 55 sit
//! in the header byte; longer ones follow it as minimal big-endian bytes.
use vstd::prelude::*;
use vstd::slice::{slice_subrange, slice_to_vec};
use vstd::utf8::{decode_utf8, encode_utf8, valid_utf8};

verus! {

/// 256 to the power `n`.
pub open spec fn p256(n: nat) -> nat
    decreases n,
{
    if n == 0 {
        1
    } else {
        256 * p256((n - 1) as nat)
    }
}

/// The minimal big-endian bytes of `v` (empty for zero).
pub open spec fn be_bytes(v: nat) -> Seq<u8>
    decreases v,
{
    if v == 0 {
        Seq::empty()
    } else {
        be_bytes(v / 256).push((v % 256) as u8)
    }
}

/// The number that big-endian bytes `s` stand for.
pub open spec fn be_value(s: Seq<u8>) -> nat
    decreases s.len(),
{
    if s.len() == 0 {
        0
    } else {
        be_value(s.drop_last()) * 256 + s.last() as nat
    }
}

/// The header of an item whose payload is `len` bytes; `offset` is 0x80 for
/// a byte string and 0xc0 for a list.
pub open spec fn enc_header(offset: nat, len: nat) -> Seq<u8> {
    if len <= 55 {
        seq![(offset + len) as u8]
    } else {
        seq![(offset + 55 + be_bytes(len).len()) as u8] + be_bytes(len)
    }
}

/// The encoding of the byte string `b`.
pub open spec fn enc_string(b: Seq<u8>) -> Seq<u8> {
    if b.len() == 1 && b[0] < 0x80 {
        b
    } else {
        enc_header(0x80, b.len()) + b
    }
}

/// The encoding of a list whose items, encoded and concatenated, are `payload`.
pub open spec fn enc_list(payload: Seq<u8>) -> Seq<u8> {
    enc_header(0xc0, payload.len()) + payload
}

/// The encoding of an unsigned integer.
pub open spec fn enc_uint(v: nat) -> Seq<u8> {
    enc_string(be_bytes(v))
}

/// The encoding of a text: its UTF-8 bytes as a byte string.
pub open spec fn enc_text(s: Seq<char>) -> Seq<u8> {
    enc_string(encode_utf8(s))
}

/// The encoding of a sequence of texts as a list.
pub open spec fn enc_texts(ts: Seq<Seq<char>>) -> Seq<u8> {
    enc_list(concat_texts(ts))
}

pub open spec fn concat_texts(ts: Seq<Seq<char>>) -> Seq<u8>
    decreases ts.len(),
{
    if ts.len() == 0 {
        Seq::empty()
    } else {
        concat_texts(ts.drop_last()) + enc_text(ts.last())
    }
}

/// The payload length of a long-form header whose length field is `ll` bytes.
pub open spec fn long_len(s: Seq<u8>, ll: int) -> Option<int> {
    if s.len() < 1 + ll || s[1] == 0 {
        None
    } else {
        let n = be_value(s.subrange(1, 1 + ll)) as int;
        if n <= 55 {
            None
        } else {
            Some(n)
        }
    }
}

/// The item at the start of `s`: whether it is a list, and where its payload
/// starts and ends. `None` where the header is malformed, is not the shortest
/// form, or announces more bytes than `s` holds.
pub open spec fn header(s: Seq<u8>) -> Option<(bool, int, int)> {
    if s.len() == 0 {
        None
    } else {
        let b = s[0] as int;
        let r: Option<(bool, int, int)> = if b < 0x80 {
            Some((false, 0, 1))
        } else if b <= 0xb7 {
            if b == 0x81 && s.len() > 1 && s[1] < 0x80 {
                None
            } else {
                Some((false, 1, 1 + (b - 0x80)))
            }
        } else if b <= 0xbf {
            match long_len(s, b - 0xb7) {
                Some(n) => Some((false, 1 + (b - 0xb7), 1 + (b - 0xb7) + n)),
                None => None,
            }
        } else if b <= 0xf7 {
            Some((true, 1, 1 + (b - 0xc0)))
        } else {
            match long_len(s, b - 0xf7) {
                Some(n) => Some((true, 1 + (b - 0xf7), 1 + (b - 0xf7) + n)),
                None => None,
            }
        };
        match r {
            Some(h) => if h.2 <= s.len() {
                Some(h)
            } else {
                None
            },
            None => None,
        }
    }
}

/// Cuts a list payload into its items, each with its header.
pub open spec fn split_items(p: Seq<u8>) -> Option<Seq<Seq<u8>>>
    decreases p.len(),
{
    if p.len() == 0 {
        Some(Seq::empty())
    } else {
        match header(p) {
            Some(h) => if 0 < h.2 <= p.len() {
                match split_items(p.subrange(h.2, p.len() as int)) {
                    Some(rest) => Some(seq![p.subrange(0, h.2)] + rest),
                    None => None,
                }
            } else {
                None
            },
            None => None,
        }
    }
}

/// The payload of `s` when `s` is exactly one byte-string item.
pub open spec fn string_payload(s: Seq<u8>) -> Option<Seq<u8>> {
    match header(s) {
        Some(h) => if !h.0 && h.2 == s.len() {
            Some(s.subrange(h.1, h.2))
        } else {
            None
        },
        None => None,
    }
}

/// The items of `s` when `s` is exactly one list item.
pub open spec fn list_items(s: Seq<u8>) -> Option<Seq<Seq<u8>>> {
    match header(s) {
        Some(h) => if h.0 && h.2 == s.len() {
            split_items(s.subrange(h.1, h.2))
        } else {
            None
        },
        None => None,
    }
}

/// The unsigned integer of at most `width` bytes that `s` encodes.
pub open spec fn dec_uint(s: Seq<u8>, width: nat) -> Option<nat> {
    match string_payload(s) {
        Some(p) => if p.len() <= width && (p.len() == 0 || p[0] != 0) {
            Some(be_value(p))
        } else {
            None
        },
        None => None,
    }
}

/// The text that `s` encodes.
pub open spec fn dec_text(s: Seq<u8>) -> Option<Seq<char>> {
    match string_payload(s) {
        Some(p) => if valid_utf8(p) {
            Some(decode_utf8(p))
        } else {
            None
        },
        None => None,
    }
}

/// The texts of a sequence of items, if each is a text.
pub open spec fn dec_text_items(items: Seq<Seq<u8>>) -> Option<Seq<Seq<char>>>
    decreases items.len(),
{
    if items.len() == 0 {
        Some(Seq::empty())
    } else {
        match (dec_text_items(items.drop_last()), dec_text(items.last())) {
            (Some(a), Some(t)) => Some(a.push(t)),
            _ => None,
        }
    }
}

/// The sequence of texts that the list `s` encodes.
pub open spec fn dec_texts(s: Seq<u8>) -> Option<Seq<Seq<char>>> {
    match list_items(s) {
        Some(items) => dec_text_items(items),
        None => None,
    }
}

// ---------------------------------------------------------------------------
// Lemmas on numbers
pub proof fn lemma_p256_8()
    ensures
        p256(8) == 0x1_0000_0000_0000_0000,
{
    reveal_with_fuel(p256, 9);
}

pub proof fn lemma_be_value_of_bytes(v: nat)
    ensures
        be_value(be_bytes(v)) == v,
    decreases v,
{
    if v > 0 {
        lemma_be_value_of_bytes(v / 256);
        assert(be_bytes(v).drop_last() =~= be_bytes(v / 256));
    }
}

pub proof fn lemma_be_bytes_lead(v: nat)
    requires
        v > 0,
    ensures
        be_bytes(v).len() >= 1,
        be_bytes(v)[0] != 0,
    decreases v,
{
    if v / 256 > 0 {
        lemma_be_bytes_lead(v / 256);
    } else {
        assert(be_bytes(v / 256).len() == 0);
    }
}

pub proof fn lemma_be_bytes_len(v: nat, w: nat)
    requires
        v < p256(w),
    ensures
        be_bytes(v).len() <= w,
    decreases v,
{
    if v > 0 {
        assert(w > 0);
        assert(v / 256 < p256((w - 1) as nat)) by (nonlinear_arith)
            requires
                v < 256 * p256((w - 1) as nat),
        ;
        lemma_be_bytes_len(v / 256, (w - 1) as nat);
    }
}

pub proof fn lemma_be_value_bound(s: Seq<u8>)
    ensures
        be_value(s) < p256(s.len()),
    decreases s.len(),
{
    if s.len() > 0 {
        lemma_be_value_bound(s.drop_last());
        let a = be_value(s.drop_last());
        let b = s.last() as nat;
        let q = p256((s.len() - 1) as nat);
        assert(a * 256 + b < 256 * q) by (nonlinear_arith)
            requires
                a < q,
                b < 256,
        ;
    }
}

pub proof fn lemma_p256_mono(a: nat, b: nat)
    requires
        a <= b,
    ensures
        p256(a) <= p256(b),
    decreases b,
{
    if a < b {
        lemma_p256_mono(a, (b - 1) as nat);
    }
}

/// A length that fits in 64 bits has a long-form length field of 1 to 8 bytes.
pub proof fn lemma_len_bytes(n: nat)
    requires
        55 < n < 0x1_0000_0000_0000_0000,
    ensures
        1 <= be_bytes(n).len() <= 8,
        be_bytes(n)[0] != 0,
        be_value(be_bytes(n)) == n,
{
    lemma_p256_8();
    lemma_be_bytes_len(n, 8);
    lemma_be_bytes_lead(n);
    lemma_be_value_of_bytes(n);
}

// ---------------------------------------------------------------------------
// Lemmas on items
/// The header of an encoded item is read back, whatever follows it.
pub proof fn lemma_header_of(offset: nat, b: Seq<u8>, rest: Seq<u8>)
    requires
        offset == 0x80 || offset == 0xc0,
        b.len() < 0x1_0000_0000_0000_0000,
        offset == 0x80 ==> !(b.len() == 1 && b[0] < 0x80),
    ensures
        ({
            let s = enc_header(offset, b.len()) + b + rest;
            let hl = enc_header(offset, b.len()).len() as int;
            header(s) == Some((offset == 0xc0, hl, hl + b.len()))
                && s.subrange(hl, hl + b.len()) == b
                && s.subrange(0, hl + b.len()) == enc_header(offset, b.len()) + b
                && s.subrange(hl + b.len(), s.len() as int) == rest
        }),
{
    let s = enc_header(offset, b.len()) + b + rest;
    let hl = enc_header(offset, b.len()).len() as int;
    if b.len() > 55 {
        lemma_len_bytes(b.len());
        let lb = be_bytes(b.len());
        assert(s.subrange(1, 1 + lb.len() as int) =~= lb);
    }
    assert(s.subrange(hl, hl + b.len()) =~= b);
    assert(s.subrange(0, hl + b.len()) =~= enc_header(offset, b.len()) + b);
    assert(s.subrange(hl + b.len(), s.len() as int) =~= rest);
}

/// An encoded byte string is one item, followed by whatever comes after it.
pub proof fn lemma_string_item(b: Seq<u8>, rest: Seq<u8>)
    requires
        b.len() < 0x1_0000_0000_0000_0000,
    ensures
        ({
            let s = enc_string(b) + rest;
            let e = enc_string(b);
            &&& header(s) is Some
            &&& !header(s)->Some_0.0
            &&& header(s)->Some_0.2 == e.len()
            &&& s.subrange(header(s)->Some_0.1, header(s)->Some_0.2) == b
            &&& s.subrange(0, e.len() as int) == e
            &&& s.subrange(e.len() as int, s.len() as int) == rest
        }),
{
    let s = enc_string(b) + rest;
    if b.len() == 1 && b[0] < 0x80 {
        assert(s.subrange(0, 1) =~= b);
        assert(s.subrange(1, s.len() as int) =~= rest);
    } else {
        lemma_header_of(0x80, b, rest);
        assert(enc_header(0x80, b.len()) + b + rest =~= s);
    }
}

/// An encoded list is one item, followed by whatever comes after it.
pub proof fn lemma_list_item(p: Seq<u8>, rest: Seq<u8>)
    requires
        p.len() < 0x1_0000_0000_0000_0000,
    ensures
        ({
            let s = enc_list(p) + rest;
            let e = enc_list(p);
            &&& header(s) is Some
            &&& header(s)->Some_0.0
            &&& header(s)->Some_0.2 == e.len()
            &&& s.subrange(header(s)->Some_0.1, header(s)->Some_0.2) == p
            &&& s.subrange(0, e.len() as int) == e
            &&& s.subrange(e.len() as int, s.len() as int) == rest
        }),
{
    lemma_header_of(0xc0, p, rest);
}

pub proof fn lemma_string_payload(b: Seq<u8>)
    requires
        b.len() < 0x1_0000_0000_0000_0000,
    ensures
        string_payload(enc_string(b)) == Some(b),
{
    lemma_string_item(b, Seq::empty());
    assert(enc_string(b) + Seq::<u8>::empty() =~= enc_string(b));
}

/// Splitting a payload that starts with a whole item.
pub proof fn lemma_split_cons(e: Seq<u8>, rest: Seq<u8>)
    requires
        header(e + rest) is Some,
        header(e + rest)->Some_0.2 == e.len(),
    ensures
        split_items(e + rest) == match split_items(rest) {
            Some(r) => Some(seq![e] + r),
            None => None::<Seq<Seq<u8>>>,
        },
{
    let s = e + rest;
    assert(s.subrange(e.len() as int, s.len() as int) =~= rest);
    assert(s.subrange(0, e.len() as int) =~= e);
}

pub proof fn lemma_split_empty()
    ensures
        split_items(Seq::empty()) == Some(Seq::<Seq<u8>>::empty()),
{
}

pub proof fn lemma_dec_uint(v: nat, w: nat)
    requires
        v < p256(w),
        w <= 8,
    ensures
        dec_uint(enc_uint(v), w) == Some(v),
{
    lemma_be_bytes_len(v, w);
    lemma_be_value_of_bytes(v);
    if v > 0 {
        lemma_be_bytes_lead(v);
    }
    lemma_string_payload(be_bytes(v));
}

pub proof fn lemma_dec_text(t: Seq<char>)
    requires
        encode_utf8(t).len() < 0x1_0000_0000_0000_0000,
    ensures
        dec_text(enc_text(t)) == Some(t),
{
    broadcast use vstd::utf8::encode_utf8_valid_utf8, vstd::utf8::encode_utf8_decode_utf8;

    lemma_string_payload(encode_utf8(t));
}

/// Items of a concatenation of encoded texts.
pub proof fn lemma_split_texts(ts: Seq<Seq<char>>, rest: Seq<u8>)
    requires
        forall|i: int| 0 <= i < ts.len() ==> encode_utf8(#[trigger] ts[i]).len() < 0x1_0000_0000_0000_0000,
    ensures
        split_items(concat_texts(ts) + rest) == match split_items(rest) {
            Some(r) => Some(ts.map_values(|t: Seq<char>| enc_text(t)) + r),
            None => None::<Seq<Seq<u8>>>,
        },
    decreases ts.len(),
{
    if ts.len() > 0 {
        let last = ts.last();
        let e = enc_text(last);
        lemma_string_item(encode_utf8(last), rest);
        lemma_split_cons(e, rest);
        assert(concat_texts(ts) + rest =~= concat_texts(ts.drop_last()) + (e + rest));
        lemma_split_texts(ts.drop_last(), e + rest);
        match split_items(rest) {
            Some(r) => {
                assert(ts.drop_last().map_values(|t: Seq<char>| enc_text(t)) + (seq![e] + r)
                    =~= ts.map_values(|t: Seq<char>| enc_text(t)) + r);
            },
            None => {},
        }
    } else {
        assert(concat_texts(ts) + rest =~= rest);
        match split_items(rest) {
            Some(r) => {
                assert(ts.map_values(|t: Seq<char>| enc_text(t)) + r =~= r);
            },
            None => {},
        }
    }
}

pub proof fn lemma_dec_text_items(ts: Seq<Seq<char>>)
    requires
        forall|i: int| 0 <= i < ts.len() ==> encode_utf8(#[trigger] ts[i]).len() < 0x1_0000_0000_0000_0000,
    ensures
        dec_text_items(ts.map_values(|t: Seq<char>| enc_text(t))) == Some(ts),
    decreases ts.len(),
{
    if ts.len() > 0 {
        let items = ts.map_values(|t: Seq<char>| enc_text(t));
        assert(items.drop_last() =~= ts.drop_last().map_values(|t: Seq<char>| enc_text(t)));
        lemma_dec_text_items(ts.drop_last());
        lemma_dec_text(ts.last());
        assert(ts.drop_last().push(ts.last()) =~= ts);
    } else {
        assert(ts.map_values(|t: Seq<char>| enc_text(t)) =~= Seq::<Seq<u8>>::empty());
    }
}

pub proof fn lemma_dec_text_items_fail(items: Seq<Seq<u8>>, k: int)
    requires
        0 <= k < items.len(),
        dec_text(items[k]) is None,
    ensures
        dec_text_items(items) is None,
    decreases items.len(),
{
    if k < items.len() - 1 {
        lemma_dec_text_items_fail(items.drop_last(), k);
    }
}

pub proof fn lemma_texts_bound(ts: Seq<Seq<char>>)
    ensures
        forall|i: int| 0 <= i < ts.len() ==> encode_utf8(#[trigger] ts[i]).len() <= concat_texts(ts).len(),
    decreases ts.len(),
{
    if ts.len() > 0 {
        lemma_texts_bound(ts.drop_last());
        assert forall|i: int| 0 <= i < ts.len() implies encode_utf8(#[trigger] ts[i]).len()
            <= concat_texts(ts).len() by {
            if i < ts.len() - 1 {
                assert(ts[i] == ts.drop_last()[i]);
            }
        }
    }
}

/// A list of texts is one item, and is read back.
pub proof fn lemma_dec_texts(ts: Seq<Seq<char>>)
    requires
        enc_texts(ts).len() <= usize::MAX,
    ensures
        dec_texts(enc_texts(ts)) == Some(ts),
        whole_item(enc_texts(ts)),
{
    lemma_texts_bound(ts);
    lemma_whole_list(concat_texts(ts));
    let p = concat_texts(ts);
    lemma_list_item(p, Seq::empty());
    assert(enc_list(p) + Seq::<u8>::empty() =~= enc_list(p));
    lemma_split_texts(ts, Seq::empty());
    assert(p + Seq::<u8>::empty() =~= p);
    lemma_split_empty();
    assert(ts.map_values(|t: Seq<char>| enc_text(t)) + Seq::<Seq<u8>>::empty()
        =~= ts.map_values(|t: Seq<char>| enc_text(t)));
    lemma_dec_text_items(ts);
}

// ---------------------------------------------------------------------------
// Lemmas on sequences of items
/// The concatenation of encoded items, first to last.
pub open spec fn concat(es: Seq<Seq<u8>>) -> Seq<u8>
    decreases es.len(),
{
    if es.len() == 0 {
        Seq::empty()
    } else {
        es[0] + concat(es.drop_first())
    }
}

/// `e` is exactly one well-formed item.
pub open spec fn whole_item(e: Seq<u8>) -> bool {
    header(e) is Some && header(e)->Some_0.2 == e.len()
}

/// What follows an item does not change how its header reads.
pub proof fn lemma_header_extend(e: Seq<u8>, rest: Seq<u8>)
    requires
        header(e) is Some,
    ensures
        header(e + rest) == header(e),
{
    let s = e + rest;
    let b = e[0] as int;
    if 0xb7 < b <= 0xbf {
        let ll = b - 0xb7;
        assert(s.subrange(1, 1 + ll) =~= e.subrange(1, 1 + ll));
    } else if 0xf7 < b {
        let ll = b - 0xf7;
        assert(s.subrange(1, 1 + ll) =~= e.subrange(1, 1 + ll));
    }
}

pub proof fn lemma_whole_string(b: Seq<u8>)
    requires
        b.len() < 0x1_0000_0000_0000_0000,
    ensures
        whole_item(enc_string(b)),
{
    lemma_string_item(b, Seq::empty());
    assert(enc_string(b) + Seq::<u8>::empty() =~= enc_string(b));
}

pub proof fn lemma_whole_list(p: Seq<u8>)
    requires
        p.len() < 0x1_0000_0000_0000_0000,
    ensures
        whole_item(enc_list(p)),
        list_items(enc_list(p)) == split_items(p),
{
    lemma_list_item(p, Seq::empty());
    assert(enc_list(p) + Seq::<u8>::empty() =~= enc_list(p));
}

/// A concatenation of whole items splits back into those items.
pub proof fn lemma_split_concat(es: Seq<Seq<u8>>)
    requires
        forall|i: int| 0 <= i < es.len() ==> whole_item(#[trigger] es[i]),
    ensures
        split_items(concat(es)) == Some(es),
    decreases es.len(),
{
    if es.len() > 0 {
        let rest = es.drop_first();
        assert forall|i: int| 0 <= i < rest.len() implies whole_item(#[trigger] rest[i]) by {
            assert(rest[i] == es[i + 1]);
        }
        lemma_split_concat(rest);
        assert(whole_item(es[0]));
        lemma_header_extend(es[0], concat(rest));
        lemma_split_cons(es[0], concat(rest));
        assert(seq![es[0]] + rest =~= es);
    }
}

pub proof fn lemma_concat_push(es: Seq<Seq<u8>>, e: Seq<u8>)
    ensures
        concat(es.push(e)) == concat(es) + e,
    decreases es.len(),
{
    if es.len() == 0 {
        assert(es.push(e).drop_first() =~= Seq::<Seq<u8>>::empty());
        assert(concat(es.push(e).drop_first()) == Seq::<u8>::empty());
        assert(es.push(e)[0] == e);
        assert(concat(es.push(e)) =~= concat(es) + e);
    } else {
        lemma_concat_push(es.drop_first(), e);
        assert(es.push(e).drop_first() =~= es.drop_first().push(e));
        assert(concat(es.push(e)) =~= concat(es) + e);
    }
}

/// Big-endian bytes without a leading zero are the minimal bytes of their value.
pub proof fn lemma_be_bytes_of_value(q: Seq<u8>)
    requires
        q.len() == 0 || q[0] != 0,
    ensures
        be_bytes(be_value(q)) == q,
    decreases q.len(),
{
    if q.len() > 0 {
        let d = q.drop_last();
        if d.len() > 0 {
            assert(d[0] == q[0]);
        }
        lemma_be_bytes_of_value(d);
        let a = be_value(d);
        let l = q.last() as nat;
        let v = be_value(q);
        assert(v == a * 256 + l);
        assert(v / 256 == a && v % 256 == l) by (nonlinear_arith)
            requires
                v == a * 256 + l,
                l < 256,
        ;
        if d.len() > 0 {
            assert(a != 0);
        }
        assert(v > 0);
        assert(be_bytes(v) =~= q);
    }
}

pub proof fn lemma_be_bytes_len_mono(n: nat, m: nat)
    requires
        n <= m,
    ensures
        be_bytes(n).len() <= be_bytes(m).len(),
    decreases m,
{
    if n > 0 {
        assert(n / 256 <= m / 256) by (nonlinear_arith)
            requires
                n <= m,
        ;
        lemma_be_bytes_len_mono(n / 256, m / 256);
    }
}

/// The header of a list is the shortest header for its payload length.
pub proof fn lemma_list_header_canonical(s: Seq<u8>)
    requires
        header(s) is Some,
        header(s)->Some_0.0,
    ensures
        header(s)->Some_0.1 >= 1,
        s.subrange(0, header(s)->Some_0.1) == enc_header(
            0xc0,
            (header(s)->Some_0.2 - header(s)->Some_0.1) as nat,
        ),
{
    let b = s[0] as int;
    if b > 0xf7 {
        let ll = b - 0xf7;
        let q = s.subrange(1, 1 + ll);
        lemma_be_bytes_of_value(q);
        assert(s.subrange(0, 1 + ll) =~= seq![s[0]] + q);
    } else {
        assert(s.subrange(0, 1) =~= seq![s[0]]);
    }
}

/// Two lists of the same total length have the same header bytes.
pub proof fn lemma_list_length_fixes_header(s: Seq<u8>, t: Seq<u8>)
    requires
        header(s) is Some,
        header(s)->Some_0.0,
        header(s)->Some_0.2 == s.len(),
        header(t) is Some,
        header(t)->Some_0.0,
        header(t)->Some_0.2 == t.len(),
        s.len() == t.len(),
    ensures
        header(s)->Some_0.1 == header(t)->Some_0.1,
        s.subrange(0, header(s)->Some_0.1) == t.subrange(0, header(t)->Some_0.1),
{
    let hs = header(s)->Some_0;
    let ht = header(t)->Some_0;
    lemma_list_header_canonical(s);
    lemma_list_header_canonical(t);
    let n = (hs.2 - hs.1) as nat;
    let m = (ht.2 - ht.1) as nat;
    if n < m {
        lemma_be_bytes_len_mono(n, m);
        assert(enc_header(0xc0, n).len() <= enc_header(0xc0, m).len());
    } else if m < n {
        lemma_be_bytes_len_mono(m, n);
        assert(enc_header(0xc0, m).len() <= enc_header(0xc0, n).len());
    }
}

/// An encoded list whose first byte is replaced by another is no list.
pub proof fn lemma_list_first_byte(p: Seq<u8>, b: u8)
    requires
        enc_list(p).len() <= usize::MAX,
        b != enc_list(p)[0],
    ensures
        list_items(enc_list(p).update(0, b)) is None,
{
    let s = enc_list(p);
    let t = s.update(0, b);
    lemma_list_item(p, Seq::empty());
    assert(s + Seq::<u8>::empty() =~= s);
    if list_items(t) is Some {
        lemma_list_length_fixes_header(s, t);
        let hl = header(s)->Some_0.1;
        lemma_list_header_canonical(s);
        assert(s.subrange(0, hl)[0] == s[0]);
        assert(t.subrange(0, hl)[0] == t[0]);
    }
}

/// A list cut short before its last byte is no list.
pub proof fn lemma_truncated_list(p: Seq<u8>, k: int)
    requires
        enc_list(p).len() <= usize::MAX,
        0 <= k < enc_list(p).len(),
    ensures
        list_items(enc_list(p).subrange(0, k)) is None,
{
    let s = enc_list(p);
    let t = s.subrange(0, k);
    lemma_list_item(p, Seq::empty());
    assert(s + Seq::<u8>::empty() =~= s);
    if k > 0 && p.len() > 55 {
        lemma_len_bytes(p.len());
        let ll = be_bytes(p.len()).len() as int;
        if 1 + ll <= k {
            assert(t.subrange(1, 1 + ll) =~= s.subrange(1, 1 + ll));
        }
    }
}

// ---------------------------------------------------------------------------
// Lemmas on what the reader accepts: only canonical encodings
/// The header read from a prefix that holds the whole item is the same.
pub proof fn lemma_header_prefix(s: Seq<u8>, k: int)
    requires
        header(s) is Some,
        header(s)->Some_0.2 <= k <= s.len(),
    ensures
        header(s.subrange(0, k)) == header(s),
{
    let t = s.subrange(0, k);
    let b = s[0] as int;
    if 0xb7 < b <= 0xbf {
        let ll = b - 0xb7;
        assert(t.subrange(1, 1 + ll) =~= s.subrange(1, 1 + ll));
    } else if 0xf7 < b {
        let ll = b - 0xf7;
        assert(t.subrange(1, 1 + ll) =~= s.subrange(1, 1 + ll));
    }
}

/// A byte string that is read is the encoding of what is read from it.
pub proof fn lemma_string_canonical(s: Seq<u8>)
    requires
        string_payload(s) is Some,
    ensures
        s == enc_string(string_payload(s)->Some_0),
{
    let p = string_payload(s)->Some_0;
    let b = s[0] as int;
    if b < 0x80 {
        assert(s =~= p);
    } else if b <= 0xb7 {
        assert(s =~= seq![s[0]] + p);
    } else {
        let ll = b - 0xb7;
        let q = s.subrange(1, 1 + ll);
        lemma_be_bytes_of_value(q);
        assert(s =~= seq![s[0]] + q + p);
    }
}

/// A list that is read is the encoding of its payload.
pub proof fn lemma_list_canonical(s: Seq<u8>)
    requires
        header(s) is Some,
        header(s)->Some_0.0,
        header(s)->Some_0.2 == s.len(),
    ensures
        s == enc_list(s.subrange(header(s)->Some_0.1, s.len() as int)),
{
    let h = header(s)->Some_0;
    lemma_list_header_canonical(s);
    assert(s =~= s.subrange(0, h.1) + s.subrange(h.1, s.len() as int));
}

/// The items that a payload splits into are whole and make up the payload.
pub proof fn lemma_split_inverse(p: Seq<u8>)
    requires
        split_items(p) is Some,
    ensures
        concat(split_items(p)->Some_0) == p,
        forall|i: int|
            0 <= i < split_items(p)->Some_0.len() ==> whole_item(#[trigger] split_items(p)->Some_0[i]),
    decreases p.len(),
{
    if p.len() > 0 {
        let h = header(p)->Some_0;
        let e = p.subrange(0, h.2);
        let rest = p.subrange(h.2, p.len() as int);
        lemma_split_inverse(rest);
        let r = split_items(rest)->Some_0;
        let es = split_items(p)->Some_0;
        assert(es == seq![e] + r);
        assert(es.drop_first() =~= r);
        assert(es[0] == e);
        assert(concat(es) =~= p);
        lemma_header_prefix(p, h.2);
        assert forall|i: int| 0 <= i < es.len() implies whole_item(#[trigger] es[i]) by {
            if i > 0 {
                assert(es[i] == r[i - 1]);
            }
        }
    }
}

/// The items of a list that is read make up its payload.
pub proof fn lemma_list_items_inverse(s: Seq<u8>)
    requires
        list_items(s) is Some,
    ensures
        s == enc_list(concat(list_items(s)->Some_0)),
{
    let h = header(s)->Some_0;
    lemma_list_canonical(s);
    lemma_split_inverse(s.subrange(h.1, h.2));
}

/// An unsigned integer that is read is encoded as it was read.
pub proof fn lemma_uint_canonical(s: Seq<u8>, w: nat)
    requires
        dec_uint(s, w) is Some,
    ensures
        s == enc_uint(dec_uint(s, w)->Some_0),
        dec_uint(s, w)->Some_0 < p256(w),
{
    let p = string_payload(s)->Some_0;
    lemma_string_canonical(s);
    lemma_be_bytes_of_value(p);
    lemma_be_value_bound(p);
    lemma_p256_mono(p.len(), w);
}

/// A text that is read is encoded as it was read.
pub proof fn lemma_text_canonical(s: Seq<u8>)
    requires
        dec_text(s) is Some,
    ensures
        s == enc_text(dec_text(s)->Some_0),
{
    broadcast use vstd::utf8::decode_utf8_encode_utf8;

    lemma_string_canonical(s);
}

/// Front-first and back-first concatenations of encoded texts agree.
pub proof fn lemma_concat_texts(ts: Seq<Seq<char>>)
    ensures
        concat(ts.map_values(|t: Seq<char>| enc_text(t))) == concat_texts(ts),
    decreases ts.len(),
{
    if ts.len() > 0 {
        lemma_concat_texts(ts.drop_last());
        let m = ts.map_values(|t: Seq<char>| enc_text(t));
        assert(m =~= ts.drop_last().map_values(|t: Seq<char>| enc_text(t)).push(enc_text(ts.last())));
        lemma_concat_push(ts.drop_last().map_values(|t: Seq<char>| enc_text(t)), enc_text(ts.last()));
    } else {
        assert(ts.map_values(|t: Seq<char>| enc_text(t)) =~= Seq::<Seq<u8>>::empty());
    }
}

pub proof fn lemma_text_items_canonical(items: Seq<Seq<u8>>)
    requires
        dec_text_items(items) is Some,
    ensures
        items == dec_text_items(items)->Some_0.map_values(|t: Seq<char>| enc_text(t)),
    decreases items.len(),
{
    if items.len() > 0 {
        lemma_text_items_canonical(items.drop_last());
        lemma_text_canonical(items.last());
        let ts = dec_text_items(items)->Some_0;
        let a = dec_text_items(items.drop_last())->Some_0;
        assert(ts == a.push(dec_text(items.last())->Some_0));
        assert forall|i: int| 0 <= i < items.len() implies items[i] == enc_text(ts[i]) by {
            if i < items.len() - 1 {
                assert(items[i] == items.drop_last()[i]);
                assert(ts[i] == a[i]);
            }
        }
        assert(items =~= ts.map_values(|t: Seq<char>| enc_text(t)));
    } else {
        assert(items =~= dec_text_items(items)->Some_0.map_values(|t: Seq<char>| enc_text(t)));
    }
}

/// A list of texts that is read is encoded as it was read.
pub proof fn lemma_texts_canonical(s: Seq<u8>)
    requires
        dec_texts(s) is Some,
    ensures
        s == enc_texts(dec_texts(s)->Some_0),
{
    let items = list_items(s)->Some_0;
    lemma_list_items_inverse(s);
    lemma_text_items_canonical(items);
    lemma_concat_texts(dec_texts(s)->Some_0);
}

// ---------------------------------------------------------------------------
// Encoding
/// The views of a vector of strings.
pub open spec fn texts_view(v: Seq<String>) -> Seq<Seq<char>> {
    v.map_values(|s: String| s@)
}

/// Minimal big-endian bytes of `v`.
fn be_of(v: u64) -> (r: Vec<u8>)
    ensures
        r@ == be_bytes(v as nat),
    decreases v,
{
    if v == 0 {
        Vec::new()
    } else {
        let mut r = be_of(v / 256);
        r.push((v % 256) as u8);
        r
    }
}

/// Appends the bytes `b` as they are.
pub fn push_all(out: &mut Vec<u8>, b: &[u8])
    ensures
        final(out)@ == old(out)@ + b@,
{
    let mut i: usize = 0;
    while i < b.len()
        invariant
            i <= b@.len(),
            out@ == old(out)@ + b@.subrange(0, i as int),
        decreases b@.len() - i,
    {
        out.push(b[i]);
        i += 1;
        assert(out@ =~= old(out)@ + b@.subrange(0, i as int));
    }
    assert(b@.subrange(0, b@.len() as int) =~= b@);
}

/// Appends the header of an item with a payload of `len` bytes.
fn push_header(out: &mut Vec<u8>, offset: u8, len: usize)
    requires
        offset == 0x80 || offset == 0xc0,
    ensures
        final(out)@ == old(out)@ + enc_header(offset as nat, len as nat),
{
    if len <= 55 {
        out.push(offset + len as u8);
        assert(out@ =~= old(out)@ + enc_header(offset as nat, len as nat));
    } else {
        proof {
            lemma_len_bytes(len as nat);
        }
        let lb = be_of(len as u64);
        out.push(offset + 55 + lb.len() as u8);
        push_all(out, lb.as_slice());
        assert(out@ =~= old(out)@ + enc_header(offset as nat, len as nat));
    }
}

/// Appends the encoding of the byte string `b`.
pub fn push_string(out: &mut Vec<u8>, b: &[u8])
    ensures
        final(out)@ == old(out)@ + enc_string(b@),
{
    if b.len() == 1 && b[0] < 0x80 {
        out.push(b[0]);
        assert(out@ =~= old(out)@ + enc_string(b@));
    } else {
        push_header(out, 0x80, b.len());
        push_all(out, b);
        assert(out@ =~= old(out)@ + enc_string(b@));
    }
}

/// Appends the encoding of the unsigned integer `v`.
pub fn push_uint(out: &mut Vec<u8>, v: u64)
    ensures
        final(out)@ == old(out)@ + enc_uint(v as nat),
{
    let b = be_of(v);
    push_string(out, b.as_slice());
}

/// Appends the encoding of the text `s`.
pub fn push_text(out: &mut Vec<u8>, s: &String)
    ensures
        final(out)@ == old(out)@ + enc_text(s@),
{
    push_string(out, s.as_str().as_bytes());
}

/// Appends a list whose encoded items are `payload`.
pub fn push_list(out: &mut Vec<u8>, payload: &Vec<u8>)
    ensures
        final(out)@ == old(out)@ + enc_list(payload@),
{
    push_header(out, 0xc0, payload.len());
    push_all(out, payload.as_slice());
    assert(out@ =~= old(out)@ + enc_list(payload@));
}

/// The list whose encoded items are `payload`.
pub fn list_of(payload: &Vec<u8>) -> (r: Vec<u8>)
    ensures
        r@ == enc_list(payload@),
{
    let mut out: Vec<u8> = Vec::new();
    push_list(&mut out, payload);
    assert(out@ =~= enc_list(payload@));
    out
}

/// Appends a list of texts.
pub fn push_texts(out: &mut Vec<u8>, ts: &Vec<String>)
    ensures
        final(out)@ == old(out)@ + enc_texts(texts_view(ts@)),
{
    let mut payload: Vec<u8> = Vec::new();
    let mut i: usize = 0;
    while i < ts.len()
        invariant
            i <= ts@.len(),
            payload@ == concat_texts(texts_view(ts@).subrange(0, i as int)),
        decreases ts@.len() - i,
    {
        push_text(&mut payload, &ts[i]);
        proof {
            let a = texts_view(ts@).subrange(0, i + 1);
            assert(a.drop_last() =~= texts_view(ts@).subrange(0, i as int));
        }
        i += 1;
    }
    assert(texts_view(ts@).subrange(0, i as int) =~= texts_view(ts@));
    push_list(out, &payload);
}

// ---------------------------------------------------------------------------
// Decoding
/// The value of the big-endian bytes `data[from..to]`.
fn read_be(data: &[u8], from: usize, to: usize) -> (r: u64)
    requires
        from <= to <= data@.len(),
        to - from <= 8,
    ensures
        r as nat == be_value(data@.subrange(from as int, to as int)),
{
    let mut acc: u64 = 0;
    let mut i: usize = from;
    assert(data@.subrange(from as int, from as int) =~= Seq::<u8>::empty());
    while i < to
        invariant
            from <= i <= to <= data@.len(),
            to - from <= 8,
            acc as nat == be_value(data@.subrange(from as int, i as int)),
            acc < p256((i - from) as nat),
        decreases to - i,
    {
        proof {
            lemma_p256_mono((i + 1 - from) as nat, 8);
            lemma_p256_8();
            let sub = data@.subrange(from as int, i + 1);
            assert(sub.drop_last() =~= data@.subrange(from as int, i as int));
            assert(p256((i + 1 - from) as nat) == 256 * p256((i - from) as nat));
        }
        acc = acc * 256 + data[i] as u64;
        i += 1;
    }
    acc
}

/// The length announced by a long-form header at `pos`, if it fits before `end`.
fn read_long_len(data: &[u8], pos: usize, end: usize, ll: usize) -> (r: Option<usize>)
    requires
        pos < end <= data@.len(),
        1 <= ll <= 8,
    ensures
        ({
            let s = data@.subrange(pos as int, end as int);
            match r {
                Some(n) => long_len(s, ll as int) == Some(n as int) && 1 + ll + n <= s.len(),
                None => long_len(s, ll as int) is None || long_len(s, ll as int)->Some_0 + 1
                    + ll > s.len(),
            }
        }),
{
    let ghost s = data@.subrange(pos as int, end as int);
    let avail = end - pos;
    if ll >= avail {
        return None;
    }
    if data[pos + 1] == 0 {
        return None;
    }
    let v = read_be(data, pos + 1, pos + 1 + ll);
    assert(data@.subrange(pos + 1, pos + 1 + ll) =~= s.subrange(1, 1 + ll as int));
    if v <= 55 {
        return None;
    }
    if v > (avail - 1 - ll) as u64 {
        return None;
    }
    Some(v as usize)
}

/// The item at `pos`: whether it is a list, and the bounds of its payload.
pub fn read_header(data: &[u8], pos: usize, end: usize) -> (r: Option<(bool, usize, usize)>)
    requires
        pos <= end <= data@.len(),
    ensures
        ({
            let h = header(data@.subrange(pos as int, end as int));
            match r {
                Some(x) => h == Some((x.0, x.1 - pos, x.2 - pos)) && pos <= x.1 <= x.2 <= end,
                None => h is None,
            }
        }),
{
    let ghost s = data@.subrange(pos as int, end as int);
    if pos >= end {
        return None;
    }
    let b = data[pos];
    let avail = end - pos;
    if b < 0x80 {
        Some((false, pos, pos + 1))
    } else if b <= 0xb7 {
        let n = (b - 0x80) as usize;
        if n >= avail {
            return None;
        }
        if b == 0x81 && data[pos + 1] < 0x80 {
            return None;
        }
        Some((false, pos + 1, pos + 1 + n))
    } else if b <= 0xbf {
        let ll = (b - 0xb7) as usize;
        match read_long_len(data, pos, end, ll) {
            Some(n) => Some((false, pos + 1 + ll, pos + 1 + ll + n)),
            None => None,
        }
    } else if b <= 0xf7 {
        let n = (b - 0xc0) as usize;
        if n >= avail {
            return None;
        }
        Some((true, pos + 1, pos + 1 + n))
    } else {
        let ll = (b - 0xf7) as usize;
        match read_long_len(data, pos, end, ll) {
            Some(n) => Some((true, pos + 1 + ll, pos + 1 + ll + n)),
            None => None,
        }
    }
}

/// The bounds of the items of the list payload `data[start..end]`.
pub fn read_items(data: &[u8], start: usize, end: usize) -> (r: Option<Vec<(usize, usize)>>)
    requires
        start <= end <= data@.len(),
    ensures
        match split_items(data@.subrange(start as int, end as int)) {
            Some(items) => r is Some && r->Some_0@.len() == items.len() && forall|i: int|
                0 <= i < items.len() ==> start <= (#[trigger] r->Some_0@[i]).0 <= r->Some_0@[i].1
                    <= end && items[i] == data@.subrange(r->Some_0@[i].0 as int, r->Some_0@[i].1 as int),
            None => r is None,
        },
{
    let mut pos = start;
    let mut out: Vec<(usize, usize)> = Vec::new();
    let ghost mut acc: Seq<Seq<u8>> = Seq::empty();
    while pos < end
        invariant
            start <= pos <= end <= data@.len(),
            out@.len() == acc.len(),
            forall|i: int|
                0 <= i < acc.len() ==> start <= (#[trigger] out@[i]).0 <= out@[i].1 <= end && acc[i]
                    == data@.subrange(out@[i].0 as int, out@[i].1 as int),
            split_items(data@.subrange(start as int, end as int)) == match split_items(
                data@.subrange(pos as int, end as int),
            ) {
                Some(r) => Some(acc + r),
                None => None::<Seq<Seq<u8>>>,
            },
        decreases end - pos,
    {
        match read_header(data, pos, end) {
            Some(h) => {
                let ghost s = data@.subrange(pos as int, end as int);
                assert(h.2 > pos);
                assert(s.subrange(h.2 - pos, s.len() as int) =~= data@.subrange(h.2 as int, end as int));
                assert(s.subrange(0, h.2 - pos) =~= data@.subrange(pos as int, h.2 as int));
                proof {
                    let x = data@.subrange(pos as int, h.2 as int);
                    match split_items(data@.subrange(h.2 as int, end as int)) {
                        Some(r) => {
                            assert(acc + (seq![x] + r) =~= acc.push(x) + r);
                        },
                        None => {},
                    }
                    acc = acc.push(x);
                }
                out.push((pos, h.2));
                pos = h.2;
            },
            None => {
                return None;
            },
        }
    }
    assert(acc + Seq::<Seq<u8>>::empty() =~= acc);
    Some(out)
}

/// The payload bounds of the byte string that spans exactly `data[start..end]`.
fn read_string(data: &[u8], start: usize, end: usize) -> (r: Option<(usize, usize)>)
    requires
        start <= end <= data@.len(),
    ensures
        match string_payload(data@.subrange(start as int, end as int)) {
            Some(p) => r is Some && start <= r->Some_0.0 <= r->Some_0.1 <= end && p
                == data@.subrange(r->Some_0.0 as int, r->Some_0.1 as int),
            None => r is None,
        },
{
    match read_header(data, start, end) {
        Some(h) => {
            if !h.0 && h.2 == end {
                assert(data@.subrange(start as int, end as int).subrange(h.1 - start, h.2 - start)
                    =~= data@.subrange(h.1 as int, h.2 as int));
                Some((h.1, h.2))
            } else {
                None
            }
        },
        None => None,
    }
}

/// The bytes of the byte string `data[start..end]`.
pub fn read_bytes(data: &[u8], start: usize, end: usize) -> (r: Option<Vec<u8>>)
    requires
        start <= end <= data@.len(),
    ensures
        match string_payload(data@.subrange(start as int, end as int)) {
            Some(p) => r is Some && r->Some_0@ == p,
            None => r is None,
        },
{
    match read_string(data, start, end) {
        Some((a, b)) => Some(slice_to_vec(slice_subrange(data, a, b))),
        None => None,
    }
}

/// The unsigned integer of at most `width` bytes in `data[start..end]`.
pub fn read_uint(data: &[u8], start: usize, end: usize, width: usize) -> (r: Option<u64>)
    requires
        start <= end <= data@.len(),
        width <= 8,
    ensures
        match dec_uint(data@.subrange(start as int, end as int), width as nat) {
            Some(v) => r == Some(v as u64) && v < p256(width as nat),
            None => r is None,
        },
{
    match read_string(data, start, end) {
        Some((a, b)) => {
            if b - a <= width && (b - a == 0 || data[a] != 0) {
                let v = read_be(data, a, b);
                proof {
                    lemma_be_value_bound(data@.subrange(a as int, b as int));
                    lemma_p256_mono((b - a) as nat, width as nat);
                }
                Some(v)
            } else {
                None
            }
        },
        None => None,
    }
}

/// Relies on `std::str::from_utf8`: it accepts exactly the well-formed UTF-8
/// byte sequences, and the accepted text has exactly those bytes.
#[verifier::external_body]
fn utf8_text(b: &[u8]) -> (r: Option<String>)
    ensures
        r is Some <==> valid_utf8(b@),
        r is Some ==> encode_utf8(r->Some_0@) == b@,
{
    match std::str::from_utf8(b) {
        Ok(s) => Some(s.to_owned()),
        Err(_) => None,
    }
}

/// The text in `data[start..end]`.
pub fn read_text(data: &[u8], start: usize, end: usize) -> (r: Option<String>)
    requires
        start <= end <= data@.len(),
    ensures
        match dec_text(data@.subrange(start as int, end as int)) {
            Some(t) => r is Some && r->Some_0@ == t,
            None => r is None,
        },
{
    broadcast use vstd::utf8::encode_utf8_decode_utf8;

    match read_string(data, start, end) {
        Some((a, b)) => utf8_text(slice_subrange(data, a, b)),
        None => None,
    }
}

/// The items of the list that spans exactly `data[start..end]`.
pub fn read_list(data: &[u8], start: usize, end: usize) -> (r: Option<Vec<(usize, usize)>>)
    requires
        start <= end <= data@.len(),
    ensures
        match list_items(data@.subrange(start as int, end as int)) {
            Some(items) => r is Some && r->Some_0@.len() == items.len() && forall|i: int|
                0 <= i < items.len() ==> start <= (#[trigger] r->Some_0@[i]).0 <= r->Some_0@[i].1
                    <= end && items[i] == data@.subrange(r->Some_0@[i].0 as int, r->Some_0@[i].1 as int),
            None => r is None,
        },
{
    match read_header(data, start, end) {
        Some(h) => {
            if h.0 && h.2 == end {
                assert(data@.subrange(start as int, end as int).subrange(h.1 - start, h.2 - start)
                    =~= data@.subrange(h.1 as int, h.2 as int));
                read_items(data, h.1, h.2)
            } else {
                None
            }
        },
        None => None,
    }
}

/// The texts of the list that spans exactly `data[start..end]`.
pub fn read_texts(data: &[u8], start: usize, end: usize) -> (r: Option<Vec<String>>)
    requires
        start <= end <= data@.len(),
    ensures
        match dec_texts(data@.subrange(start as int, end as int)) {
            Some(ts) => r is Some && texts_view(r->Some_0@) == ts,
            None => r is None,
        },
{
    let ghost s = data@.subrange(start as int, end as int);
    let items = match read_list(data, start, end) {
        Some(items) => items,
        None => {
            return None;
        },
    };
    let ghost its = list_items(s)->Some_0;
    let mut out: Vec<String> = Vec::new();
    let mut i: usize = 0;
    while i < items.len()
        invariant
            i <= items@.len() == its.len(),
            forall|k: int|
                0 <= k < its.len() ==> start <= (#[trigger] items@[k]).0 <= items@[k].1 <= end
                    && its[k] == data@.subrange(items@[k].0 as int, items@[k].1 as int),
            end <= data@.len(),
            list_items(s) == Some(its),
            s == data@.subrange(start as int, end as int),
            dec_text_items(its.subrange(0, i as int)) == Some(texts_view(out@)),
        decreases items@.len() - i,
    {
        let (a, b) = items[i];
        assert(its[i as int] == data@.subrange(a as int, b as int));
        match read_text(data, a, b) {
            Some(t) => {
                proof {
                    let sub = its.subrange(0, i + 1);
                    assert(sub.drop_last() =~= its.subrange(0, i as int));
                }
                let ghost prev = texts_view(out@);
                out.push(t);
                assert(texts_view(out@) =~= prev.push(t@));
                i += 1;
            },
            None => {
                proof {
                    lemma_dec_text_items_fail(its, i as int);
                }
                return None;
            },
        }
    }
    assert(its.subrange(0, i as int) =~= its);
    Some(out)
}

} // verus!
