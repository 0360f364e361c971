use crate::command::CommandView;
use crate::database::{next_store, reply_spec};
use crate::decimal::{
    all_digits, i64_value, int_text, lemma_nat_text_digits, nat_text, MINUS, PLUS,
};
use crate::resp::{
    crlf, decode_items, decode_spec, encode_all, encode_value, line_end, Value, CR, LF,
    TAG_ARRAY, TAG_BULK, TAG_ERROR, TAG_INTEGER, TAG_SIMPLE,
};
use vstd::prelude::*;

verus! {

/// No CRLF pair stands anywhere in `s`.
pub open spec fn no_crlf(s: Seq<u8>) -> bool {
    forall|i: int| 0 <= i < s.len() - 1 ==> !(#[trigger] s[i] == CR && s[i + 1] == LF)
}

/// A value that can travel on the wire: not `Null`, no CRLF inside a line, every number and
/// length within the signed 64-bit range, and every array element transmittable too.
pub open spec fn transmittable(v: Value) -> bool
    decreases v,
{
    match v {
        Value::Null => false,
        Value::Simple(s) => no_crlf(s),
        Value::Error(s) => no_crlf(s),
        Value::Integer(i) => i64::MIN <= i <= i64::MAX,
        Value::Bulk(b) => match b {
            Some(s) => s.len() <= i64::MAX,
            None => true,
        },
        Value::Array(a) => match a {
            Some(items) => items.len() <= i64::MAX && forall|j: int|
                0 <= j < items.len() ==> transmittable(#[trigger] items[j]),
            None => true,
        },
    }
}

proof fn lemma_first_crlf(b: Seq<u8>, start: int, e: int)
    requires
        0 <= start <= e,
        e + 1 < b.len(),
        b[e] == CR,
        b[e + 1] == LF,
        forall|j: int| start <= j < e ==> !(#[trigger] b[j] == CR && b[j + 1] == LF),
    ensures
        line_end(b, start) == Some(e),
    decreases e - start,
{
    if start < e {
        lemma_first_crlf(b, start + 1, e);
    }
}

/// The line `tag x CRLF` at the start of a buffer ends right after `x`.
proof fn lemma_header_line(tag: u8, x: Seq<u8>, rest: Seq<u8>)
    requires
        no_crlf(x),
    ensures
        line_end(seq![tag] + x + crlf() + rest, 1) == Some(1 + x.len() as int),
        (seq![tag] + x + crlf() + rest).subrange(1, 1 + x.len() as int) == x,
        (seq![tag] + x + crlf() + rest).subrange(3 + x.len() as int, (seq![tag] + x + crlf() + rest).len() as int) == rest,
{
    let b = seq![tag] + x + crlf() + rest;
    let e = 1 + x.len() as int;
    assert(b[e] == CR && b[e + 1] == LF);
    assert forall|j: int| 1 <= j < e implies !(#[trigger] b[j] == CR && b[j + 1] == LF) by {
        assert(b[j] == x[j - 1]);
        if j + 1 < e {
            assert(b[j + 1] == x[j]);
        } else {
            assert(b[j + 1] == CR);
        }
    }
    lemma_first_crlf(b, 1, e);
    assert(b.subrange(1, e) =~= x);
    assert(b.subrange(3 + x.len() as int, b.len() as int) =~= rest);
}

/// Decimal text holds no CR, so no CRLF pair.
proof fn lemma_int_text(i: int)
    requires
        i64::MIN <= i <= i64::MAX,
    ensures
        no_crlf(int_text(i)),
        i64_value(int_text(i)) == Some(i as i64),
{
    if i < 0 {
        let d = nat_text((-i) as nat);
        lemma_nat_text_digits((-i) as nat);
        let t = int_text(i);
        assert(t.drop_first() =~= d);
        assert forall|j: int| 0 <= j < t.len() - 1 implies !(#[trigger] t[j] == CR && t[j + 1] == LF) by {
            if j > 0 {
                assert(t[j] == d[j - 1]);
            }
        }
    } else {
        let d = nat_text(i as nat);
        lemma_nat_text_digits(i as nat);
        assert(d[0] != MINUS && d[0] != PLUS);
        assert forall|j: int| 0 <= j < d.len() - 1 implies !(#[trigger] d[j] == CR && d[j + 1] == LF) by {
            assert(all_digits(d));
        }
    }
}

proof fn lemma_encode_all_front(items: Seq<Value>)
    requires
        items.len() > 0,
    ensures
        encode_all(items) == encode_value(items[0]) + encode_all(items.subrange(1, items.len() as int)),
    decreases items.len(),
{
    let rest = items.subrange(1, items.len() as int);
    if items.len() == 1 {
        assert(items.subrange(0, 0) =~= Seq::<Value>::empty());
        assert(rest =~= Seq::<Value>::empty());
        assert(encode_all(items) =~= encode_value(items[0]) + encode_all(rest));
    } else {
        let init = items.subrange(0, items.len() - 1);
        lemma_encode_all_front(init);
        assert(init.subrange(1, init.len() as int) =~= rest.subrange(0, rest.len() - 1));
        assert(init[0] == items[0]);
        assert(rest[rest.len() - 1] == items[items.len() - 1]);
        assert(encode_all(items) =~= encode_value(items[0]) + encode_all(rest));
    }
}

proof fn lemma_decode_encode(v: Value, t: Seq<u8>)
    requires
        transmittable(v),
    ensures
        decode_spec(encode_value(v) + t) == Ok::<(int, Value), crate::resp::DecodeError>(
            (encode_value(v).len() as int, v),
        ),
    decreases v,
{
    let b = encode_value(v) + t;
    match v {
        Value::Null => {},
        Value::Simple(s) => {
            assert(b =~= seq![TAG_SIMPLE] + s + crlf() + t);
            lemma_header_line(TAG_SIMPLE, s, t);
        },
        Value::Error(s) => {
            assert(b =~= seq![TAG_ERROR] + s + crlf() + t);
            lemma_header_line(TAG_ERROR, s, t);
        },
        Value::Integer(i) => {
            lemma_int_text(i);
            assert(b =~= seq![TAG_INTEGER] + int_text(i) + crlf() + t);
            lemma_header_line(TAG_INTEGER, int_text(i), t);
        },
        Value::Bulk(None) => {
            lemma_int_text(-1);
            assert(b =~= seq![TAG_BULK] + int_text(-1) + crlf() + t);
            lemma_header_line(TAG_BULK, int_text(-1), t);
        },
        Value::Bulk(Some(s)) => {
            let x = nat_text(s.len());
            lemma_int_text(s.len() as int);
            let rest = s + crlf() + t;
            assert(b =~= seq![TAG_BULK] + x + crlf() + rest);
            lemma_header_line(TAG_BULK, x, rest);
            let h = 3 + x.len() as int;
            let n = s.len() as int;
            assert(b.subrange(h, h + n) =~= s);
            assert(b[h + n] == CR && b[h + n + 1] == LF);
        },
        Value::Array(None) => {
            lemma_int_text(-1);
            assert(b =~= seq![TAG_ARRAY] + int_text(-1) + crlf() + t);
            lemma_header_line(TAG_ARRAY, int_text(-1), t);
        },
        Value::Array(Some(items)) => {
            let x = nat_text(items.len());
            lemma_int_text(items.len() as int);
            let rest = encode_all(items) + t;
            assert(b =~= seq![TAG_ARRAY] + x + crlf() + rest);
            lemma_header_line(TAG_ARRAY, x, rest);
            lemma_decode_encode_all(items, t);
        },
    }
}

proof fn lemma_decode_encode_all(items: Seq<Value>, t: Seq<u8>)
    requires
        forall|j: int| 0 <= j < items.len() ==> transmittable(#[trigger] items[j]),
    ensures
        decode_items(encode_all(items) + t, items.len() as int) == Ok::<
            (int, Seq<Value>),
            crate::resp::DecodeError,
        >((encode_all(items).len() as int, items)),
    decreases items,
{
    if items.len() == 0 {
        assert(encode_all(items).len() == 0);
        assert(items =~= Seq::<Value>::empty());
    } else {
        let rest = items.subrange(1, items.len() as int);
        lemma_encode_all_front(items);
        let head = encode_value(items[0]);
        let b = encode_all(items) + t;
        assert(b =~= head + (encode_all(rest) + t));
        assert(transmittable(items[0]));
        lemma_decode_encode(items[0], encode_all(rest) + t);
        assert(b.subrange(head.len() as int, b.len() as int) =~= encode_all(rest) + t);
        lemma_decode_encode_all(rest, t);
        assert(seq![items[0]] + rest =~= items);
    }
}

/// Decoding the encoding of a value that can travel on the wire gives back that value, and
/// takes up exactly the bytes of the encoding, whatever follows them.
pub proof fn law_round_trip(v: Value, rest: Seq<u8>)
    requires
        transmittable(v),
    ensures
        decode_spec(encode_value(v) + rest) == Ok::<(int, Value), crate::resp::DecodeError>(
            (encode_value(v).len() as int, v),
        ),
        decode_spec(encode_value(v)) == Ok::<(int, Value), crate::resp::DecodeError>(
            (encode_value(v).len() as int, v),
        ),
{
    lemma_decode_encode(v, rest);
    lemma_decode_encode(v, Seq::empty());
    assert(encode_value(v) + Seq::<u8>::empty() =~= encode_value(v));
}

/// After a key is set twice, the store holds the second value under it, and nothing of the
/// first value can be seen: the store is as if only the second set had happened.
pub proof fn law_last_set_wins(store: Map<Seq<char>, Value>, k: Seq<char>, v1: Value, v2: Value)
    ensures
        next_store(next_store(store, CommandView::SetKey(k, v1)), CommandView::SetKey(k, v2))
            == next_store(store, CommandView::SetKey(k, v2)),
        reply_spec(
            next_store(next_store(store, CommandView::SetKey(k, v1)), CommandView::SetKey(k, v2)),
            CommandView::Get(k),
        ) == v2,
{
    assert(store.insert(k, v1).insert(k, v2) =~= store.insert(k, v2));
}

/// On an empty store, getting any key replies with the null bulk string.
pub proof fn law_missing_key_is_null(k: Seq<char>)
    ensures
        reply_spec(Map::empty(), CommandView::Get(k)) == Value::Bulk(None),
{
}

} // verus!
