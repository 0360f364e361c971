use crate::decimal::{i64_value, int_text, nat_text, parse_i64, push_int_text, push_nat_text};
use vstd::prelude::*;

verus! {

broadcast use vstd::std_specs::vec::axiom_vec_index_decreases;

/// Carriage return, the first byte of a line terminator.
pub const CR: u8 = 13;

/// Line feed, the last byte of a line terminator.
pub const LF: u8 = 10;

/// Leading byte of a simple string.
pub const TAG_SIMPLE: u8 = 43;

/// Leading byte of an error string.
pub const TAG_ERROR: u8 = 45;

/// Leading byte of an integer.
pub const TAG_INTEGER: u8 = 58;

/// Leading byte of a bulk string.
pub const TAG_BULK: u8 = 36;

/// Leading byte of an array.
pub const TAG_ARRAY: u8 = 42;

/// The line terminator.
pub open spec fn crlf() -> Seq<u8> {
    seq![CR, LF]
}

/// Mathematical model of a protocol value.
pub enum Value {
    Null,
    Simple(Seq<u8>),
    Error(Seq<u8>),
    Integer(int),
    Bulk(Option<Seq<u8>>),
    Array(Option<Seq<Value>>),
}

/// A protocol value. `Null` is a placeholder that encodes to nothing and is never decoded.
#[derive(Debug, PartialEq, Eq)]
pub enum Resp {
    Null,
    SimpleString(Vec<u8>),
    Error(Vec<u8>),
    Integer(i64),
    BulkString(Option<Vec<u8>>),
    Array(Option<Vec<Resp>>),
}

impl Resp {
    /// The model of this value; an array's elements by their own models.
    pub open spec fn view(&self) -> Value
        decreases self,
    {
        match self {
            Resp::Null => Value::Null,
            Resp::SimpleString(s) => Value::Simple(s@),
            Resp::Error(s) => Value::Error(s@),
            Resp::Integer(i) => Value::Integer(*i as int),
            Resp::BulkString(b) => match b {
                Some(s) => Value::Bulk(Some(s@)),
                None => Value::Bulk(None),
            },
            Resp::Array(a) => match a {
                Some(items) => Value::Array(Some(Seq::new(items.len() as nat, |i: int| if 0 <= i < items.len() { items[i].view() } else { Value::Null }))),
                None => Value::Array(None),
            },
        }
    }
}

fn copy_bytes(s: &Vec<u8>) -> (r: Vec<u8>)
    ensures
        r@ == s@,
{
    let mut r: Vec<u8> = Vec::new();
    push_range(&mut r, s.as_slice(), 0, s.len());
    assert(s@.subrange(0, s@.len() as int) =~= s@);
    r
}

/// Appends `src[start..end]` to `out`.
fn push_range(out: &mut Vec<u8>, src: &[u8], start: usize, end: usize)
    requires
        start <= end <= src@.len(),
    ensures
        final(out)@ == old(out)@ + src@.subrange(start as int, end as int),
{
    let mut i: usize = start;
    while i < end
        invariant
            start <= i <= end <= src@.len(),
            out@ == old(out)@ + src@.subrange(start as int, i as int),
        decreases end - i,
    {
        out.push(src[i]);
        i = i + 1;
        assert(out@ =~= old(out)@ + src@.subrange(start as int, i as int));
    }
}

impl Resp {
    /// A structural copy of this value.
    pub fn duplicate(&self) -> (r: Resp)
        ensures
            r@ == self@,
        decreases self,
    {
        match self {
            Resp::Null => Resp::Null,
            Resp::SimpleString(s) => Resp::SimpleString(copy_bytes(s)),
            Resp::Error(s) => Resp::Error(copy_bytes(s)),
            Resp::Integer(i) => Resp::Integer(*i),
            Resp::BulkString(b) => match b {
                Some(s) => Resp::BulkString(Some(copy_bytes(s))),
                None => Resp::BulkString(None),
            },
            Resp::Array(a) => match a {
                Some(items) => {
                    let mut out: Vec<Resp> = Vec::new();
                    let mut i: usize = 0;
                    while i < items.len()
                        invariant
                            *self == Resp::Array(Some(*items)),
                            i <= items.len(),
                            out.len() == i,
                            forall|j: int| 0 <= j < i ==> out[j]@ == items[j]@,
                        decreases items.len() - i,
                    {
                        proof {
                            assert(decreases_to!(*self => self->Array_0));
                            assert(decreases_to!(self->Array_0 => self->Array_0->Some_0));
                            assert(decreases_to!(self->Array_0->Some_0 => items[i as int]));
                        }
                        let c = items[i].duplicate();
                        out.push(c);
                        i = i + 1;
                    }
                    let r = Resp::Array(Some(out));
                    assert(r@->Array_0->Some_0 =~= self@->Array_0->Some_0);
                    r
                },
                None => Resp::Array(None),
            },
        }
    }
}

impl Clone for Resp {
    fn clone(&self) -> (r: Resp)
        ensures
            r@ == self@,
    {
        self.duplicate()
    }
}

/// The models of a sequence of values.
pub open spec fn views(items: Seq<Resp>) -> Seq<Value> {
    items.map_values(|r: Resp| r@)
}

/// The exact bytes that stand for a value on the wire.
pub open spec fn encode_value(v: Value) -> Seq<u8>
    decreases v,
{
    match v {
        Value::Null => Seq::empty(),
        Value::Simple(s) => seq![TAG_SIMPLE] + s + crlf(),
        Value::Error(s) => seq![TAG_ERROR] + s + crlf(),
        Value::Integer(i) => seq![TAG_INTEGER] + int_text(i) + crlf(),
        Value::Bulk(b) => match b {
            Some(s) => seq![TAG_BULK] + nat_text(s.len()) + crlf() + s + crlf(),
            None => seq![TAG_BULK] + int_text(-1) + crlf(),
        },
        Value::Array(a) => match a {
            Some(items) => seq![TAG_ARRAY] + nat_text(items.len()) + crlf() + encode_all(items),
            None => seq![TAG_ARRAY] + int_text(-1) + crlf(),
        },
    }
}

/// The encodings of a sequence of values, one after another.
pub open spec fn encode_all(items: Seq<Value>) -> Seq<u8>
    decreases items,
{
    if items.len() == 0 {
        Seq::empty()
    } else {
        encode_all(items.subrange(0, items.len() - 1)) + encode_value(items[items.len() - 1])
    }
}

impl Resp {
    /// An array's model holds the models of its elements.
    pub proof fn lemma_array_view(&self)
        requires
            *self matches Resp::Array(Some(_)),
        ensures
            self@ == Value::Array(Some(views(self->Array_0->Some_0@))),
    {
        assert(self@->Array_0->Some_0 =~= views(self->Array_0->Some_0@));
    }

    /// The wire encoding of this value.
    pub fn encode(&self) -> (r: Vec<u8>)
        ensures
            r@ == encode_value(self@),
    {
        let mut out: Vec<u8> = Vec::new();
        self.encode_into(&mut out);
        assert(out@ =~= encode_value(self@));
        out
    }

    /// Appends the wire encoding of this value to `out`.
    pub fn encode_into(&self, out: &mut Vec<u8>)
        ensures
            final(out)@ == old(out)@ + encode_value(self@),
        decreases self,
    {
        match self {
            Resp::Null => {
                assert(old(out)@ + encode_value(self@) =~= old(out)@);
            },
            Resp::SimpleString(s) => {
                out.push(TAG_SIMPLE);
                push_range(out, s.as_slice(), 0, s.len());
                out.push(CR);
                out.push(LF);
                assert(s@.subrange(0, s@.len() as int) =~= s@);
                assert(final(out)@ =~= old(out)@ + encode_value(self@));
            },
            Resp::Error(s) => {
                out.push(TAG_ERROR);
                push_range(out, s.as_slice(), 0, s.len());
                out.push(CR);
                out.push(LF);
                assert(s@.subrange(0, s@.len() as int) =~= s@);
                assert(final(out)@ =~= old(out)@ + encode_value(self@));
            },
            Resp::Integer(i) => {
                out.push(TAG_INTEGER);
                push_int_text(*i, out);
                out.push(CR);
                out.push(LF);
                assert(final(out)@ =~= old(out)@ + encode_value(self@));
            },
            Resp::BulkString(b) => match b {
                Some(s) => {
                    out.push(TAG_BULK);
                    push_nat_text(s.len() as u64, out);
                    out.push(CR);
                    out.push(LF);
                    push_range(out, s.as_slice(), 0, s.len());
                    out.push(CR);
                    out.push(LF);
                    assert(s@.subrange(0, s@.len() as int) =~= s@);
                    assert(final(out)@ =~= old(out)@ + encode_value(self@));
                },
                None => {
                    out.push(TAG_BULK);
                    push_int_text(-1, out);
                    out.push(CR);
                    out.push(LF);
                    assert(final(out)@ =~= old(out)@ + encode_value(self@));
                },
            },
            Resp::Array(a) => match a {
                Some(items) => {
                    proof {
                        self.lemma_array_view();
                    }
                    let ghost vs = views(items@);
                    out.push(TAG_ARRAY);
                    push_nat_text(items.len() as u64, out);
                    out.push(CR);
                    out.push(LF);
                    let ghost head = out@;
                    let mut i: usize = 0;
                    while i < items.len()
                        invariant
                            *self == Resp::Array(Some(*items)),
                            vs == views(items@),
                            i <= items.len(),
                            out@ == head + encode_all(vs.subrange(0, i as int)),
                        decreases items.len() - i,
                    {
                        proof {
                            assert(decreases_to!(*self => self->Array_0));
                            assert(decreases_to!(self->Array_0 => self->Array_0->Some_0));
                            assert(decreases_to!(self->Array_0->Some_0 => items[i as int]));
                        }
                        items[i].encode_into(out);
                        proof {
                            let next = vs.subrange(0, i + 1);
                            assert(next.subrange(0, i as int) =~= vs.subrange(0, i as int));
                            assert(next[i as int] == items[i as int]@);
                        }
                        i = i + 1;
                        assert(out@ =~= head + encode_all(vs.subrange(0, i as int)));
                    }
                    assert(vs.subrange(0, i as int) =~= vs);
                    assert(final(out)@ =~= old(out)@ + encode_value(self@));
                },
                None => {
                    out.push(TAG_ARRAY);
                    push_int_text(-1, out);
                    out.push(CR);
                    out.push(LF);
                    assert(final(out)@ =~= old(out)@ + encode_value(self@));
                },
            },
        }
    }
}

/// Why a byte buffer does not hold one well-formed value at its start.
#[derive(Debug, Clone, Copy, PartialEq, Eq, Structural)]
pub enum DecodeError {
    /// The buffer ends before a value starts.
    NeedMoreData,
    /// A line lacks its CRLF terminator.
    MalformedLine,
    /// An integer or length line is not a signed 64-bit decimal number.
    InvalidInteger,
    /// Fewer bytes remain than a bulk string's length announces.
    Truncated,
    /// The leading byte names no known value type.
    UnknownType,
}

/// Index of the first CRLF pair in `b` at or after `i`.
pub open spec fn line_end(b: Seq<u8>, i: int) -> Option<int>
    decreases b.len() - i,
{
    if i < 0 || i + 1 >= b.len() {
        None
    } else if b[i] == CR && b[i + 1] == LF {
        Some(i)
    } else {
        line_end(b, i + 1)
    }
}

/// Whether `t` is the leading byte of some value type.
pub open spec fn is_tag(t: u8) -> bool {
    t == TAG_SIMPLE || t == TAG_ERROR || t == TAG_INTEGER || t == TAG_BULK || t == TAG_ARRAY
}

/// The value at the start of `b`, with the number of bytes it takes up.
pub open spec fn decode_spec(b: Seq<u8>) -> Result<(int, Value), DecodeError>
    decreases b.len(), 0int, 0int,
{
    if b.len() == 0 {
        Err(DecodeError::NeedMoreData)
    } else if !is_tag(b[0]) {
        Err(DecodeError::UnknownType)
    } else {
        match line_end(b, 1) {
            None => Err(DecodeError::MalformedLine),
            // `line_end` only finds terminators that lie inside `b` after the tag, so this first
            // branch is never taken; it lets the recursion below be seen to terminate.
            Some(e) => if e < 1 || e + 2 > b.len() {
                Err(DecodeError::MalformedLine)
            } else {
                let line = b.subrange(1, e);
                let h = e + 2;
                if b[0] == TAG_SIMPLE {
                    Ok((h, Value::Simple(line)))
                } else if b[0] == TAG_ERROR {
                    Ok((h, Value::Error(line)))
                } else {
                    match i64_value(line) {
                        None => Err(DecodeError::InvalidInteger),
                        Some(n) => if b[0] == TAG_INTEGER {
                            Ok((h, Value::Integer(n as int)))
                        } else if n < 0 {
                            if b[0] == TAG_BULK {
                                Ok((h, Value::Bulk(None)))
                            } else {
                                Ok((h, Value::Array(None)))
                            }
                        } else if b[0] == TAG_BULK {
                            if b.len() < h + n + 2 {
                                Err(DecodeError::Truncated)
                            } else if b[h + n] != CR || b[h + n + 1] != LF {
                                Err(DecodeError::MalformedLine)
                            } else {
                                Ok((h + n + 2, Value::Bulk(Some(b.subrange(h, h + n)))))
                            }
                        } else {
                            match decode_items(b.subrange(h, b.len() as int), n as int) {
                                Err(err) => Err(err),
                                Ok((k, items)) => Ok((h + k, Value::Array(Some(items)))),
                            }
                        },
                    }
                }
            },
        }
    }
}

/// `n` values one after another at the start of `b`, with the bytes they take up.
pub open spec fn decode_items(b: Seq<u8>, n: int) -> Result<(int, Seq<Value>), DecodeError>
    decreases b.len(), 1int, n,
{
    if n <= 0 {
        Ok((0, Seq::empty()))
    } else {
        match decode_spec(b) {
            Err(err) => Err(err),
            // A decoded value never takes more bytes than there are (see `decode_at`), so the
            // `else` branch is never taken; it lets the recursion be seen to terminate.
            Ok((k, v)) => if 0 <= k <= b.len() {
                prepend_item(k, v, decode_items(b.subrange(k, b.len() as int), n - 1))
            } else {
                Err(DecodeError::Truncated)
            },
        }
    }
}

/// `v`, taking up `k` bytes, followed by what `rest` decoded.
pub open spec fn prepend_item(k: int, v: Value, rest: Result<(int, Seq<Value>), DecodeError>) -> Result<
    (int, Seq<Value>),
    DecodeError,
> {
    match rest {
        Err(err) => Err(err),
        Ok((k2, vs)) => Ok((k + k2, seq![v] + vs)),
    }
}

/// `vs`, taking up `k` bytes, followed by what `rest` decoded.
pub open spec fn prepend_items(k: int, vs: Seq<Value>, rest: Result<(int, Seq<Value>), DecodeError>) -> Result<
    (int, Seq<Value>),
    DecodeError,
> {
    match rest {
        Err(err) => Err(err),
        Ok((k2, ws)) => Ok((k + k2, vs + ws)),
    }
}

/// What a decoding outcome stands for.
pub open spec fn outcome(r: Result<(usize, Resp), DecodeError>) -> Result<(int, Value), DecodeError> {
    match r {
        Ok((k, v)) => Ok((k as int, v@)),
        Err(err) => Err(err),
    }
}

/// Looking for a terminator in a suffix is looking for it in the whole, shifted.
pub proof fn lemma_line_end_shift(b: Seq<u8>, p: int, i: int)
    requires
        0 <= p <= b.len(),
        0 <= i,
    ensures
        line_end(b.subrange(p, b.len() as int), i) == (match line_end(b, p + i) {
            Some(e) => Some(e - p),
            None => None,
        }),
    decreases b.len() - p - i,
{
    let s = b.subrange(p, b.len() as int);
    if i + 1 < s.len() {
        assert(s[i] == b[p + i] && s[i + 1] == b[p + i + 1]);
        lemma_line_end_shift(b, p, i + 1);
    }
}

/// Index of the first CRLF pair in `buf` at or after `from`.
fn find_crlf(buf: &[u8], from: usize) -> (r: Option<usize>)
    requires
        from <= buf@.len(),
    ensures
        (match r {
            Some(e) => Some(e as int),
            None => None,
        }) == line_end(buf@, from as int),
        r matches Some(e) ==> from <= e && e + 1 < buf@.len(),
{
    let mut i: usize = from;
    while buf.len() - i > 1
        invariant
            from <= i <= buf@.len(),
            line_end(buf@, from as int) == line_end(buf@, i as int),
        decreases buf@.len() - i,
    {
        if buf[i] == CR && buf[i + 1] == LF {
            return Some(i);
        }
        i = i + 1;
    }
    None
}

/// Decodes the value that starts at `buf[pos]`; on success also gives the number of bytes it
/// takes up.
fn decode_at(buf: &[u8], pos: usize) -> (r: Result<(usize, Resp), DecodeError>)
    requires
        pos <= buf@.len(),
    ensures
        outcome(r) == decode_spec(buf@.subrange(pos as int, buf@.len() as int)),
        r matches Ok((k, _)) ==> 1 <= k <= buf@.len() - pos,
    decreases buf@.len() - pos,
{
    let ghost b = buf@.subrange(pos as int, buf@.len() as int);
    if pos == buf.len() {
        return Err(DecodeError::NeedMoreData);
    }
    let tag = buf[pos];
    assert(b[0] == tag);
    if !(tag == TAG_SIMPLE || tag == TAG_ERROR || tag == TAG_INTEGER || tag == TAG_BULK
        || tag == TAG_ARRAY) {
        return Err(DecodeError::UnknownType);
    }
    proof {
        lemma_line_end_shift(buf@, pos as int, 1);
    }
    let e = match find_crlf(buf, pos + 1) {
        None => {
            return Err(DecodeError::MalformedLine);
        },
        Some(e) => e,
    };
    let h: usize = e + 2;
    assert(b.subrange(1, e - pos) =~= buf@.subrange(pos + 1, e as int));
    if tag == TAG_SIMPLE || tag == TAG_ERROR {
        let mut line: Vec<u8> = Vec::new();
        push_range(&mut line, buf, pos + 1, e);
        assert(line@ =~= buf@.subrange(pos + 1, e as int));
        if tag == TAG_SIMPLE {
            return Ok((h - pos, Resp::SimpleString(line)));
        } else {
            return Ok((h - pos, Resp::Error(line)));
        }
    }
    let n = match parse_i64(buf, pos + 1, e) {
        None => {
            return Err(DecodeError::InvalidInteger);
        },
        Some(n) => n,
    };
    if tag == TAG_INTEGER {
        return Ok((h - pos, Resp::Integer(n)));
    }
    if n < 0 {
        if tag == TAG_BULK {
            return Ok((h - pos, Resp::BulkString(None)));
        } else {
            return Ok((h - pos, Resp::Array(None)));
        }
    }
    let len: u64 = n as u64;
    if tag == TAG_BULK {
        let remaining: usize = buf.len() - h;
        if remaining < 2 || len > (remaining - 2) as u64 {
            return Err(DecodeError::Truncated);
        }
        let stop: usize = h + len as usize;
        if buf[stop] != CR || buf[stop + 1] != LF {
            return Err(DecodeError::MalformedLine);
        }
        let mut payload: Vec<u8> = Vec::new();
        push_range(&mut payload, buf, h, stop);
        assert(payload@ =~= b.subrange(h - pos, h - pos + n));
        return Ok((stop + 2 - pos, Resp::BulkString(Some(payload))));
    }
    let ghost rest0 = buf@.subrange(h as int, buf@.len() as int);
    assert(b.subrange(h - pos, b.len() as int) =~= rest0);
    assert(decode_spec(b) == (match decode_items(rest0, n as int) {
        Err(err) => Err(err),
        Ok((k, vs)) => Ok((h - pos + k, Value::Array(Some(vs)))),
    }));
    let mut items: Vec<Resp> = Vec::new();
    let mut cur: usize = h;
    let mut i: u64 = 0;
    let total: usize = buf.len();
    while i < len
        invariant
            total == buf@.len(),
            b == buf@.subrange(pos as int, buf@.len() as int),
            decode_spec(b) == (match decode_items(rest0, n as int) {
                Err(err) => Err(err),
                Ok((k, vs)) => Ok((h - pos + k, Value::Array(Some(vs)))),
            }),
            pos < h <= cur <= buf@.len(),
            i <= len,
            len == n,
            items@.len() == i,
            rest0 == buf@.subrange(h as int, buf@.len() as int),
            decode_items(rest0, n as int) == prepend_items(
                cur - h,
                views(items@),
                decode_items(buf@.subrange(cur as int, buf@.len() as int), n - i),
            ),
        decreases len - i,
    {
        let ghost seg = buf@.subrange(cur as int, buf@.len() as int);
        match decode_at(buf, cur) {
            Err(err) => {
                assert(decode_items(seg, n - i) == Err::<(int, Seq<Value>), DecodeError>(err));
                return Err(err);
            },
            Ok((k, v)) => {
                let ghost old_items = views(items@);
                assert(seg.subrange(k as int, seg.len() as int) =~= buf@.subrange(cur + k, buf@.len() as int));
                cur = cur + k;
                items.push(v);
                i = i + 1;
                assert(views(items@) =~= old_items + seq![v@]);
                proof {
                    let tail = decode_items(buf@.subrange(cur as int, buf@.len() as int), n - i);
                    match tail {
                        Ok((k2, ws)) => {
                            assert(old_items + (seq![v@] + ws) =~= (old_items + seq![v@]) + ws);
                        },
                        Err(_) => {},
                    }
                }
            },
        }
    }
    let r = Resp::Array(Some(items));
    proof {
        r.lemma_array_view();
    }
    assert(views(items@) + Seq::<Value>::empty() =~= views(items@));
    Ok((cur - pos, r))
}

/// Decodes the value at the start of `buffer`; on success also gives the number of bytes it
/// takes up, so that whatever follows can be decoded next.
pub fn parse_message(buffer: &[u8]) -> (r: Result<(usize, Resp), DecodeError>)
    ensures
        outcome(r) == decode_spec(buffer@),
        r matches Ok((k, _)) ==> 1 <= k <= buffer@.len(),
{
    assert(buffer@.subrange(0, buffer@.len() as int) =~= buffer@);
    decode_at(buffer, 0)
}

} // verus!
