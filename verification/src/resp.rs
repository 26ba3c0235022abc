//! The RESP wire codec: typed protocol values, a serializer, and a
//! resumable decoder that distinguishes "need more input" from
//! malformed bytes.

use vstd::prelude::*;

verus! {

broadcast use vstd::std_specs::vec::group_vec_axioms;

/// Carriage return.
pub const CR: u8 = 13;

/// Line feed.
pub const LF: u8 = 10;

/// One decoded or encodable protocol unit.
#[derive(Debug)]
pub enum Value {
    /// A short status line, written `+text\r\n`.
    SimpleString(Vec<u8>),
    /// An explicit-length byte string, written `$len\r\ntext\r\n`.
    BulkString(Vec<u8>),
    /// The "no value" sentinel, written `$-1\r\n`.
    NullBulkString,
    /// An ordered sequence of values, written `*count\r\n` then the elements.
    Array(Vec<Value>),
}

/// The mathematical model of a protocol value.
pub enum ValueModel {
    SimpleString(Seq<u8>),
    BulkString(Seq<u8>),
    NullBulkString,
    Array(Seq<ValueModel>),
}

/// The models of the elements of `items`, from position `j` on.
pub open spec fn views_from(items: Vec<Value>, j: int) -> Seq<ValueModel>
    decreases items, items@.len() - j,
{
    if j < 0 || j >= items@.len() {
        Seq::empty()
    } else {
        seq![items[j]@] + views_from(items, j + 1)
    }
}

impl View for Value {
    type V = ValueModel;

    open spec fn view(&self) -> ValueModel
        decreases *self, 0int,
    {
        match self {
            Value::SimpleString(s) => ValueModel::SimpleString(s@),
            Value::BulkString(s) => ValueModel::BulkString(s@),
            Value::NullBulkString => ValueModel::NullBulkString,
            Value::Array(items) => ValueModel::Array(views_from(*items, 0)),
        }
    }
}

/// The type tag of a simple string: `+`.
pub const TAG_SIMPLE: u8 = 43;

/// The type tag of a bulk string (and of the null bulk string): `$`.
pub const TAG_BULK: u8 = 36;

/// The type tag of an array: `*`.
pub const TAG_ARRAY: u8 = 42;

/// The sign byte of a negative length: `-`.
pub const MINUS: u8 = 45;

/// The sign byte of an explicitly positive integer: `+` (same byte as
/// the simple-string tag).
pub const PLUS: u8 = 43;

/// Whether `b` is an ASCII decimal digit.
pub open spec fn is_digit(b: u8) -> bool {
    48 <= b <= 57
}

/// Whether every byte of `s` is an ASCII decimal digit.
pub open spec fn all_digits(s: Seq<u8>) -> bool {
    forall|i: int| 0 <= i < s.len() ==> is_digit(#[trigger] s[i])
}

/// The decimal digits of `n`, most significant first.
pub open spec fn spec_digits(n: nat) -> Seq<u8>
    decreases n,
{
    if n < 10 {
        seq![(n + 48) as u8]
    } else {
        spec_digits(n / 10).push((n % 10 + 48) as u8)
    }
}

/// `views_from` is pointwise `view`, so the model of an array element
/// can be read off by index.
pub proof fn lemma_views_from(items: Vec<Value>, j: int)
    requires
        0 <= j <= items@.len(),
    ensures
        views_from(items, j).len() == items@.len() - j,
        forall|k: int|
            j <= k < items@.len() ==> views_from(items, j)[k - j] == items@[k]@,
    decreases items@.len() - j,
{
    if j < items@.len() {
        lemma_views_from(items, j + 1);
        assert forall|k: int| j <= k < items@.len() implies views_from(items, j)[k - j]
            == items@[k]@ by {
            assert(views_from(items, j) == seq![items[j]@] + views_from(items, j + 1));
            if k > j {
                assert(views_from(items, j)[k - j] == views_from(items, j + 1)[k - (j + 1)]);
            }
        }
    }
}

/// The wire encoding of a protocol value.
pub open spec fn spec_encode(v: ValueModel) -> Seq<u8>
    decreases v, 0int,
{
    match v {
        ValueModel::SimpleString(s) => seq![TAG_SIMPLE] + s + seq![CR, LF],
        ValueModel::BulkString(s) => seq![TAG_BULK] + spec_digits(s.len()) + seq![CR, LF] + s
            + seq![CR, LF],
        ValueModel::NullBulkString => seq![TAG_BULK, MINUS, 49u8, CR, LF],
        ValueModel::Array(items) => seq![TAG_ARRAY] + spec_digits(items.len()) + seq![CR, LF]
            + spec_encode_elems(items, 0),
    }
}

/// The concatenated encodings of the elements of `items`, from
/// position `j` on.
pub open spec fn spec_encode_elems(items: Seq<ValueModel>, j: int) -> Seq<u8>
    decreases items, items.len() - j,
{
    if j < 0 || j >= items.len() {
        Seq::empty()
    } else {
        spec_encode(items[j]) + spec_encode_elems(items, j + 1)
    }
}

/// Appends the decimal digits of `n`, most significant first.
fn push_digits(n: u64, out: &mut Vec<u8>)
    ensures
        final(out)@ == old(out)@ + spec_digits(n as nat),
    decreases n,
{
    if n < 10 {
        out.push((n as u8) + 48);
    } else {
        push_digits(n / 10, out);
        out.push(((n % 10) as u8) + 48);
    }
    proof {
        assert(out@ =~= old(out)@ + spec_digits(n as nat));
    }
}

impl Value {
    /// Appends the wire encoding of `self` to `out`.
    fn serialise_into(&self, out: &mut Vec<u8>)
        ensures
            final(out)@ == old(out)@ + spec_encode(self@),
        decreases *self, 0int,
    {
        match self {
            Value::SimpleString(s) => {
                out.push(TAG_SIMPLE);
                let mut i: usize = 0;
                while i < s.len()
                    invariant
                        i <= s.len(),
                        out@ == old(out)@ + seq![TAG_SIMPLE] + s@.take(i as int),
                    decreases s.len() - i,
                {
                    out.push(s[i]);
                    proof {
                        assert(s@.take(i + 1) =~= s@.take(i as int).push(s@[i as int]));
                    }
                    i = i + 1;
                }
                out.push(CR);
                out.push(LF);
                proof {
                    assert(s@.take(s@.len() as int) =~= s@);
                    assert(out@ =~= old(out)@ + spec_encode(self@));
                }
            },
            Value::BulkString(s) => {
                out.push(TAG_BULK);
                push_digits(s.len() as u64, out);
                out.push(CR);
                out.push(LF);
                let mut i: usize = 0;
                let ghost prefix = out@;
                while i < s.len()
                    invariant
                        i <= s.len(),
                        out@ == prefix + s@.take(i as int),
                    decreases s.len() - i,
                {
                    out.push(s[i]);
                    proof {
                        assert(s@.take(i + 1) =~= s@.take(i as int).push(s@[i as int]));
                    }
                    i = i + 1;
                }
                out.push(CR);
                out.push(LF);
                proof {
                    assert(s@.take(s@.len() as int) =~= s@);
                    assert(out@ =~= old(out)@ + spec_encode(self@));
                }
            },
            Value::NullBulkString => {
                out.push(TAG_BULK);
                out.push(MINUS);
                out.push(49);
                out.push(CR);
                out.push(LF);
                proof {
                    assert(out@ =~= old(out)@ + spec_encode(self@));
                }
            },
            Value::Array(items) => {
                proof {
                    lemma_views_from(*items, 0);
                }
                out.push(TAG_ARRAY);
                push_digits(items.len() as u64, out);
                out.push(CR);
                out.push(LF);
                serialise_elems(items, 0, out);
                proof {
                    assert(out@ =~= old(out)@ + spec_encode(self@));
                }
            },
        }
    }

    /// Returns the wire encoding of `self` as bytes.
    ///
    /// Encoding never fails; it proceeds from a fully valid in-memory
    /// structure, arrays included.
    pub fn serialise(&self) -> (r: Vec<u8>)
        ensures
            r@ == spec_encode(self@),
    {
        let mut out: Vec<u8> = Vec::new();
        self.serialise_into(&mut out);
        out
    }
}

/// Appends the encodings of the elements of `items` from position `j`
/// on to `out`.
fn serialise_elems(items: &Vec<Value>, j: usize, out: &mut Vec<u8>)
    requires
        j <= items@.len(),
    ensures
        final(out)@ == old(out)@ + spec_encode_elems(views_from(*items, 0), j as int),
    decreases *items, items@.len() - j,
{
    proof {
        lemma_views_from(*items, 0);
    }
    if j < items.len() {
        items[j].serialise_into(out);
        serialise_elems(items, j + 1, out);
        proof {
            assert(out@ =~= old(out)@ + spec_encode_elems(views_from(*items, 0), j as int));
        }
    } else {
        proof {
            assert(out@ =~= old(out)@ + spec_encode_elems(views_from(*items, 0), j as int));
        }
    }
}

/// The position of the first CRLF pair of `t` at or after byte `i`:
/// the least `j >= i` with `t[j - 1] == CR` and `t[j] == LF`.
pub open spec fn spec_find_crlf(t: Seq<u8>, i: int) -> Option<int>
    decreases t.len() - i,
{
    if i < 1 || i >= t.len() {
        None
    } else if t[i - 1] == CR && t[i] == LF {
        Some(i)
    } else {
        spec_find_crlf(t, i + 1)
    }
}

/// The first CRLF-terminated line of `t`, without its terminator, and
/// the number of bytes it occupies with the terminator.
pub open spec fn spec_take_line(t: Seq<u8>) -> Option<(Seq<u8>, int)> {
    match spec_find_crlf(t, 1) {
        Some(i) => Some((t.take(i - 1), i + 1)),
        None => None,
    }
}

/// The value of a sequence of decimal digit bytes, most significant
/// first.
pub open spec fn digits_val(s: Seq<u8>) -> int
    decreases s.len(),
{
    if s.len() == 0 {
        0
    } else {
        digits_val(s.drop_last()) * 10 + (s.last() - 48)
    }
}

/// The signed decimal integer denoted by `s`: an optional sign, then
/// at least one digit, with the value within the range of `i64`.
pub open spec fn spec_parse_i64(s: Seq<u8>) -> Option<int> {
    let neg = s.len() > 0 && s[0] == MINUS;
    let ds = if s.len() > 0 && (s[0] == MINUS || s[0] == PLUS) {
        s.skip(1)
    } else {
        s
    };
    if ds.len() == 0 || !all_digits(ds) {
        None
    } else {
        let v = if neg {
            -digits_val(ds)
        } else {
            digits_val(ds)
        };
        if i64::MIN <= v <= i64::MAX {
            Some(v)
        } else {
            None
        }
    }
}

/// What decoding a byte sequence yields: a value and the number of
/// bytes it occupies, a request for more input, or a protocol error.
pub enum DecodeOutcome {
    Value(ValueModel, int),
    Incomplete,
    Malformed,
}

/// What decoding a fixed number of consecutive values yields.
pub enum ElemsOutcome {
    Elems(Seq<ValueModel>, int),
    Incomplete,
    Malformed,
}

/// The meaning of a byte sequence under the wire format, reading one
/// value from its start.
///
/// Missing bytes (an unterminated line, a declared length that runs
/// past the end) are `Incomplete`, never `Malformed`: the caller is
/// expected to wait for more input and retry.
pub open spec fn spec_decode(s: Seq<u8>) -> DecodeOutcome
    decreases s.len(), 0int,
{
    if s.len() == 0 {
        DecodeOutcome::Incomplete
    } else if s[0] == TAG_SIMPLE {
        match spec_take_line(s.skip(1)) {
            Some((line, c)) => DecodeOutcome::Value(ValueModel::SimpleString(line), 1 + c),
            None => DecodeOutcome::Incomplete,
        }
    } else if s[0] == TAG_BULK {
        match spec_take_line(s.skip(1)) {
            Some((line, c)) => match spec_parse_i64(line) {
                Some(n) => if n == -1 {
                    DecodeOutcome::Value(ValueModel::NullBulkString, 1 + c)
                } else if n < 0 {
                    DecodeOutcome::Malformed
                } else if s.len() < 1 + c + n + 2 {
                    DecodeOutcome::Incomplete
                } else if s[1 + c + n] == CR && s[1 + c + n + 1] == LF {
                    DecodeOutcome::Value(
                        ValueModel::BulkString(s.subrange(1 + c, 1 + c + n)),
                        1 + c + n + 2,
                    )
                } else {
                    DecodeOutcome::Malformed
                },
                None => DecodeOutcome::Malformed,
            },
            None => DecodeOutcome::Incomplete,
        }
    } else if s[0] == TAG_ARRAY {
        match spec_take_line(s.skip(1)) {
            Some((line, c)) => match spec_parse_i64(line) {
                Some(n) => if n < 0 {
                    DecodeOutcome::Malformed
                } else if 1 <= c && 1 + c <= s.len() {
                    match spec_decode_elems(s.skip(1 + c), n as nat) {
                        ElemsOutcome::Elems(vs, m) => DecodeOutcome::Value(
                            ValueModel::Array(vs),
                            1 + c + m,
                        ),
                        ElemsOutcome::Incomplete => DecodeOutcome::Incomplete,
                        ElemsOutcome::Malformed => DecodeOutcome::Malformed,
                    }
                } else {
                    DecodeOutcome::Malformed
                },
                None => DecodeOutcome::Malformed,
            },
            None => DecodeOutcome::Incomplete,
        }
    } else {
        DecodeOutcome::Malformed
    }
}

/// The meaning of a byte sequence as `count` consecutive values.
pub open spec fn spec_decode_elems(s: Seq<u8>, count: nat) -> ElemsOutcome
    decreases s.len(), count + 1,
{
    if count == 0 {
        ElemsOutcome::Elems(Seq::empty(), 0)
    } else {
        match spec_decode(s) {
            DecodeOutcome::Value(v, n) => if 1 <= n <= s.len() {
                match spec_decode_elems(s.skip(n), (count - 1) as nat) {
                    ElemsOutcome::Elems(vs, m) => ElemsOutcome::Elems(seq![v] + vs, n + m),
                    ElemsOutcome::Incomplete => ElemsOutcome::Incomplete,
                    ElemsOutcome::Malformed => ElemsOutcome::Malformed,
                }
            } else {
                ElemsOutcome::Malformed
            },
            DecodeOutcome::Incomplete => ElemsOutcome::Incomplete,
            DecodeOutcome::Malformed => ElemsOutcome::Malformed,
        }
    }
}

/// The decoder's failure modes, by which a caller tells bytes that
/// have not all arrived yet from bytes that can never form a value.
#[derive(Debug, PartialEq, Eq, Structural)]
pub enum DecodeError {
    /// Not an error: more input is needed before a value can be read.
    Incomplete,
    /// The bytes are malformed under the wire format.
    Malformed,
}

/// Whether an executable decode result agrees with the spec-level
/// outcome.
pub open spec fn decode_res_matches(r: Result<(Value, usize), DecodeError>, o: DecodeOutcome) -> bool {
    match r {
        Ok((v, n)) => o == DecodeOutcome::Value(v@, n as int),
        Err(DecodeError::Incomplete) => o == DecodeOutcome::Incomplete,
        Err(DecodeError::Malformed) => o == DecodeOutcome::Malformed,
    }
}

/// Finds the first CRLF pair of `buffer`; on success returns the bytes
/// before it and the total length through the pair.
pub fn read_until_crlf(buffer: &[u8]) -> (r: Option<(&[u8], usize)>)
    ensures
        match r {
            Some((line, n)) => {
                &&& spec_take_line(buffer@) == Some((line@, n as int))
                &&& 2 <= n <= buffer@.len()
                &&& line@ == buffer@.take(n - 2)
            },
            None => spec_take_line(buffer@) is None,
        },
{
    let mut i: usize = 1;
    while i < buffer.len()
        invariant
            1 <= i,
            spec_find_crlf(buffer@, 1) == spec_find_crlf(buffer@, i as int),
        decreases buffer@.len() - i,
    {
        if buffer[i - 1] == CR && buffer[i] == LF {
            let line = &buffer[0..i - 1];
            proof {
                assert(buffer@.take(i - 1) =~= buffer@.subrange(0, i - 1));
            }
            return Some((line, i + 1));
        }
        i = i + 1;
    }
    None
}

/// The value of every all-digit sequence is nonnegative.
proof fn lemma_digits_val_nonneg(s: Seq<u8>)
    requires
        all_digits(s),
    ensures
        digits_val(s) >= 0,
    decreases s.len(),
{
    if s.len() > 0 {
        assert(all_digits(s.drop_last()));
        lemma_digits_val_nonneg(s.drop_last());
    }
}

/// The value of an all-digit sequence is at least the value of any of
/// its prefixes.
proof fn lemma_digits_val_monotone(s: Seq<u8>, j: int)
    requires
        all_digits(s),
        0 <= j <= s.len(),
    ensures
        digits_val(s) >= digits_val(s.take(j)),
    decreases s.len() - j,
{
    if j < s.len() {
        assert(all_digits(s.take(j)));
        lemma_digits_val_nonneg(s.take(j));
        assert(s.take(j + 1).drop_last() =~= s.take(j));
        assert(digits_val(s.take(j + 1)) == digits_val(s.take(j)) * 10 + (s[j] - 48));
        lemma_digits_val_monotone(s, j + 1);
    } else {
        assert(s.take(j) =~= s);
    }
}

/// Parses a signed decimal integer, rejecting anything that is not an
/// optional sign followed by digits, and any value outside `i64`.
pub fn parse_int(buffer: &[u8]) -> (r: Option<i64>)
    ensures
        match r {
            Some(x) => spec_parse_i64(buffer@) == Some(x as int),
            None => spec_parse_i64(buffer@) is None,
        },
{
    let len = buffer.len();
    let neg: bool = len > 0 && buffer[0] == MINUS;
    let start: usize = if len > 0 && (buffer[0] == MINUS || buffer[0] == PLUS) {
        1
    } else {
        0
    };
    let ghost ds = if start == 1 {
        buffer@.skip(1)
    } else {
        buffer@
    };
    proof {
        assert(ds.len() == len - start);
        assert(forall|k: int| 0 <= k < ds.len() ==> ds[k] == buffer@[k + start]);
    }
    if len == start {
        return None;
    }
    // The magnitude may not pass this bound; for a negative number the
    // extreme value -(2^63) is still representable.
    let limit: u64 = if neg {
        9223372036854775808
    } else {
        9223372036854775807
    };
    let mut acc: u64 = 0;
    let mut i: usize = start;
    while i < len
        invariant
            start <= i <= len,
            len == buffer@.len(),
            start == 0 || start == 1,
            start < len,
            neg == (buffer@.len() > 0 && buffer@[0] == MINUS),
            (start == 1) == (buffer@.len() > 0 && (buffer@[0] == MINUS || buffer@[0] == PLUS)),
            ds == if start == 1 { buffer@.skip(1) } else { buffer@ },
            ds.len() == len - start,
            all_digits(ds.take(i - start)),
            acc == digits_val(ds.take(i - start)),
            acc <= limit,
            limit == if neg { 9223372036854775808u64 } else { 9223372036854775807u64 },
        decreases len - i,
    {
        let b = buffer[i];
        if b < 48 || b > 57 {
            proof {
                assert(ds[i - start] == b);
                assert(!all_digits(ds));
            }
            return None;
        }
        let d = (b - 48) as u64;
        proof {
            assert(ds.take(i - start + 1).drop_last() =~= ds.take(i - start));
            assert(ds.take(i - start + 1).last() == ds[i - start] == b);
        }
        if acc > (limit - d) / 10 {
            proof {
                if all_digits(ds) {
                    assert(digits_val(ds.take(i - start + 1)) == acc * 10 + d);
                    lemma_digits_val_monotone(ds, i - start + 1);
                    assert(digits_val(ds) >= acc * 10 + d);
                    assert(acc * 10 + d > limit) by (nonlinear_arith)
                        requires
                            acc > (limit - d) / 10,
                            d <= limit,
                            acc >= 0,
                            d >= 0,
                    ;
                }
            }
            return None;
        }
        proof {
            assert(acc * 10 + d <= limit) by (nonlinear_arith)
                requires
                    acc <= (limit - d) / 10,
                    d <= limit,
                    acc >= 0,
                    d >= 0,
            ;
        }
        acc = acc * 10 + d;
        i = i + 1;
    }
    proof {
        assert(ds.take(len - start) =~= ds);
    }
    if neg {
        if acc == 9223372036854775808 {
            Some(i64::MIN)
        } else {
            Some(-(acc as i64))
        }
    } else {
        Some(acc as i64)
    }
}

/// Decodes one protocol value from `buf`, starting at byte `off`.
///
/// On success the returned count says how many bytes the value
/// occupies, so the caller can resume decoding on the remainder of a
/// pipelined buffer.
pub fn parse_message(buf: &[u8], off: usize) -> (r: Result<(Value, usize), DecodeError>)
    requires
        off <= buf@.len(),
    ensures
        decode_res_matches(r, spec_decode(buf@.skip(off as int))),
        r matches Ok((v, n)) ==> 1 <= n && off + n <= buf@.len(),
    decreases buf@.len() - off, 1int,
{
    if off >= buf.len() {
        return Err(DecodeError::Incomplete);
    }
    let tag = buf[off];
    if tag == TAG_SIMPLE {
        parse_simple_string(buf, off)
    } else if tag == TAG_BULK {
        parse_bulk_string(buf, off)
    } else if tag == TAG_ARRAY {
        parse_array(buf, off)
    } else {
        Err(DecodeError::Malformed)
    }
}

/// Decodes a simple string, `buf[off]` being its `+` tag.
pub fn parse_simple_string(buf: &[u8], off: usize) -> (r: Result<(Value, usize), DecodeError>)
    requires
        off < buf@.len(),
        buf@[off as int] == TAG_SIMPLE,
    ensures
        decode_res_matches(r, spec_decode(buf@.skip(off as int))),
        r matches Ok((v, n)) ==> 1 <= n && off + n <= buf@.len(),
{
    let len = buf.len();
    proof {
        assert(buf@.subrange(off + 1, buf@.len() as int) =~= buf@.skip(off as int).skip(1));
    }
    match read_until_crlf(&buf[off + 1..len]) {
        Some((line, n)) => {
            let text = vstd::slice::slice_to_vec(line);
            Ok((Value::SimpleString(text), 1 + n))
        },
        None => Err(DecodeError::Incomplete),
    }
}

/// Decodes a bulk string or the null bulk string, `buf[off]` being the
/// `$` tag.
pub fn parse_bulk_string(buf: &[u8], off: usize) -> (r: Result<(Value, usize), DecodeError>)
    requires
        off < buf@.len(),
        buf@[off as int] == TAG_BULK,
    ensures
        decode_res_matches(r, spec_decode(buf@.skip(off as int))),
        r matches Ok((v, n)) ==> 1 <= n && off + n <= buf@.len(),
{
    let len = buf.len();
    let ghost s = buf@.skip(off as int);
    proof {
        assert(buf@.subrange(off + 1, buf@.len() as int) =~= s.skip(1));
    }
    match read_until_crlf(&buf[off + 1..len]) {
        Some((line, c)) => match parse_int(line) {
            Some(n) => {
                if n == -1 {
                    return Ok((Value::NullBulkString, 1 + c));
                }
                if n < 0 {
                    return Err(DecodeError::Malformed);
                }
                let header = off + 1 + c;
                let remaining = len - header;
                if (remaining as u64) < (n as u64) + 2 {
                    return Err(DecodeError::Incomplete);
                }
                let nn = n as usize;
                if buf[header + nn] == CR && buf[header + nn + 1] == LF {
                    let content = vec_of_range(buf, header, header + nn);
                    proof {
                        assert(buf@.subrange(header as int, header + nn) =~= s.subrange(
                            1 + c,
                            1 + c + n,
                        ));
                    }
                    Ok((Value::BulkString(content), 1 + c + nn + 2))
                } else {
                    Err(DecodeError::Malformed)
                }
            },
            None => Err(DecodeError::Malformed),
        },
        None => Err(DecodeError::Incomplete),
    }
}

/// Decodes an array, `buf[off]` being its `*` tag: a declared count,
/// then that many values back to back.
pub fn parse_array(buf: &[u8], off: usize) -> (r: Result<(Value, usize), DecodeError>)
    requires
        off < buf@.len(),
        buf@[off as int] == TAG_ARRAY,
    ensures
        decode_res_matches(r, spec_decode(buf@.skip(off as int))),
        r matches Ok((v, n)) ==> 1 <= n && off + n <= buf@.len(),
    decreases buf@.len() - off, 0int,
{
    let len = buf.len();
    let ghost s = buf@.skip(off as int);
    proof {
        assert(buf@.subrange(off + 1, buf@.len() as int) =~= s.skip(1));
    }
    match read_until_crlf(&buf[off + 1..len]) {
        Some((line, c)) => match parse_int(line) {
            Some(n) => {
                if n < 0 {
                    return Err(DecodeError::Malformed);
                }
                proof {
                    assert(buf@.skip(off + 1 + c) =~= s.skip(1 + c));
                }
                match parse_elements(buf, off + 1 + c, n as u64) {
                    Ok((items, m)) => Ok((Value::Array(items), 1 + c + m)),
                    Err(e) => Err(e),
                }
            },
            None => Err(DecodeError::Malformed),
        },
        None => Err(DecodeError::Incomplete),
    }
}

/// Decodes `count` consecutive values from `buf`, starting at `off`.
fn parse_elements(buf: &[u8], off: usize, count: u64) -> (r: Result<(Vec<Value>, usize), DecodeError>)
    requires
        off <= buf@.len(),
    ensures
        match r {
            Ok((items, m)) => {
                &&& spec_decode_elems(buf@.skip(off as int), count as nat) == ElemsOutcome::Elems(
                    views_from(items, 0),
                    m as int,
                )
                &&& off + m <= buf@.len()
            },
            Err(DecodeError::Incomplete) => spec_decode_elems(buf@.skip(off as int), count as nat)
                == ElemsOutcome::Incomplete,
            Err(DecodeError::Malformed) => spec_decode_elems(buf@.skip(off as int), count as nat)
                == ElemsOutcome::Malformed,
        },
    decreases buf@.len() - off, 2int,
{
    if count == 0 {
        let items: Vec<Value> = Vec::new();
        proof {
            lemma_views_from(items, 0);
            assert(views_from(items, 0) =~= Seq::<ValueModel>::empty());
        }
        return Ok((items, 0));
    }
    let len = buf.len();
    match parse_message(buf, off) {
        Ok((v, n)) => {
            proof {
                assert(buf@.skip(off + n) =~= buf@.skip(off as int).skip(n as int));
            }
            match parse_elements(buf, off + n, count - 1) {
                Ok((rest, m)) => {
                    let mut items = rest;
                    let ghost before = items;
                    items.insert(0, v);
                    proof {
                        assert(items@ =~= seq![v] + before@);
                        lemma_views_from(before, 0);
                        lemma_views_from(items, 0);
                        assert forall|k: int| 0 <= k < items@.len() implies views_from(items, 0)[k]
                            == (seq![v@] + views_from(before, 0))[k] by {
                            assert(views_from(items, 0)[k - 0] == items@[k]@);
                            if k > 0 {
                                assert(items@[k] == before@[k - 1]);
                                assert(views_from(before, 0)[(k - 1) - 0] == before@[k - 1]@);
                            }
                        }
                        assert(views_from(items, 0) =~= seq![v@] + views_from(before, 0));
                    }
                    Ok((items, n + m))
                },
                Err(e) => Err(e),
            }
        },
        Err(e) => Err(e),
    }
}

/// Copies `buf[a..b]` into a fresh vector.
fn vec_of_range(buf: &[u8], a: usize, b: usize) -> (r: Vec<u8>)
    requires
        a <= b <= buf@.len(),
    ensures
        r@ == buf@.subrange(a as int, b as int),
{
    let mut out: Vec<u8> = Vec::new();
    let mut i: usize = a;
    while i < b
        invariant
            a <= i <= b <= buf@.len(),
            out@ == buf@.subrange(a as int, i as int),
        decreases b - i,
    {
        out.push(buf[i]);
        proof {
            assert(buf@.subrange(a as int, i + 1) =~= buf@.subrange(a as int, i as int).push(
                buf@[i as int],
            ));
        }
        i = i + 1;
    }
    out
}


/// Whether `s` contains no CRLF pair of adjacent bytes.
pub open spec fn no_crlf(s: Seq<u8>) -> bool {
    forall|i: int| 1 <= i < s.len() ==> !(s[i - 1] == CR && #[trigger] s[i] == LF)
}

/// Whether a value can be reproduced by decoding its own encoding: a
/// simple string must not embed a CRLF pair (its encoding is delimited
/// by one), and a declared length must be expressible as a decode-side
/// integer.
pub open spec fn wf_value(v: ValueModel) -> bool
    decreases v,
{
    match v {
        ValueModel::SimpleString(s) => no_crlf(s),
        ValueModel::BulkString(s) => s.len() <= i64::MAX,
        ValueModel::NullBulkString => true,
        ValueModel::Array(items) => items.len() <= i64::MAX && (forall|i: int|
            0 <= i < items.len() ==> wf_value(#[trigger] items[i])),
    }
}

/// The scan finds the CRLF pair at position `p` when no earlier
/// position from `i` on holds one.
proof fn lemma_find_crlf_at(t: Seq<u8>, i: int, p: int)
    requires
        1 <= i <= p < t.len(),
        t[p - 1] == CR,
        t[p] == LF,
        forall|j: int| i <= j < p ==> !(t[j - 1] == CR && #[trigger] t[j] == LF),
    ensures
        spec_find_crlf(t, i) == Some(p),
    decreases p - i,
{
    if i < p {
        lemma_find_crlf_at(t, i + 1, p);
    }
}

/// Taking a line from `line + CRLF + rest` yields exactly `line`, as
/// long as `line` embeds no CRLF pair of its own.
proof fn lemma_take_line(line: Seq<u8>, rest: Seq<u8>)
    requires
        no_crlf(line),
    ensures
        spec_take_line(line + seq![CR, LF] + rest) == Some(
            (line, line.len() + 2 as int),
        ),
{
    let t = line + seq![CR, LF] + rest;
    let p = line.len() + 1 as int;
    assert(t[p - 1] == CR);
    assert(t[p] == LF);
    assert forall|j: int| 1 <= j < p implies !(t[j - 1] == CR && #[trigger] t[j] == LF) by {
        if j < line.len() {
            assert(t[j - 1] == line[j - 1] && t[j] == line[j]);
        } else {
            assert(t[j] == CR);
        }
    }
    lemma_find_crlf_at(t, 1, p);
    assert(t.take(p - 1) =~= line);
}

/// The digits of `n` are digits, and digits are neither sign bytes nor
/// line-control bytes.
proof fn lemma_digits_are_digits(n: nat)
    ensures
        spec_digits(n).len() >= 1,
        all_digits(spec_digits(n)),
        no_crlf(spec_digits(n)),
        spec_digits(n)[0] != MINUS,
        spec_digits(n)[0] != PLUS,
    decreases n,
{
    if n >= 10 {
        lemma_digits_are_digits(n / 10);
        let d = spec_digits(n / 10);
        let b = (n % 10 + 48) as u8;
        assert(spec_digits(n) == d.push(b));
        assert forall|i: int| 0 <= i < spec_digits(n).len() implies is_digit(
            #[trigger] spec_digits(n)[i],
        ) by {
            if i < d.len() {
                assert(spec_digits(n)[i] == d[i]);
            }
        }
    }
    assert forall|i: int| 1 <= i < spec_digits(n).len() implies !(spec_digits(n)[i - 1] == CR
        && #[trigger] spec_digits(n)[i] == LF) by {
        assert(is_digit(spec_digits(n)[i]));
    }
}

/// Reading the digits of `n` back gives `n`.
proof fn lemma_digits_val_of_digits(n: nat)
    ensures
        digits_val(spec_digits(n)) == n,
    decreases n,
{
    if n < 10 {
        assert(spec_digits(n).drop_last() =~= Seq::<u8>::empty());
        assert(digits_val(spec_digits(n).drop_last()) == 0);
        assert(spec_digits(n).last() == (n + 48) as u8);
    } else {
        lemma_digits_val_of_digits(n / 10);
        assert(spec_digits(n).drop_last() =~= spec_digits(n / 10));
        assert(digits_val(spec_digits(n).drop_last()) == n / 10);
        assert(spec_digits(n).last() == (n % 10 + 48) as u8);
        assert(digits_val(spec_digits(n)) == (n / 10) * 10 + n % 10);
    }
}

/// The printed form of a length parses back to the same number.
proof fn lemma_parse_digits(n: nat)
    requires
        n <= i64::MAX,
    ensures
        spec_parse_i64(spec_digits(n)) == Some(n as int),
{
    lemma_digits_are_digits(n);
    lemma_digits_val_of_digits(n);
}

/// An encoding is never empty.
proof fn lemma_encode_nonempty(v: ValueModel)
    ensures
        spec_encode(v).len() >= 1,
{
    match v {
        ValueModel::SimpleString(_) => {},
        ValueModel::BulkString(_) => {},
        ValueModel::NullBulkString => {},
        ValueModel::Array(_) => {},
    }
}

/// Round trip: decoding the encoding of any well-formed value yields
/// that value back, consuming exactly the encoding, whatever bytes
/// follow it. This holds for every value the encoder accepts, arrays
/// included.
pub proof fn lemma_round_trip(v: ValueModel, rest: Seq<u8>)
    requires
        wf_value(v),
    ensures
        spec_decode(spec_encode(v) + rest) == DecodeOutcome::Value(
            v,
            spec_encode(v).len() as int,
        ),
    decreases v, 0int,
{
    let e = spec_encode(v);
    let t = e + rest;
    match v {
        ValueModel::SimpleString(s) => {
            assert(t[0] == TAG_SIMPLE);
            assert(t.skip(1) =~= s + seq![CR, LF] + rest);
            lemma_take_line(s, rest);
        },
        ValueModel::NullBulkString => {
            assert(t[0] == TAG_BULK);
            let u = t.skip(1);
            assert(u =~= seq![MINUS, 49u8] + seq![CR, LF] + rest);
            lemma_take_line(seq![MINUS, 49u8], rest);
            let line = seq![MINUS, 49u8];
            assert(line[0] == MINUS);
            let ds = line.skip(1);
            assert(ds =~= seq![49u8]);
            assert(all_digits(ds));
            assert(ds.drop_last() =~= Seq::<u8>::empty());
            assert(ds.last() == 49u8);
            assert(digits_val(ds.drop_last()) == 0);
            assert(digits_val(ds) == 1);
            assert(spec_parse_i64(line) == Some(-1int));
        },
        ValueModel::BulkString(s) => {
            assert(t[0] == TAG_BULK);
            let d = spec_digits(s.len());
            lemma_digits_are_digits(s.len());
            assert(t.skip(1) =~= d + seq![CR, LF] + (s + seq![CR, LF] + rest));
            lemma_take_line(d, s + seq![CR, LF] + rest);
            lemma_parse_digits(s.len());
            let c = d.len() + 2 as int;
            let n = s.len() as int;
            assert(t.len() == 1 + c + n + 2 + rest.len());
            assert(t[1 + c + n] == CR);
            assert(t[1 + c + n + 1] == LF);
            assert(t.subrange(1 + c, 1 + c + n) =~= s);
        },
        ValueModel::Array(items) => {
            assert(t[0] == TAG_ARRAY);
            let d = spec_digits(items.len());
            lemma_digits_are_digits(items.len());
            let body = spec_encode_elems(items, 0) + rest;
            assert(t.skip(1) =~= d + seq![CR, LF] + body);
            lemma_take_line(d, body);
            lemma_parse_digits(items.len());
            let c = d.len() + 2 as int;
            assert(t.skip(1 + c) =~= body);
            lemma_round_trip_elems(items, 0, rest);
            assert(items.skip(0) =~= items);
        },
    }
}

/// Round trip for the elements of an array, from position `j` on.
proof fn lemma_round_trip_elems(items: Seq<ValueModel>, j: int, rest: Seq<u8>)
    requires
        0 <= j <= items.len(),
        forall|i: int| 0 <= i < items.len() ==> wf_value(#[trigger] items[i]),
    ensures
        spec_decode_elems(spec_encode_elems(items, j) + rest, (items.len() - j) as nat)
            == ElemsOutcome::Elems(items.skip(j), spec_encode_elems(items, j).len() as int),
    decreases items, items.len() - j,
{
    if j == items.len() {
        assert(spec_encode_elems(items, j) =~= Seq::<u8>::empty());
        assert(spec_encode_elems(items, j) + rest =~= rest);
        assert(items.skip(j) =~= Seq::<ValueModel>::empty());
    } else {
        let e0 = spec_encode(items[j]);
        let erest = spec_encode_elems(items, j + 1);
        let s = spec_encode_elems(items, j) + rest;
        assert(s =~= e0 + (erest + rest));
        lemma_round_trip(items[j], erest + rest);
        lemma_encode_nonempty(items[j]);
        assert(s.skip(e0.len() as int) =~= erest + rest);
        lemma_round_trip_elems(items, j + 1, rest);
        assert(seq![items[j]] + items.skip(j + 1) =~= items.skip(j));
    }
}


/// The scan finds no CRLF pair when none is there from `i` on.
proof fn lemma_find_crlf_none(t: Seq<u8>, i: int)
    requires
        1 <= i,
        forall|j: int| i <= j < t.len() ==> !(t[j - 1] == CR && #[trigger] t[j] == LF),
    ensures
        spec_find_crlf(t, i) is None,
    decreases t.len() - i,
{
    if i < t.len() {
        lemma_find_crlf_none(t, i + 1);
    }
}

/// A sequence without line feeds holds no CRLF pair, so no line can be
/// taken from it.
proof fn lemma_take_line_none(t: Seq<u8>)
    requires
        forall|j: int| 0 <= j < t.len() ==> (#[trigger] t[j]) != LF,
    ensures
        spec_take_line(t) is None,
{
    lemma_find_crlf_none(t, 1);
}

/// Partial-read resilience: feeding the decoder any strict prefix of a
/// well-formed value's encoding yields the need-more-input signal,
/// never a malformed-protocol error and never a value.
pub proof fn lemma_prefix_incomplete(v: ValueModel, i: int)
    requires
        wf_value(v),
        0 <= i < spec_encode(v).len(),
    ensures
        spec_decode(spec_encode(v).take(i)) == DecodeOutcome::Incomplete,
    decreases v, 0int,
{
    let e = spec_encode(v);
    let p = e.take(i);
    if i == 0 {
        assert(p.len() == 0);
    } else {
        let u = p.skip(1);
        match v {
            ValueModel::SimpleString(s) => {
                assert(p[0] == TAG_SIMPLE);
                assert(u =~= (s + seq![CR, LF]).take(i - 1));
                assert forall|j: int| 1 <= j < u.len() implies !(u[j - 1] == CR
                    && #[trigger] u[j] == LF) by {
                    if j < s.len() {
                        assert(u[j - 1] == s[j - 1] && u[j] == s[j]);
                    } else {
                        assert(u[j] == CR);
                    }
                }
                lemma_find_crlf_none(u, 1);
            },
            ValueModel::NullBulkString => {
                assert(p[0] == TAG_BULK);
                assert forall|j: int| 0 <= j < u.len() implies (#[trigger] u[j]) != LF by {
                    assert(u[j] == e[j + 1]);
                }
                lemma_take_line_none(u);
            },
            ValueModel::BulkString(s) => {
                assert(p[0] == TAG_BULK);
                let d = spec_digits(s.len());
                lemma_digits_are_digits(s.len());
                let c = d.len() + 2 as int;
                if i <= 1 + d.len() + 1 {
                    // The cut falls inside the length header: no line
                    // feed has arrived yet, so no line can be taken.
                    assert forall|j: int| 0 <= j < u.len() implies (#[trigger] u[j]) != LF by {
                        assert(u[j] == e[j + 1]);
                        if j < d.len() {
                            assert(e[j + 1] == d[j]);
                            assert(is_digit(d[j]));
                        } else {
                            assert(e[j + 1] == CR);
                        }
                    }
                    lemma_take_line_none(u);
                } else {
                    // The header is complete; the declared length runs
                    // past what has arrived.
                    let w = (s + seq![CR, LF]).take(i - 1 - c);
                    assert(u =~= d + seq![CR, LF] + w);
                    lemma_take_line(d, w);
                    lemma_parse_digits(s.len());
                    assert(p.len() < 1 + c + s.len() + 2);
                }
            },
            ValueModel::Array(items) => {
                assert(p[0] == TAG_ARRAY);
                let d = spec_digits(items.len());
                lemma_digits_are_digits(items.len());
                let c = d.len() + 2 as int;
                if i <= 1 + d.len() + 1 {
                    assert forall|j: int| 0 <= j < u.len() implies (#[trigger] u[j]) != LF by {
                        assert(u[j] == e[j + 1]);
                        if j < d.len() {
                            assert(e[j + 1] == d[j]);
                            assert(is_digit(d[j]));
                        } else {
                            assert(e[j + 1] == CR);
                        }
                    }
                    lemma_take_line_none(u);
                } else {
                    let body = spec_encode_elems(items, 0);
                    let w = body.take(i - 1 - c);
                    assert(u =~= d + seq![CR, LF] + w);
                    lemma_take_line(d, w);
                    lemma_parse_digits(items.len());
                    assert(p.skip(1 + c) =~= w);
                    lemma_prefix_incomplete_elems(items, 0, i - 1 - c);
                }
            },
        }
    }
}

/// Partial-read resilience for the elements of an array: a strict
/// prefix of the concatenated element encodings leaves the element
/// decoder needing more input.
proof fn lemma_prefix_incomplete_elems(items: Seq<ValueModel>, j: int, i: int)
    requires
        0 <= j <= items.len(),
        forall|k: int| 0 <= k < items.len() ==> wf_value(#[trigger] items[k]),
        0 <= i < spec_encode_elems(items, j).len(),
    ensures
        spec_decode_elems(spec_encode_elems(items, j).take(i), (items.len() - j) as nat)
            == ElemsOutcome::Incomplete,
    decreases items, items.len() - j,
{
    let e0 = spec_encode(items[j]);
    let erest = spec_encode_elems(items, j + 1);
    let p = spec_encode_elems(items, j).take(i);
    if i < e0.len() {
        assert(p =~= e0.take(i));
        lemma_prefix_incomplete(items[j], i);
    } else {
        let w = erest.take(i - e0.len());
        assert(p =~= e0 + w);
        lemma_round_trip(items[j], w);
        lemma_encode_nonempty(items[j]);
        assert(p.skip(e0.len() as int) =~= w);
        lemma_prefix_incomplete_elems(items, j + 1, i - e0.len());
    }
}

} // verus!
