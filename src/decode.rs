use vstd::prelude::*;

use crate::number::{int_text, parse_i64, parse_int, push_int_text, NumberError};
use crate::value::{views, RespValue, Value};

verus! {

/// Why no value could be taken from the input.
#[derive(PartialEq, Eq, Structural, Clone, Copy, Debug)]
pub enum DecodeError {
    /// The input ended where a type tag was expected.
    EndOfInput,
    /// The byte where a type tag was expected is none of `+ - : $ *`.
    UnknownTag(u8),
    /// The input ends inside a value that is not yet complete, and more may follow.
    Incomplete,
}

/// Reads one line starting at `i`: `(content, next position, whether a terminator was found)`.
/// A carriage return ends the line only when a line feed follows it; otherwise the
/// pair is content. The end of the input ends the line too.
pub open spec fn read_line(s: Seq<u8>, i: int) -> (Seq<u8>, int, bool)
    decreases s.len() - i,
{
    if i < 0 || i >= s.len() {
        (Seq::empty(), i, false)
    } else if s[i] == 13 {
        if i + 1 >= s.len() {
            (seq![13u8], i + 1, false)
        } else if s[i + 1] == 10 {
            (Seq::empty(), i + 2, true)
        } else {
            let r = read_line(s, i + 2);
            (seq![s[i], s[i + 1]] + r.0, r.1, r.2)
        }
    } else {
        let r = read_line(s, i + 1);
        (seq![s[i]] + r.0, r.1, r.2)
    }
}

pub proof fn lemma_read_line_bounds(s: Seq<u8>, i: int)
    requires
        0 <= i <= s.len(),
    ensures
        i <= read_line(s, i).1 <= s.len(),
        i < s.len() ==> i < read_line(s, i).1,
        read_line(s, i).2 ==> i + 2 <= read_line(s, i).1,
    decreases s.len() - i,
{
    if i < s.len() {
        if s[i] == 13 {
            if i + 1 < s.len() && s[i + 1] != 10 {
                lemma_read_line_bounds(s, i + 2);
            }
        } else {
            lemma_read_line_bounds(s, i + 1);
        }
    }
}

/// `cannot parse integer from empty string`
pub open spec fn empty_text() -> Seq<u8> {
    seq![99u8, 97, 110, 110, 111, 116, 32, 112, 97, 114, 115, 101, 32, 105, 110, 116, 101, 103, 101, 114, 32, 102, 114, 111, 109, 32, 101, 109, 112, 116, 121, 32, 115, 116, 114, 105, 110, 103]
}

fn make_empty_text() -> (r: Vec<u8>)
    ensures
        r@ == empty_text(),
{
    let r: Vec<u8> = vec![99u8, 97, 110, 110, 111, 116, 32, 112, 97, 114, 115, 101, 32, 105, 110, 116, 101, 103, 101, 114, 32, 102, 114, 111, 109, 32, 101, 109, 112, 116, 121, 32, 115, 116, 114, 105, 110, 103];
    assert(r@ =~= empty_text());
    r
}

/// `invalid digit found in string`
pub open spec fn invalid_digit_text() -> Seq<u8> {
    seq![105u8, 110, 118, 97, 108, 105, 100, 32, 100, 105, 103, 105, 116, 32, 102, 111, 117, 110, 100, 32, 105, 110, 32, 115, 116, 114, 105, 110, 103]
}

fn make_invalid_digit_text() -> (r: Vec<u8>)
    ensures
        r@ == invalid_digit_text(),
{
    let r: Vec<u8> = vec![105u8, 110, 118, 97, 108, 105, 100, 32, 100, 105, 103, 105, 116, 32, 102, 111, 117, 110, 100, 32, 105, 110, 32, 115, 116, 114, 105, 110, 103];
    assert(r@ =~= invalid_digit_text());
    r
}

/// `number too large to fit in target type`
pub open spec fn too_large_text() -> Seq<u8> {
    seq![110u8, 117, 109, 98, 101, 114, 32, 116, 111, 111, 32, 108, 97, 114, 103, 101, 32, 116, 111, 32, 102, 105, 116, 32, 105, 110, 32, 116, 97, 114, 103, 101, 116, 32, 116, 121, 112, 101]
}

fn make_too_large_text() -> (r: Vec<u8>)
    ensures
        r@ == too_large_text(),
{
    let r: Vec<u8> = vec![110u8, 117, 109, 98, 101, 114, 32, 116, 111, 111, 32, 108, 97, 114, 103, 101, 32, 116, 111, 32, 102, 105, 116, 32, 105, 110, 32, 116, 97, 114, 103, 101, 116, 32, 116, 121, 112, 101];
    assert(r@ =~= too_large_text());
    r
}

/// `number too small to fit in target type`
pub open spec fn too_small_text() -> Seq<u8> {
    seq![110u8, 117, 109, 98, 101, 114, 32, 116, 111, 111, 32, 115, 109, 97, 108, 108, 32, 116, 111, 32, 102, 105, 116, 32, 105, 110, 32, 116, 97, 114, 103, 101, 116, 32, 116, 121, 112, 101]
}

fn make_too_small_text() -> (r: Vec<u8>)
    ensures
        r@ == too_small_text(),
{
    let r: Vec<u8> = vec![110u8, 117, 109, 98, 101, 114, 32, 116, 111, 111, 32, 115, 109, 97, 108, 108, 32, 116, 111, 32, 102, 105, 116, 32, 105, 110, 32, 116, 97, 114, 103, 101, 116, 32, 116, 121, 112, 101];
    assert(r@ =~= too_small_text());
    r
}

/// `invalid bulk string length`
pub open spec fn bad_length_text() -> Seq<u8> {
    seq![105u8, 110, 118, 97, 108, 105, 100, 32, 98, 117, 108, 107, 32, 115, 116, 114, 105, 110, 103, 32, 108, 101, 110, 103, 116, 104]
}

fn make_bad_length_text() -> (r: Vec<u8>)
    ensures
        r@ == bad_length_text(),
{
    let r: Vec<u8> = vec![105u8, 110, 118, 97, 108, 105, 100, 32, 98, 117, 108, 107, 32, 115, 116, 114, 105, 110, 103, 32, 108, 101, 110, 103, 116, 104];
    assert(r@ =~= bad_length_text());
    r
}

/// `Size mismatch for bulk string: n=`
pub open spec fn mismatch_prefix() -> Seq<u8> {
    seq![83u8, 105, 122, 101, 32, 109, 105, 115, 109, 97, 116, 99, 104, 32, 102, 111, 114, 32, 98, 117, 108, 107, 32, 115, 116, 114, 105, 110, 103, 58, 32, 110, 61]
}

fn make_mismatch_prefix() -> (r: Vec<u8>)
    ensures
        r@ == mismatch_prefix(),
{
    let r: Vec<u8> = vec![83u8, 105, 122, 101, 32, 109, 105, 115, 109, 97, 116, 99, 104, 32, 102, 111, 114, 32, 98, 117, 108, 107, 32, 115, 116, 114, 105, 110, 103, 58, 32, 110, 61];
    assert(r@ =~= mismatch_prefix());
    r
}

/// `, string=`
pub open spec fn mismatch_separator() -> Seq<u8> {
    seq![44u8, 32, 115, 116, 114, 105, 110, 103, 61]
}

fn make_mismatch_separator() -> (r: Vec<u8>)
    ensures
        r@ == mismatch_separator(),
{
    let r: Vec<u8> = vec![44u8, 32, 115, 116, 114, 105, 110, 103, 61];
    assert(r@ =~= mismatch_separator());
    r
}

/// Text of the error value that stands for a line that is not a valid number.
pub open spec fn number_error_text(e: NumberError) -> Seq<u8> {
    match e {
        NumberError::Empty => empty_text(),
        NumberError::InvalidDigit => invalid_digit_text(),
        NumberError::TooLarge => too_large_text(),
        NumberError::TooSmall => too_small_text(),
    }
}

/// Text of the error value for a bulk string whose payload is not as long as declared.
pub open spec fn mismatch_text(n: int, got: Seq<u8>) -> Seq<u8> {
    mismatch_prefix() + int_text(n) + mismatch_separator() + got
}

/// A line read from `j` on, unless the input may still grow and holds no terminator yet.
pub open spec fn complete_line(s: Seq<u8>, j: int, at_end: bool) -> Option<(Seq<u8>, int)> {
    let r = read_line(s, j);
    if !r.2 && !at_end {
        None
    } else {
        Some((r.0, r.1))
    }
}

/// A simple string whose tag stood just before `j`.
pub open spec fn decode_simple(s: Seq<u8>, j: int, at_end: bool) -> Result<(Value, int), DecodeError> {
    match complete_line(s, j, at_end) {
        None => Err(DecodeError::Incomplete),
        Some((line, k)) => Ok((Value::Simple(line), k)),
    }
}

/// An error value whose tag stood just before `j`.
pub open spec fn decode_error_line(s: Seq<u8>, j: int, at_end: bool) -> Result<(Value, int), DecodeError> {
    match complete_line(s, j, at_end) {
        None => Err(DecodeError::Incomplete),
        Some((line, k)) => Ok((Value::Error(line), k)),
    }
}

/// An integer whose tag stood just before `j`; a line that is no 64-bit number gives
/// an error value.
pub open spec fn decode_integer(s: Seq<u8>, j: int, at_end: bool) -> Result<(Value, int), DecodeError> {
    match complete_line(s, j, at_end) {
        None => Err(DecodeError::Incomplete),
        Some((line, k)) => match parse_int(line, i64::MIN as int, i64::MAX as int) {
            Ok(n) => Ok((Value::Integer(n), k)),
            Err(e) => Ok((Value::Error(number_error_text(e)), k)),
        },
    }
}

/// A bulk string whose tag stood just before `j`. Its payload is the declared number of
/// bytes when a terminator follows them; otherwise a line is read in its place, and it
/// is the payload only if it has the declared length, else an error value says so.
pub open spec fn decode_bulk(s: Seq<u8>, j: int, at_end: bool) -> Result<(Value, int), DecodeError> {
    match complete_line(s, j, at_end) {
        None => Err(DecodeError::Incomplete),
        Some((line, p)) => match parse_int(line, i64::MIN as int, i64::MAX as int) {
            Err(e) => Ok((Value::Error(number_error_text(e)), p)),
            Ok(n) => if n == -1 {
                Ok((Value::Bulk(None), p))
            } else if n < -1 {
                Ok((Value::Error(bad_length_text()), p))
            } else if p + n + 2 <= s.len() && s[p + n] == 13 && s[p + n + 1] == 10 {
                Ok((Value::Bulk(Some(s.subrange(p, p + n))), p + n + 2))
            } else if p + n + 2 > s.len() && !at_end {
                Err(DecodeError::Incomplete)
            } else {
                match complete_line(s, p, at_end) {
                    None => Err(DecodeError::Incomplete),
                    Some((got, k)) => if got.len() == n {
                        Ok((Value::Bulk(Some(got)), k))
                    } else {
                        Ok((Value::Error(mismatch_text(n, got)), k))
                    },
                }
            },
        },
    }
}

/// An array whose tag stood just before `j`: a count from -128 to 127, then that many
/// values. A negative count stands for the null array.
pub open spec fn decode_array(s: Seq<u8>, j: int, at_end: bool) -> Result<(Value, int), DecodeError>
    decreases s.len() - j, 2int,
{
    if j < 0 || j > s.len() {
        Err(DecodeError::EndOfInput)
    } else {
        match complete_line(s, j, at_end) {
            None => Err(DecodeError::Incomplete),
            Some((line, p)) => match parse_int(line, -128, 127) {
                Err(e) => Ok((Value::Error(number_error_text(e)), p)),
                Ok(n) => if n < 0 {
                    Ok((Value::Array(None), p))
                } else {
                    proof {
                        lemma_read_line_bounds(s, j);
                    }
                    match decode_items(s, p, n as nat, at_end) {
                        Ok((items, k)) => Ok((Value::Array(Some(items)), k)),
                        Err(e) => Err(e),
                    }
                },
            },
        }
    }
}

/// The value that starts at position `i` of `s`, and the position after it.
/// `at_end` tells whether the input ends with `s`; when it does not, running out of
/// bytes gives `Incomplete`.
pub open spec fn decode_value(s: Seq<u8>, i: int, at_end: bool) -> Result<(Value, int), DecodeError>
    decreases s.len() - i, 0int,
{
    if i < 0 || i >= s.len() {
        if at_end {
            Err(DecodeError::EndOfInput)
        } else {
            Err(DecodeError::Incomplete)
        }
    } else if s[i] == 43 {
        decode_simple(s, i + 1, at_end)
    } else if s[i] == 45 {
        decode_error_line(s, i + 1, at_end)
    } else if s[i] == 58 {
        decode_integer(s, i + 1, at_end)
    } else if s[i] == 36 {
        decode_bulk(s, i + 1, at_end)
    } else if s[i] == 42 {
        decode_array(s, i + 1, at_end)
    } else {
        Err(DecodeError::UnknownTag(s[i]))
    }
}

/// `count` values, one after another, starting at position `i`.
pub open spec fn decode_items(s: Seq<u8>, i: int, count: nat, at_end: bool) -> Result<
    (Seq<Value>, int),
    DecodeError,
>
    decreases s.len() - i, 1int,
{
    if count == 0 {
        Ok((Seq::empty(), i))
    } else {
        match decode_value(s, i, at_end) {
            Err(e) => Err(e),
            Ok((v, j)) => if i < j <= s.len() {
                match decode_items(s, j, (count - 1) as nat, at_end) {
                    Ok((vs, k)) => Ok((seq![v] + vs, k)),
                    Err(e) => Err(e),
                }
            } else {
                Err(DecodeError::EndOfInput)
            },
        }
    }
}

/// Puts `pre` in front of the values of a successful result.
pub open spec fn prepend(pre: Seq<Value>, r: Result<(Seq<Value>, int), DecodeError>) -> Result<
    (Seq<Value>, int),
    DecodeError,
> {
    match r {
        Ok((vs, k)) => Ok((pre + vs, k)),
        Err(e) => Err(e),
    }
}

/// An executable result agrees with its model.
pub open spec fn agrees(r: Result<(RespValue, usize), DecodeError>, m: Result<(Value, int), DecodeError>) -> bool {
    match (r, m) {
        (Ok((v, n)), Ok((w, k))) => v@ == w && n as int == k,
        (Err(e), Err(f)) => e == f,
        _ => false,
    }
}

/// Reads one line from position `i` on, as `read_line` says.
pub fn extract_to_separator_from_stream(buf: &[u8], i: usize) -> (r: (Vec<u8>, usize, bool))
    requires
        i <= buf.len(),
    ensures
        (r.0@, r.1 as int, r.2) == read_line(buf@, i as int),
{
    let mut acc: Vec<u8> = Vec::new();
    let mut p: usize = i;
    while p < buf.len()
        invariant
            i <= p <= buf.len(),
            read_line(buf@, i as int) == (acc@ + read_line(buf@, p as int).0, read_line(
                buf@,
                p as int,
            ).1, read_line(buf@, p as int).2),
        decreases buf.len() - p,
    {
        let ghost s = buf@;
        if buf[p] == 13 {
            if p + 1 >= buf.len() {
                let ghost before = acc@;
                acc.push(13u8);
                assert(before + seq![13u8] =~= acc@);
                assert(read_line(s, (p + 1) as int).0 =~= Seq::<u8>::empty());
                assert(acc@ + Seq::<u8>::empty() =~= acc@);
                return (acc, p + 1, false);
            } else if buf[p + 1] == 10 {
                assert(acc@ + Seq::<u8>::empty() =~= acc@);
                return (acc, p + 2, true);
            } else {
                let ghost before = acc@;
                acc.push(buf[p]);
                acc.push(buf[p + 1]);
                assert(before + (seq![s[p as int], s[p + 1]] + read_line(s, p + 2).0) =~= acc@
                    + read_line(s, p + 2).0);
                p = p + 2;
            }
        } else {
            let ghost before = acc@;
            acc.push(buf[p]);
            assert(before + (seq![s[p as int]] + read_line(s, p + 1).0) =~= acc@ + read_line(
                s,
                p + 1,
            ).0);
            p = p + 1;
        }
    }
    assert(acc@ + Seq::<u8>::empty() =~= acc@);
    (acc, p, false)
}

fn copy_range(buf: &[u8], from: usize, to: usize) -> (r: Vec<u8>)
    requires
        from <= to <= buf.len(),
    ensures
        r@ == buf@.subrange(from as int, to as int),
{
    let mut r: Vec<u8> = Vec::new();
    let mut k: usize = from;
    while k < to
        invariant
            from <= k <= to <= buf.len(),
            r@ == buf@.subrange(from as int, k as int),
        decreases to - k,
    {
        r.push(buf[k]);
        k = k + 1;
        assert(r@ =~= buf@.subrange(from as int, k as int));
    }
    r
}

fn number_error_value(e: NumberError) -> (r: RespValue)
    ensures
        r@ == Value::Error(number_error_text(e)),
{
    match e {
        NumberError::Empty => RespValue::Error(make_empty_text()),
        NumberError::InvalidDigit => RespValue::Error(make_invalid_digit_text()),
        NumberError::TooLarge => RespValue::Error(make_too_large_text()),
        NumberError::TooSmall => RespValue::Error(make_too_small_text()),
    }
}

fn complete_line_at(buf: &[u8], j: usize, at_end: bool) -> (r: Option<(Vec<u8>, usize)>)
    requires
        j <= buf.len(),
    ensures
        match complete_line(buf@, j as int, at_end) {
            None => r is None,
            Some((line, k)) => match r {
                Some((got, e)) => got@ == line && e as int == k,
                None => false,
            },
        },
        match r {
            Some((_, e)) => j <= e <= buf.len() && (j < buf.len() ==> j < e),
            None => true,
        },
{
    let (line, k, ended) = extract_to_separator_from_stream(buf, j);
    proof {
        lemma_read_line_bounds(buf@, j as int);
    }
    if !ended && !at_end {
        None
    } else {
        Some((line, k))
    }
}

/// Reads a simple string whose tag stood just before `i`.
pub fn parse_simple_string(buf: &[u8], i: usize, at_end: bool) -> (r: Result<(RespValue, usize), DecodeError>)
    requires
        i <= buf.len(),
    ensures
        agrees(r, decode_simple(buf@, i as int, at_end)),
        r is Ok ==> i <= r->Ok_0.1 <= buf.len(),
{
    match complete_line_at(buf, i, at_end) {
        None => Err(DecodeError::Incomplete),
        Some((line, k)) => Ok((RespValue::SimpleString(line), k)),
    }
}

/// Reads an error value whose tag stood just before `i`.
pub fn parse_error(buf: &[u8], i: usize, at_end: bool) -> (r: Result<(RespValue, usize), DecodeError>)
    requires
        i <= buf.len(),
    ensures
        agrees(r, decode_error_line(buf@, i as int, at_end)),
        r is Ok ==> i <= r->Ok_0.1 <= buf.len(),
{
    match complete_line_at(buf, i, at_end) {
        None => Err(DecodeError::Incomplete),
        Some((line, k)) => Ok((RespValue::Error(line), k)),
    }
}

/// Reads an integer whose tag stood just before `i`.
pub fn parse_integers(buf: &[u8], i: usize, at_end: bool) -> (r: Result<(RespValue, usize), DecodeError>)
    requires
        i <= buf.len(),
    ensures
        agrees(r, decode_integer(buf@, i as int, at_end)),
        r is Ok ==> i <= r->Ok_0.1 <= buf.len(),
{
    match complete_line_at(buf, i, at_end) {
        None => Err(DecodeError::Incomplete),
        Some((line, k)) => match parse_i64(line.as_slice()) {
            Ok(n) => Ok((RespValue::Integer(n), k)),
            Err(e) => Ok((number_error_value(e), k)),
        },
    }
}

/// Reads a bulk string whose tag stood just before `i`.
pub fn parse_bulk_string(buf: &[u8], i: usize, at_end: bool) -> (r: Result<(RespValue, usize), DecodeError>)
    requires
        i <= buf.len(),
    ensures
        agrees(r, decode_bulk(buf@, i as int, at_end)),
        r is Ok ==> i <= r->Ok_0.1 <= buf.len(),
{
    let (line, j) = match complete_line_at(buf, i, at_end) {
        None => {
            return Err(DecodeError::Incomplete);
        },
        Some(lk) => lk,
    };
    match parse_i64(line.as_slice()) {
        Err(e) => Ok((number_error_value(e), j)),
        Ok(n) => {
            if n == -1 {
                Ok((RespValue::BulkString(None), j))
            } else if n < -1 {
                Ok((RespValue::Error(make_bad_length_text()), j))
            } else {
                let avail: usize = buf.len() - j;
                if (n as u64) + 2 <= avail as u64 {
                    let m: usize = n as usize;
                    if buf[j + m] == 13 && buf[j + m + 1] == 10 {
                        return Ok((RespValue::BulkString(Some(copy_range(buf, j, j + m))), j + m + 2));
                    }
                } else if !at_end {
                    return Err(DecodeError::Incomplete);
                }
                match complete_line_at(buf, j, at_end) {
                    None => Err(DecodeError::Incomplete),
                    Some((got, k)) => {
                        if got.len() as u64 == n as u64 {
                            Ok((RespValue::BulkString(Some(got)), k))
                        } else {
                            let ghost g = got@;
                            let mut text = make_mismatch_prefix();
                            push_int_text(&mut text, n);
                            let mut sep = make_mismatch_separator();
                            text.append(&mut sep);
                            let mut got = got;
                            text.append(&mut got);
                            assert(text@ =~= mismatch_text(n as int, g));
                            Ok((RespValue::Error(text), k))
                        }
                    },
                }
            }
        },
    }
}

/// Reads an array whose tag stood just before `i`, and each of its elements.
pub fn parse_arrays(buf: &[u8], i: usize, at_end: bool) -> (r: Result<(RespValue, usize), DecodeError>)
    requires
        i <= buf.len(),
    ensures
        agrees(r, decode_array(buf@, i as int, at_end)),
        r is Ok ==> i <= r->Ok_0.1 <= buf.len(),
    decreases buf.len() - i, 1int,
{
    let (line, j) = match complete_line_at(buf, i, at_end) {
        None => {
            return Err(DecodeError::Incomplete);
        },
        Some(lk) => lk,
    };
    match parse_i64(line.as_slice()) {
        Err(e) => Ok((number_error_value(e), j)),
        Ok(n) => {
            if n > 127 {
                Ok((number_error_value(NumberError::TooLarge), j))
            } else if n < -128 {
                Ok((number_error_value(NumberError::TooSmall), j))
            } else if n < 0 {
                Ok((RespValue::Array(None), j))
            } else {
                let ghost s = buf@;
                let count: usize = n as usize;
                let mut items: Vec<RespValue> = Vec::new();
                let mut p: usize = j;
                let mut left: usize = count;
                assert(views(items@) =~= Seq::<Value>::empty());
                assert(prepend(views(items@), decode_items(s, p as int, left as nat, at_end))
                    =~= decode_items(s, j as int, count as nat, at_end)) by {
                    match decode_items(s, p as int, left as nat, at_end) {
                        Ok((vs, k)) => {
                            assert(Seq::<Value>::empty() + vs =~= vs);
                        },
                        Err(e) => {},
                    }
                }
                assert(decode_array(s, i as int, at_end) == match decode_items(s, j as int, count as nat, at_end) {
                    Ok((vs, k)) => Ok((Value::Array(Some(vs)), k)),
                    Err(e) => Err(e),
                });
                while left > 0
                    invariant
                        decode_array(s, i as int, at_end) == match decode_items(s, j as int, count as nat, at_end) {
                            Ok((vs, k)) => Ok((Value::Array(Some(vs)), k)),
                            Err(e) => Err::<(Value, int), DecodeError>(e),
                        },
                        j <= p <= buf.len(),
                        i < j,
                        s == buf@,
                        decode_items(s, j as int, count as nat, at_end) == prepend(
                            views(items@),
                            decode_items(s, p as int, left as nat, at_end),
                        ),
                    decreases left,
                {
                    let r = parse_resp(buf, p, at_end);
                    match r {
                        Err(e) => {
                            return Err(e);
                        },
                        Ok((v, q)) => {
                            let ghost pre = views(items@);
                            let ghost vv = v@;
                            items.push(v);
                            proof {
                                assert(views(items@) =~= pre.push(vv));
                                match decode_items(s, q as int, (left - 1) as nat, at_end) {
                                    Ok((vs, k)) => {
                                        assert(pre + (seq![vv] + vs) =~= pre.push(vv) + vs);
                                    },
                                    Err(e) => {},
                                }
                            }
                            p = q;
                            left = left - 1;
                        },
                    }
                }
                assert(views(items@) + Seq::<Value>::empty() =~= views(items@));
                let ghost iv = views(items@);
                let out = RespValue::Array(Some(items));
                assert(out@ == Value::Array(Some(iv))) by {
                    assert(out@->Array_0.unwrap() =~= iv);
                }
                Ok((out, p))
            }
        },
    }
}

/// Decodes the value that starts at position `i` of `buf`, and gives the position after
/// it. `at_end` tells whether `buf` holds the rest of the stream.
pub fn parse_resp(buf: &[u8], i: usize, at_end: bool) -> (r: Result<(RespValue, usize), DecodeError>)
    requires
        i <= buf.len(),
    ensures
        agrees(r, decode_value(buf@, i as int, at_end)),
        r is Ok ==> i < r->Ok_0.1 <= buf.len(),
    decreases buf.len() - i, 0int,
{
    if i >= buf.len() {
        return if at_end { Err(DecodeError::EndOfInput) } else { Err(DecodeError::Incomplete) };
    }
    let tag = buf[i];
    let r = if tag == 43 {
        parse_simple_string(buf, i + 1, at_end)
    } else if tag == 45 {
        parse_error(buf, i + 1, at_end)
    } else if tag == 58 {
        parse_integers(buf, i + 1, at_end)
    } else if tag == 36 {
        parse_bulk_string(buf, i + 1, at_end)
    } else if tag == 42 {
        parse_arrays(buf, i + 1, at_end)
    } else {
        Err(DecodeError::UnknownTag(tag))
    };
    r
}

} // verus!
