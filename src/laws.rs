use vstd::prelude::*;

use crate::decode::{decode_items, decode_value, read_line};
use crate::encode::{crlf, encode_value, encode_values};
use crate::number::{all_digits, digits_value, int_text, nat_text, parse_int};
use crate::engine::{
    apply_command, echo_word, get_word, invocation, ok_text, ping_word, plan, pong_text, run_commands,
    set_word, text_of, upper, CommandModel,
};
use crate::value::Value;

verus! {

/// No carriage return and no line feed in `t`.
pub open spec fn single_line(t: Seq<u8>) -> bool {
    forall|k: int| 0 <= k < t.len() ==> #[trigger] t[k] != 13 && t[k] != 10
}

/// Values that the wire format carries unchanged: simple strings and errors on one line,
/// integers of 64 bits, and arrays of at most 127 elements.
pub open spec fn encodable(v: Value) -> bool
    decreases v,
{
    match v {
        Value::Simple(t) => single_line(t),
        Value::Error(t) => single_line(t),
        Value::Integer(n) => i64::MIN <= n <= i64::MAX,
        Value::Bulk(Some(t)) => t.len() <= i64::MAX,
        Value::Bulk(None) => true,
        Value::Array(Some(vs)) => vs.len() <= 127 && all_encodable(vs),
        Value::Array(None) => true,
    }
}

pub open spec fn all_encodable(vs: Seq<Value>) -> bool
    decreases vs,
{
    if vs.len() == 0 {
        true
    } else {
        encodable(vs[0]) && all_encodable(vs.subrange(1, vs.len() as int))
    }
}

/// `x` stands in `s` at position `i`.
pub open spec fn stands_at(s: Seq<u8>, i: int, x: Seq<u8>) -> bool {
    0 <= i && i + x.len() <= s.len() && forall|k: int| 0 <= k < x.len() ==> s[i + k] == #[trigger] x[k]
}

proof fn lemma_stands_split(s: Seq<u8>, i: int, a: Seq<u8>, b: Seq<u8>)
    requires
        stands_at(s, i, a + b),
    ensures
        stands_at(s, i, a),
        stands_at(s, i + a.len(), b),
{
    assert forall|k: int| 0 <= k < a.len() implies s[i + k] == #[trigger] a[k] by {
        assert((a + b)[k] == a[k]);
    }
    assert forall|k: int| 0 <= k < b.len() implies s[i + a.len() + k] == #[trigger] b[k] by {
        assert((a + b)[a.len() + k] == b[k]);
    }
}

proof fn lemma_read_line_of(s: Seq<u8>, i: int, t: Seq<u8>)
    requires
        stands_at(s, i, t + crlf()),
        forall|k: int| 0 <= k < t.len() ==> #[trigger] t[k] != 13,
    ensures
        read_line(s, i) == (t, i + t.len() + 2, true),
    decreases t.len(),
{
    lemma_stands_split(s, i, t, crlf());
    assert(crlf()[0] == 13 && crlf()[1] == 10);
    if t.len() == 0 {
        assert(s[i + 0] == 13);
        assert(s[i + 1] == 10);
    } else {
        let u = t.subrange(1, t.len() as int);
        assert(s[i + 0] == t[0]);
        assert(stands_at(s, i + 1, u + crlf())) by {
            assert forall|k: int| 0 <= k < (u + crlf()).len() implies s[i + 1 + k] == #[trigger] (u
                + crlf())[k] by {
                assert((t + crlf())[k + 1] == (u + crlf())[k]);
            }
        }
        lemma_read_line_of(s, i + 1, u);
        assert(seq![s[i]] + u =~= t);
    }
}

proof fn lemma_nat_text(n: nat)
    ensures
        nat_text(n).len() > 0,
        all_digits(nat_text(n)),
        digits_value(nat_text(n)) == n,
    decreases n,
{
    if n >= 10 {
        lemma_nat_text(n / 10);
        let t = nat_text(n);
        assert(t.drop_last() =~= nat_text(n / 10));
        assert(all_digits(t)) by {
            assert forall|k: int| 0 <= k < t.len() implies crate::number::is_digit(#[trigger] t[k]) by {
                if k < t.len() - 1 {
                    assert(t[k] == nat_text(n / 10)[k]);
                }
            }
        }
        assert(t.last() == (48 + n % 10) as u8);
        assert(digits_value(t) == digits_value(nat_text(n / 10)) * 10 + (n % 10));
        assert((n / 10) * 10 + n % 10 == n) by (nonlinear_arith);
    } else {
        let t = nat_text(n);
        assert(t.drop_last() =~= Seq::<u8>::empty());
        assert(digits_value(t) == digits_value(t.drop_last()) * 10 + (t.last() - 48) as nat);
    }
}

proof fn lemma_int_text(n: int, min: int, max: int)
    requires
        min <= n <= max,
    ensures
        parse_int(int_text(n), min, max) == Ok::<int, crate::number::NumberError>(n),
        forall|k: int| 0 <= k < int_text(n).len() ==> #[trigger] int_text(n)[k] != 13,
{
    if n < 0 {
        lemma_nat_text((-n) as nat);
        let t = int_text(n);
        assert(t.drop_first() =~= nat_text((-n) as nat));
        assert forall|k: int| 0 <= k < t.len() implies #[trigger] t[k] != 13 by {
            if k > 0 {
                assert(t[k] == nat_text((-n) as nat)[k - 1]);
            }
        }
    } else {
        lemma_nat_text(n as nat);
        assert(nat_text(n as nat)[0] != 45 && nat_text(n as nat)[0] != 43);
    }
}

proof fn lemma_decode_line(s: Seq<u8>, i: int, tag: u8, t: Seq<u8>)
    requires
        stands_at(s, i, seq![tag] + t + crlf()),
        forall|k: int| 0 <= k < t.len() ==> #[trigger] t[k] != 13,
    ensures
        s[i] == tag,
        read_line(s, i + 1) == (t, i + 1 + t.len() + 2, true),
        (seq![tag] + t + crlf()).len() == 1 + t.len() + 2,
{
    assert(seq![tag] + t + crlf() =~= seq![tag] + (t + crlf()));
    lemma_stands_split(s, i, seq![tag], t + crlf());
    assert(s[i + 0] == seq![tag][0]);
    lemma_read_line_of(s, i + 1, t);
}

proof fn lemma_decode_encoded_bulk(s: Seq<u8>, i: int, t: Seq<u8>, at_end: bool)
    requires
        t.len() <= i64::MAX,
        stands_at(s, i, encode_value(Value::Bulk(Some(t)))),
    ensures
        decode_value(s, i, at_end) == Ok::<(Value, int), crate::decode::DecodeError>(
            (Value::Bulk(Some(t)), i + encode_value(Value::Bulk(Some(t))).len()),
        ),
{
    let h = nat_text(t.len());
    assert(int_text(t.len() as int) == h);
    assert(encode_value(Value::Bulk(Some(t))) =~= (seq![36u8] + h + crlf()) + (t + crlf()));
    lemma_stands_split(s, i, seq![36u8] + h + crlf(), t + crlf());
    lemma_int_text(t.len() as int, i64::MIN as int, i64::MAX as int);
    lemma_decode_line(s, i, 36u8, h);
    let j = i + 1 + h.len() + 2;
    lemma_stands_split(s, j, t, crlf());
    assert(s[j + t.len() + 0] == crlf()[0]);
    assert(s[j + t.len() + 1] == crlf()[1]);
    assert(s.subrange(j, j + t.len()) =~= t) by {
        assert forall|k: int| 0 <= k < t.len() implies s.subrange(j, j + t.len())[k] == t[k] by {
            assert(s[j + k] == t[k]);
        }
    }
}

proof fn lemma_decode_encoded_array(s: Seq<u8>, i: int, vs: Seq<Value>, at_end: bool)
    requires
        vs.len() <= 127,
        all_encodable(vs),
        stands_at(s, i, encode_value(Value::Array(Some(vs)))),
    ensures
        decode_value(s, i, at_end) == Ok::<(Value, int), crate::decode::DecodeError>(
            (Value::Array(Some(vs)), i + encode_value(Value::Array(Some(vs))).len()),
        ),
    decreases vs, 1int,
{
    let h = nat_text(vs.len());
    assert(int_text(vs.len() as int) == h);
    assert(encode_value(Value::Array(Some(vs))) =~= (seq![42u8] + h + crlf()) + encode_values(vs));
    lemma_stands_split(s, i, seq![42u8] + h + crlf(), encode_values(vs));
    lemma_int_text(vs.len() as int, -128, 127);
    lemma_decode_line(s, i, 42u8, h);
    lemma_decode_encoded_items(s, i + 1 + h.len() + 2, vs, at_end);
}

/// Decoding the bytes of an encodable value, wherever they stand, gives the value back
/// and the position right after it.
pub proof fn lemma_decode_encoded(s: Seq<u8>, i: int, v: Value, at_end: bool)
    requires
        encodable(v),
        stands_at(s, i, encode_value(v)),
    ensures
        decode_value(s, i, at_end) == Ok::<(Value, int), crate::decode::DecodeError>(
            (v, i + encode_value(v).len()),
        ),
    decreases v, 0int,
{
    match v {
        Value::Simple(t) => {
            lemma_decode_line(s, i, 43u8, t);
        },
        Value::Error(t) => {
            lemma_decode_line(s, i, 45u8, t);
        },
        Value::Integer(n) => {
            lemma_int_text(n, i64::MIN as int, i64::MAX as int);
            lemma_decode_line(s, i, 58u8, int_text(n));
        },
        Value::Bulk(None) => {
            lemma_int_text(-1, i64::MIN as int, i64::MAX as int);
            lemma_decode_line(s, i, 36u8, int_text(-1));
        },
        Value::Bulk(Some(t)) => {
            lemma_decode_encoded_bulk(s, i, t, at_end);
        },
        Value::Array(None) => {
            lemma_int_text(-1, -128, 127);
            lemma_decode_line(s, i, 42u8, int_text(-1));
        },
        Value::Array(Some(vs)) => {
            lemma_decode_encoded_array(s, i, vs, at_end);
        },
    }
}

/// Decoding the concatenated bytes of encodable values gives them back, in order.
pub proof fn lemma_decode_encoded_items(s: Seq<u8>, i: int, vs: Seq<Value>, at_end: bool)
    requires
        all_encodable(vs),
        stands_at(s, i, encode_values(vs)),
    ensures
        decode_items(s, i, vs.len(), at_end) == Ok::<(Seq<Value>, int), crate::decode::DecodeError>(
            (vs, i + encode_values(vs).len()),
        ),
    decreases vs, 0int,
{
    if vs.len() == 0 {
        assert(encode_values(vs) == Seq::<u8>::empty());
        assert(vs =~= Seq::<Value>::empty());
    } else {
        let rest = vs.subrange(1, vs.len() as int);
        let e0 = encode_value(vs[0]);
        assert(encode_values(vs) == e0 + encode_values(rest));
        lemma_stands_split(s, i, e0, encode_values(rest));
        lemma_decode_encoded(s, i, vs[0], at_end);
        lemma_encoded_not_empty(vs[0]);
        lemma_decode_encoded_items(s, i + e0.len(), rest, at_end);
        assert(seq![vs[0]] + rest =~= vs);
        assert((vs.len() - 1) as nat == rest.len());
    }
}

proof fn lemma_encoded_not_empty(v: Value)
    ensures
        encode_value(v).len() > 0,
{
    assert(encode_value(v)[0] == encode_value(v)[0]);
}

/// Encoding an encodable value and decoding the bytes, whatever follows them, gives the
/// value back, having taken exactly its bytes.
pub proof fn lemma_round_trip(v: Value, rest: Seq<u8>, at_end: bool)
    requires
        encodable(v),
    ensures
        decode_value(encode_value(v) + rest, 0, at_end) == Ok::<
            (Value, int),
            crate::decode::DecodeError,
        >((v, encode_value(v).len() as int)),
{
    let s = encode_value(v) + rest;
    assert(stands_at(s, 0, encode_value(v))) by {
        assert forall|k: int| 0 <= k < encode_value(v).len() implies s[0 + k] == #[trigger] encode_value(v)[k] by {
        }
    }
    lemma_decode_encoded(s, 0, v, at_end);
}

/// A bulk string comes back from its bytes with exactly its payload, whatever bytes the
/// payload holds.
pub proof fn lemma_bulk_round_trip(payload: Seq<u8>, rest: Seq<u8>, at_end: bool)
    requires
        payload.len() <= i64::MAX,
    ensures
        decode_value(encode_value(Value::Bulk(Some(payload))) + rest, 0, at_end) == Ok::<
            (Value, int),
            crate::decode::DecodeError,
        >((Value::Bulk(Some(payload)), encode_value(Value::Bulk(Some(payload))).len() as int)),
{
    lemma_round_trip(Value::Bulk(Some(payload)), rest, at_end);
}

/// A request as clients send it: an array of present bulk strings.
pub open spec fn request(parts: Seq<Seq<u8>>) -> Value {
    Value::Array(Some(Seq::new(parts.len(), |i: int| Value::Bulk(Some(parts[i])))))
}

proof fn lemma_words()
    ensures
        plan(Seq::<Value>::empty()) == (Seq::<CommandModel>::empty(), None::<crate::engine::CommandError>),
        upper(ping_word()) == ping_word(),
        upper(echo_word()) == echo_word(),
        upper(set_word()) == set_word(),
        upper(get_word()) == get_word(),
        ping_word() != echo_word() && ping_word() != set_word() && ping_word() != get_word(),
        echo_word() != set_word() && echo_word() != get_word() && set_word() != get_word(),
{
    assert(upper(ping_word()) =~= ping_word());
    assert(upper(echo_word()) =~= echo_word());
    assert(upper(set_word()) =~= set_word());
    assert(upper(get_word()) =~= get_word());
    assert(ping_word()[0] != echo_word()[0]);
    assert(ping_word().len() != set_word().len());
    assert(ping_word().len() != get_word().len());
    assert(echo_word().len() != set_word().len());
    assert(echo_word().len() != get_word().len());
    assert(set_word()[0] != get_word()[0]);
}

proof fn lemma_run_one(m: Map<Seq<u8>, Seq<u8>>, c: CommandModel)
    ensures
        run_commands(m, seq![c]) == (apply_command(m, c).0, seq![apply_command(m, c).1]),
{
    let cs = seq![c];
    assert(cs.subrange(1, 1) =~= Seq::<CommandModel>::empty());
    let m1 = apply_command(m, c).0;
    assert(run_commands(m1, Seq::<CommandModel>::empty()) == (m1, Seq::<Value>::empty()));
    assert(seq![apply_command(m, c).1] + Seq::<Value>::empty() =~= seq![apply_command(m, c).1]);
}

/// A SET request names one command, which makes the key hold the value and replies OK.
pub proof fn lemma_set_request(key: Seq<u8>, val: Seq<u8>)
    ensures
        invocation(request(seq![set_word(), key, val])) == (
            seq![CommandModel::SetKey(key, val)],
            None::<crate::engine::CommandError>,
        ),
{
    lemma_words();
    let items = Seq::new(3, |i: int| Value::Bulk(Some(seq![set_word(), key, val][i])));
    assert(request(seq![set_word(), key, val]) == Value::Array(Some(items)));
    assert(items.subrange(3, 3) =~= Seq::<Value>::empty());
    assert(plan(Seq::<Value>::empty()).0 =~= Seq::<CommandModel>::empty());
    assert(seq![CommandModel::SetKey(key, val)] + Seq::<CommandModel>::empty() =~= seq![
        CommandModel::SetKey(key, val),
    ]);
}

/// A GET request names one command, which reads the key.
pub proof fn lemma_get_request(key: Seq<u8>)
    ensures
        invocation(request(seq![get_word(), key])) == (
            seq![CommandModel::GetKey(key)],
            None::<crate::engine::CommandError>,
        ),
{
    lemma_words();
    let items = Seq::new(2, |i: int| Value::Bulk(Some(seq![get_word(), key][i])));
    assert(request(seq![get_word(), key]) == Value::Array(Some(items)));
    assert(items.subrange(2, 2) =~= Seq::<Value>::empty());
    assert(seq![CommandModel::GetKey(key)] + Seq::<CommandModel>::empty() =~= seq![
        CommandModel::GetKey(key),
    ]);
}

/// SET and then GET of the same key, on any store: SET replies OK, and GET replies with
/// the value that SET wrote, as a present bulk string.
pub proof fn lemma_set_then_get(m: Map<Seq<u8>, Seq<u8>>, key: Seq<u8>, val: Seq<u8>)
    ensures
        run_commands(m, invocation(request(seq![set_word(), key, val])).0).1 == seq![
            Value::Bulk(Some(ok_text())),
        ],
        run_commands(
            run_commands(m, invocation(request(seq![set_word(), key, val])).0).0,
            invocation(request(seq![get_word(), key])).0,
        ).1 == seq![Value::Bulk(Some(val))],
{
    lemma_set_request(key, val);
    lemma_get_request(key);
    lemma_run_one(m, CommandModel::SetKey(key, val));
    lemma_run_one(m.insert(key, val), CommandModel::GetKey(key));
}

/// GET of a key that the store does not hold replies with an absent bulk string, whose
/// bytes are `$-1\r\n`.
pub proof fn lemma_get_missing(m: Map<Seq<u8>, Seq<u8>>, key: Seq<u8>)
    requires
        !m.contains_key(key),
    ensures
        invocation(request(seq![get_word(), key])).1 is None,
        run_commands(m, invocation(request(seq![get_word(), key])).0).1 == seq![Value::Bulk(None)],
        encode_value(Value::Bulk(None)) == seq![36u8, 45, 49, 13, 10],
{
    lemma_get_request(key);
    lemma_run_one(m, CommandModel::GetKey(key));
    assert(nat_text(1) =~= seq![49u8]);
    assert(encode_value(Value::Bulk(None)) =~= seq![36u8, 45, 49, 13, 10]);
}

/// SET commands on one key, one for each value of `vals`, in that order.
pub open spec fn sets(key: Seq<u8>, vals: Seq<Seq<u8>>) -> Seq<CommandModel> {
    Seq::new(vals.len(), |i: int| CommandModel::SetKey(key, vals[i]))
}

/// Writes to one key, in whatever order the store received them, leave the key holding
/// one of the written values (the last one received), never a mixture; a GET then
/// replies with it.
pub proof fn lemma_writes_to_one_key(m: Map<Seq<u8>, Seq<u8>>, key: Seq<u8>, vals: Seq<Seq<u8>>)
    requires
        vals.len() > 0,
    ensures
        run_commands(m, sets(key, vals)).0 == m.insert(key, vals.last()),
        vals.contains(run_commands(m, sets(key, vals)).0[key]),
        run_commands(run_commands(m, sets(key, vals)).0, seq![CommandModel::GetKey(key)]).1
            == seq![Value::Bulk(Some(vals.last()))],
    decreases vals.len(),
{
    let cs = sets(key, vals);
    let m1 = m.insert(key, vals[0]);
    if vals.len() == 1 {
        assert(cs =~= seq![CommandModel::SetKey(key, vals[0])]);
        lemma_run_one(m, CommandModel::SetKey(key, vals[0]));
    } else {
        let rest = vals.subrange(1, vals.len() as int);
        assert(cs.subrange(1, cs.len() as int) =~= sets(key, rest));
        lemma_writes_to_one_key(m1, key, rest);
        assert(m1.insert(key, rest.last()) =~= m.insert(key, vals.last()));
    }
    assert(vals[vals.len() - 1] == vals.last());
    lemma_run_one(m.insert(key, vals.last()), CommandModel::GetKey(key));
}

/// PING replies PONG, and ECHO replies with its argument as it came; neither touches the
/// store.
pub proof fn lemma_ping_echo(m: Map<Seq<u8>, Seq<u8>>, arg: Value)
    requires
        text_of(arg) is Some,
    ensures
        invocation(request(seq![ping_word()])).1 is None,
        run_commands(m, invocation(request(seq![ping_word()])).0) == (m, seq![Value::Simple(pong_text())]),
        invocation(Value::Array(Some(seq![Value::Bulk(Some(echo_word())), arg]))).1 is None,
        run_commands(m, invocation(Value::Array(Some(seq![Value::Bulk(Some(echo_word())), arg]))).0)
            == (m, seq![arg]),
{
    lemma_words();
    let p = Seq::new(1, |i: int| Value::Bulk(Some(seq![ping_word()][i])));
    assert(request(seq![ping_word()]) == Value::Array(Some(p)));
    assert(p.subrange(1, 1) =~= Seq::<Value>::empty());
    assert(seq![CommandModel::Ping] + Seq::<CommandModel>::empty() =~= seq![CommandModel::Ping]);
    lemma_run_one(m, CommandModel::Ping);
    let e = seq![Value::Bulk(Some(echo_word())), arg];
    assert(e.subrange(2, 2) =~= Seq::<Value>::empty());
    assert(seq![CommandModel::Echo(arg)] + Seq::<CommandModel>::empty() =~= seq![CommandModel::Echo(arg)]);
    lemma_run_one(m, CommandModel::Echo(arg));
}

} // verus!
