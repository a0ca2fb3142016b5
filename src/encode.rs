use vstd::prelude::*;

use crate::number::{int_text, nat_text, push_int_text, push_nat_text};
use crate::value::{views, RespValue, Value};

verus! {

pub open spec fn crlf() -> Seq<u8> {
    seq![13u8, 10]
}

/// The canonical bytes of a value.
pub open spec fn encode_value(v: Value) -> Seq<u8>
    decreases v,
{
    match v {
        Value::Simple(s) => seq![43u8] + s + crlf(),
        Value::Error(s) => seq![45u8] + s + crlf(),
        Value::Integer(n) => seq![58u8] + int_text(n) + crlf(),
        Value::Bulk(None) => seq![36u8] + int_text(-1) + crlf(),
        Value::Bulk(Some(s)) => seq![36u8] + nat_text(s.len()) + crlf() + s + crlf(),
        Value::Array(None) => seq![42u8] + int_text(-1) + crlf(),
        Value::Array(Some(vs)) => seq![42u8] + nat_text(vs.len()) + crlf() + encode_values(vs),
    }
}

/// The encodings of `vs`, concatenated in order.
pub open spec fn encode_values(vs: Seq<Value>) -> Seq<u8>
    decreases vs,
{
    if vs.len() == 0 {
        Seq::empty()
    } else {
        encode_value(vs[0]) + encode_values(vs.subrange(1, vs.len() as int))
    }
}

pub proof fn lemma_encode_values_push(vs: Seq<Value>, v: Value)
    ensures
        encode_values(vs.push(v)) == encode_values(vs) + encode_value(v),
    decreases vs.len(),
{
    let w = vs.push(v);
    assert(encode_values(w) == encode_value(w[0]) + encode_values(w.subrange(1, w.len() as int)));
    if vs.len() == 0 {
        assert(w.subrange(1, w.len() as int) =~= Seq::<Value>::empty());
        assert(encode_values(Seq::<Value>::empty()) == Seq::<u8>::empty());
        assert(encode_values(vs) == Seq::<u8>::empty());
        assert(encode_value(v) + Seq::<u8>::empty() =~= encode_value(v));
        assert(Seq::<u8>::empty() + encode_value(v) =~= encode_value(v));
    } else {
        let rest = vs.subrange(1, vs.len() as int);
        assert(w.subrange(1, w.len() as int) =~= rest.push(v));
        lemma_encode_values_push(rest, v);
        assert(encode_value(vs[0]) + (encode_values(rest) + encode_value(v)) =~= (encode_value(vs[0])
            + encode_values(rest)) + encode_value(v));
    }
}

fn push_crlf(out: &mut Vec<u8>)
    ensures
        final(out)@ == old(out)@ + crlf(),
{
    out.push(13u8);
    out.push(10u8);
    assert(final(out)@ =~= old(out)@ + crlf());
}

fn push_bytes(out: &mut Vec<u8>, s: &Vec<u8>)
    ensures
        final(out)@ == old(out)@ + s@,
{
    let mut k: usize = 0;
    while k < s.len()
        invariant
            k <= s.len(),
            out@ == old(out)@ + s@.subrange(0, k as int),
        decreases s.len() - k,
    {
        out.push(s[k]);
        k = k + 1;
        assert(out@ =~= old(out)@ + s@.subrange(0, k as int));
    }
    assert(s@.subrange(0, s@.len() as int) =~= s@);
}

/// Appends the canonical bytes of `v` to `out`.
pub fn encode_into(v: &RespValue, out: &mut Vec<u8>)
    ensures
        final(out)@ == old(out)@ + encode_value(v@),
    decreases v,
{
    let ghost start = out@;
    match v {
        RespValue::SimpleString(s) => {
            out.push(43u8);
            push_bytes(out, s);
            push_crlf(out);
            assert(out@ =~= start + encode_value(v@));
        },
        RespValue::Error(s) => {
            out.push(45u8);
            push_bytes(out, s);
            push_crlf(out);
            assert(out@ =~= start + encode_value(v@));
        },
        RespValue::Integer(n) => {
            out.push(58u8);
            push_int_text(out, *n);
            push_crlf(out);
            assert(out@ =~= start + encode_value(v@));
        },
        RespValue::BulkString(None) => {
            out.push(36u8);
            push_int_text(out, -1);
            push_crlf(out);
            assert(out@ =~= start + encode_value(v@));
        },
        RespValue::BulkString(Some(s)) => {
            out.push(36u8);
            push_nat_text(out, s.len() as u64);
            push_crlf(out);
            push_bytes(out, s);
            push_crlf(out);
            assert(out@ =~= start + encode_value(v@));
        },
        RespValue::Array(None) => {
            out.push(42u8);
            push_int_text(out, -1);
            push_crlf(out);
            assert(out@ =~= start + encode_value(v@));
        },
        RespValue::Array(Some(items)) => {
            out.push(42u8);
            push_nat_text(out, items.len() as u64);
            push_crlf(out);
            let ghost head = out@;
            let ghost all = views(items@);
            assert(v@ == Value::Array(Some(all))) by {
                assert(v@->Array_0.unwrap() =~= all);
            }
            let mut k: usize = 0;
            assert(all.subrange(0, 0) =~= Seq::<Value>::empty());
            while k < items.len()
                invariant
                    k <= items.len(),
                    all == views(items@),
                    *v is Array,
                    v->Array_0 == Some(*items),
                    out@ == head + encode_values(all.subrange(0, k as int)),
                decreases items.len() - k,
            {
                proof {
                    let a = v->Array_0;
                    assert(decreases_to!(*v => a));
                    assert(decreases_to!(a => a->0));
                    assert(decreases_to!(*items => items@));
                    assert(decreases_to!(items@ => items@[k as int]));
                    assert(decreases_to!(*v => items@[k as int]));
                }
                encode_into(&items[k], out);
                proof {
                    lemma_encode_values_push(all.subrange(0, k as int), all[k as int]);
                    assert(all.subrange(0, k as int).push(all[k as int]) =~= all.subrange(0, k + 1));
                }
                k = k + 1;
            }
            assert(all.subrange(0, all.len() as int) =~= all);
            assert(out@ =~= start + encode_value(v@));
        },
    }
}

/// The canonical bytes of `v`.
pub fn encode(v: &RespValue) -> (r: Vec<u8>)
    ensures
        r@ == encode_value(v@),
{
    let mut out: Vec<u8> = Vec::new();
    encode_into(v, &mut out);
    assert(out@ =~= encode_value(v@));
    out
}

} // verus!
