use vstd::prelude::*;

use crate::decode::{parse_resp, decode_value, DecodeError};
use crate::encode::{encode_into, encode_values, lemma_encode_values_push};
use crate::engine::{execute, invocation, run_commands};
use crate::store::Store;
use crate::value::{views, Value};

verus! {

/// What a connection does with the bytes `s` it has received from position `i` on:
/// the store's contents afterwards, the bytes to send back, the position up to which
/// requests were taken, and whether the connection stays open.
/// Each complete request is carried out and answered in turn. A request that is not
/// complete yet waits for more bytes; the end of the stream, a byte that is no type tag,
/// or a request that cannot be carried out ends the connection.
pub open spec fn serve_bytes(m: Map<Seq<u8>, Seq<u8>>, s: Seq<u8>, i: int, at_end: bool) -> (
    Map<Seq<u8>, Seq<u8>>,
    Seq<u8>,
    int,
    bool,
)
    decreases s.len() - i,
{
    match decode_value(s, i, at_end) {
        Err(DecodeError::Incomplete) => (m, Seq::empty(), i, true),
        Err(_) => (m, Seq::empty(), i, false),
        Ok((v, j)) => if i < j <= s.len() {
            let (cmds, err) = invocation(v);
            let (m2, replies) = run_commands(m, cmds);
            let out = encode_values(replies);
            if err is Some {
                (m2, out, j, false)
            } else {
                let r = serve_bytes(m2, s, j, at_end);
                (r.0, out + r.1, r.2, r.3)
            }
        } else {
            (m, Seq::empty(), i, false)
        },
    }
}

/// The outcome of `serve`.
#[derive(Debug)]
pub struct Served {
    /// The replies, encoded, in the order of the requests.
    pub output: Vec<u8>,
    /// How many bytes of the input the answered requests took.
    pub consumed: usize,
    /// Whether the connection stays open.
    pub open: bool,
}

/// Carries out every complete request in `input`, as `serve_bytes` says.
/// `at_end` tells whether the stream ends after `input`.
pub fn serve(store: &mut Store, input: &[u8], at_end: bool) -> (r: Served)
    requires
        old(store).wf(),
    ensures
        final(store).wf(),
        (final(store)@, r.output@, r.consumed as int, r.open) == serve_bytes(
            old(store)@,
            input@,
            0,
            at_end,
        ),
{
    let ghost m0 = store@;
    let ghost s = input@;
    let mut output: Vec<u8> = Vec::new();
    let mut pos: usize = 0;
    assert(output@ + serve_bytes(store@, s, 0, at_end).1 =~= serve_bytes(store@, s, 0, at_end).1);
    loop
        invariant
            store.wf(),
            s == input@,
            m0 == old(store)@,
            pos <= input.len(),
            serve_bytes(m0, s, 0, at_end) == (
                serve_bytes(store@, s, pos as int, at_end).0,
                output@ + serve_bytes(store@, s, pos as int, at_end).1,
                serve_bytes(store@, s, pos as int, at_end).2,
                serve_bytes(store@, s, pos as int, at_end).3,
            ),
        decreases input.len() - pos,
    {
        match parse_resp(input, pos, at_end) {
            Err(e) => {
                assert(output@ + Seq::<u8>::empty() =~= output@);
                let open = match e {
                    DecodeError::Incomplete => true,
                    _ => false,
                };
                return Served { output, consumed: pos, open };
            },
            Ok((request, next)) => {
                let ghost before = store@;
                let ghost req = request@;
                let ghost pre = output@;
                let (replies, err) = execute(store, request);
                let mut k: usize = 0;
                assert(replies@.subrange(0, 0) =~= Seq::<crate::value::RespValue>::empty());
                assert(views(replies@.subrange(0, 0)) =~= Seq::<Value>::empty());
                assert(output@ =~= pre + encode_values(Seq::<Value>::empty()));
                while k < replies.len()
                    invariant
                        k <= replies.len(),
                        output@ == pre + encode_values(views(replies@).subrange(0, k as int)),
                    decreases replies.len() - k,
                {
                    encode_into(&replies[k], &mut output);
                    proof {
                        let rv = views(replies@);
                        lemma_encode_values_push(rv.subrange(0, k as int), rv[k as int]);
                        assert(rv.subrange(0, k as int).push(rv[k as int]) =~= rv.subrange(0, k + 1));
                    }
                    k = k + 1;
                }
                assert(views(replies@).subrange(0, replies@.len() as int) =~= views(replies@));
                let ghost out = encode_values(views(replies@));
                assert(serve_bytes(before, s, pos as int, at_end) == if err is Some {
                    (store@, out, next as int, false)
                } else {
                    let r = serve_bytes(store@, s, next as int, at_end);
                    (r.0, out + r.1, r.2, r.3)
                });
                pos = next;
                if err.is_some() {
                    assert(pre + out + Seq::<u8>::empty() =~= pre + out);
                    return Served { output, consumed: pos, open: false };
                }
                assert(pre + (out + serve_bytes(store@, s, pos as int, at_end).1) =~= output@
                    + serve_bytes(store@, s, pos as int, at_end).1);
            },
        }
    }
}

} // verus!
