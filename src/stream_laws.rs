//! What holds of the decoder across calls: the frames do not depend on how
//! the stream was cut into pieces, and the end and corrupt states are final.

use crate::errors::{DecodeFault, ErrorKind};
use crate::outer::{next, Event, FrameModel, OuterState};
use vstd::prelude::*;

verus! {

/// Why a run of the decoder stopped.
pub ghost enum Stop {
    /// The allowed number of calls was used up.
    Fuel,
    /// The decoder asked for more data.
    NeedData,
    /// The decoder reported the end of the stream or a corrupt stream.
    Terminal,
}

/// An event after which a caller stops: the end of the stream, or an error
/// that leaves the decoder unusable.
pub open spec fn is_terminal(e: Event) -> bool {
    match e {
        Ok(f) => f is StreamEnd,
        Err(x) => !x.spec_is_app_error(),
    }
}

/// Calls the decoder up to `fuel` times on `b`, stopping when it asks for
/// more data or after a terminal event. Returns the events, the last
/// state, the bytes left, and why it stopped.
pub open spec fn drain(s: OuterState, b: Seq<u8>, cap: u32, fuel: nat) -> (
    Seq<Event>,
    OuterState,
    Seq<u8>,
    Stop,
)
    decreases fuel,
{
    if fuel == 0 {
        (Seq::empty(), s, b, Stop::Fuel)
    } else {
        match next(s, b, cap) {
            None => (Seq::empty(), s, b, Stop::NeedData),
            Some((e, next_state, k)) => if is_terminal(e) {
                (seq![e], next_state, b.skip(k as int), Stop::Terminal)
            } else {
                let rest = drain(next_state, b.skip(k as int), cap, (fuel - 1) as nat);
                (seq![e] + rest.0, rest.1, rest.2, rest.3)
            },
        }
    }
}

/// The bytes of `chunks`, one after the other.
pub open spec fn concat_chunks(chunks: Seq<Seq<u8>>) -> Seq<u8>
    decreases chunks.len(),
{
    if chunks.len() == 0 {
        Seq::empty()
    } else {
        chunks[0] + concat_chunks(chunks.drop_first())
    }
}

/// Appends each chunk to the bytes left over and drains the decoder after
/// each, with at most `fuel` calls per chunk; stops at the first chunk
/// after which the decoder did not ask for more data.
pub open spec fn feed(s: OuterState, r: Seq<u8>, chunks: Seq<Seq<u8>>, cap: u32, fuel: nat) -> (
    Seq<Event>,
    OuterState,
    Seq<u8>,
    Stop,
)
    decreases chunks.len(),
{
    if chunks.len() == 0 {
        (Seq::empty(), s, r, Stop::NeedData)
    } else {
        let d = drain(s, r + chunks[0], cap, fuel);
        if !(d.3 is NeedData) {
            d
        } else {
            let f = feed(d.1, d.2, chunks.drop_first(), cap, fuel);
            (d.0 + f.0, f.1, f.2, f.3)
        }
    }
}

proof fn lemma_next_extends(s: OuterState, b: Seq<u8>, c: Seq<u8>, cap: u32)
    requires
        next(s, b, cap) is Some,
    ensures
        next(s, b, cap) matches Some((_, _, k)) && k <= b.len(),
        next(s, b + c, cap) == next(s, b, cap),
{
    let bc = b + c;
    if b.len() >= 4 {
        assert(bc[0] == b[0] && bc[1] == b[1] && bc[2] == b[2] && bc[3] == b[3]);
    }
    match next(s, b, cap) {
        Some((e, next_state, k)) => {
            if k >= 4 {
                assert(bc.subrange(4, k as int) =~= b.subrange(4, k as int));
            }
        },
        None => {},
    }
}

proof fn lemma_drain_stall(s: OuterState, b: Seq<u8>, cap: u32, fuel: nat)
    requires
        drain(s, b, cap, fuel).3 is NeedData,
    ensures
        next(drain(s, b, cap, fuel).1, drain(s, b, cap, fuel).2, cap) is None,
        drain(s, b, cap, fuel).0.len() < fuel,
    decreases fuel,
{
    match next(s, b, cap) {
        None => {},
        Some((e, next_state, k)) => {
            assert(!is_terminal(e));
            lemma_drain_stall(next_state, b.skip(k as int), cap, (fuel - 1) as nat);
        },
    }
}

proof fn lemma_drain_extends(s: OuterState, b: Seq<u8>, c: Seq<u8>, cap: u32, fuel: nat, more: nat)
    requires
        drain(s, b, cap, fuel).3 is NeedData,
    ensures
        ({
            let d1 = drain(s, b, cap, fuel);
            let d2 = drain(d1.1, d1.2 + c, cap, more);
            let whole = drain(s, b + c, cap, d1.0.len() + more);
            whole.0 == d1.0 + d2.0 && whole.1 == d2.1 && whole.2 == d2.2 && whole.3 == d2.3
        }),
    decreases fuel,
{
    let d1 = drain(s, b, cap, fuel);
    match next(s, b, cap) {
        None => {
            assert(d1.0 =~= Seq::<Event>::empty());
            assert(d1.0 + drain(s, b + c, cap, more).0 =~= drain(s, b + c, cap, more).0);
        },
        Some((e, next_state, k)) => {
            assert(!is_terminal(e));
            lemma_next_extends(s, b, c, cap);
            let b2 = b.skip(k as int);
            lemma_drain_extends(next_state, b2, c, cap, (fuel - 1) as nat, more);
            assert((b + c).skip(k as int) =~= b2 + c);
            let inner = drain(next_state, b2, cap, (fuel - 1) as nat);
            let d2 = drain(d1.1, d1.2 + c, cap, more);
            assert(d1.0 == seq![e] + inner.0);
            assert(d1.0.len() + more == 1 + (inner.0.len() + more));
            assert(seq![e] + (inner.0 + d2.0) =~= d1.0 + d2.0);
        },
    }
}

/// Cutting the input anywhere changes nothing: if the decoder is fed `c1`
/// and run until it needs more data, then fed `c2` and run again, the
/// frames, the final state and the bytes left are those of running it on
/// `c1 ∥ c2` at once.
pub proof fn lemma_split_feeding(
    s: OuterState,
    c1: Seq<u8>,
    c2: Seq<u8>,
    cap: u32,
    fuel: nat,
    more: nat,
)
    requires
        drain(s, c1, cap, fuel).3 is NeedData,
    ensures
        ({
            let d1 = drain(s, c1, cap, fuel);
            let d2 = drain(d1.1, d1.2 + c2, cap, more);
            drain(s, c1 + c2, cap, d1.0.len() + more) == (d1.0 + d2.0, d2.1, d2.2, d2.3)
        }),
{
    lemma_drain_extends(s, c1, c2, cap, fuel, more);
}

proof fn lemma_drain_terminal_extends(s: OuterState, b: Seq<u8>, c: Seq<u8>, cap: u32, fuel: nat, more: nat)
    requires
        drain(s, b, cap, fuel).3 is Terminal,
    ensures
        ({
            let d = drain(s, b, cap, fuel);
            let whole = drain(s, b + c, cap, d.0.len() + more);
            whole.0 == d.0 && whole.1 == d.1 && whole.2 == d.2 + c && whole.3 is Terminal
        }),
    decreases fuel,
{
    let d = drain(s, b, cap, fuel);
    match next(s, b, cap) {
        None => {},
        Some((e, next_state, k)) => {
            lemma_next_extends(s, b, c, cap);
            let b2 = b.skip(k as int);
            assert((b + c).skip(k as int) =~= b2 + c);
            if !is_terminal(e) {
                lemma_drain_terminal_extends(next_state, b2, c, cap, (fuel - 1) as nat, more);
                let inner = drain(next_state, b2, cap, (fuel - 1) as nat);
                assert(d.0.len() + more == 1 + (inner.0.len() + more));
            }
        },
    }
}

proof fn lemma_feed_whole(s: OuterState, r: Seq<u8>, chunks: Seq<Seq<u8>>, cap: u32, fuel: nat)
    requires
        next(s, r, cap) is None,
        !(feed(s, r, chunks, cap, fuel).3 is Fuel),
    ensures
        ({
            let f = feed(s, r, chunks, cap, fuel);
            let w = drain(s, r + concat_chunks(chunks), cap, f.0.len() + 1);
            &&& w.0 == f.0
            &&& w.1 == f.1
            &&& w.3 == f.3
            &&& f.3 is NeedData ==> w.2 == f.2
        }),
    decreases chunks.len(),
{
    if chunks.len() == 0 {
        assert(r + concat_chunks(chunks) =~= r);
    } else {
        let d = drain(s, r + chunks[0], cap, fuel);
        let rest = chunks.drop_first();
        assert(r + chunks[0] + concat_chunks(rest) =~= r + concat_chunks(chunks));
        if d.3 is NeedData {
            lemma_drain_stall(s, r + chunks[0], cap, fuel);
            lemma_feed_whole(d.1, d.2, rest, cap, fuel);
            let f2 = feed(d.1, d.2, rest, cap, fuel);
            lemma_drain_extends(s, r + chunks[0], concat_chunks(rest), cap, fuel, f2.0.len() + 1);
        } else {
            lemma_drain_terminal_extends(s, r + chunks[0], concat_chunks(rest), cap, fuel, 1);
        }
    }
}

/// Cutting the input anywhere changes nothing. Feed the stream chunk by
/// chunk, calling the decoder after each chunk until it asks for more data,
/// reports the end of the stream or reports a corrupt stream (and stopping
/// there). Then the events, in order, and the final state are those of
/// feeding the concatenation of the chunks at once; when the decoder ends
/// up asking for more data, the bytes left over are the same too.
pub proof fn lemma_chunked_feeding(s: OuterState, chunks: Seq<Seq<u8>>, cap: u32, fuel: nat)
    requires
        next(s, Seq::empty(), cap) is None,
        !(feed(s, Seq::empty(), chunks, cap, fuel).3 is Fuel),
    ensures
        ({
            let f = feed(s, Seq::empty(), chunks, cap, fuel);
            let w = drain(s, concat_chunks(chunks), cap, f.0.len() + 1);
            &&& w.0 == f.0
            &&& w.1 == f.1
            &&& w.3 == f.3
            &&& f.3 is NeedData ==> w.2 == f.2
        }),
{
    lemma_feed_whole(s, Seq::empty(), chunks, cap, fuel);
    assert(Seq::<u8>::empty() + concat_chunks(chunks) =~= concat_chunks(chunks));
}

/// Once the decoder has reported the end of the stream, every later call
/// reports it again and consumes nothing, whatever bytes follow.
pub proof fn lemma_end_is_final(s: OuterState, b: Seq<u8>, later: Seq<u8>, cap: u32)
    requires
        next(s, b, cap) matches Some((Ok(FrameModel::StreamEnd), _, _)),
    ensures
        next(s, b, cap) matches Some((_, next_state, _)) && next_state == OuterState::StreamEnd,
        next(OuterState::StreamEnd, later, cap) == Some(
            (Ok::<FrameModel, ErrorKind>(FrameModel::StreamEnd), OuterState::StreamEnd, 0nat),
        ),
{
}

/// Once the decoder is invalid, every later call reports a corrupt stream,
/// stays invalid and consumes nothing, whatever bytes follow.
pub proof fn lemma_invalid_is_final(later: Seq<u8>, cap: u32)
    ensures
        next(OuterState::Invalid, later, cap) == Some(
            (
                Err::<FrameModel, ErrorKind>(ErrorKind::Bundle2Decode(DecodeFault::StreamCorrupt)),
                OuterState::Invalid,
                0nat,
            ),
        ),
{
}

} // verus!
