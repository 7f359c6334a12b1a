//! The outer bundle2 decoder: a state machine that turns a buffer of stream
//! bytes into part frames, one frame per call.
//!
//! Each part is a `u32` BE header length, the header, zero or more payload
//! chunks (`i32` BE length and that many bytes) and a zero-length chunk. A
//! zero header length ends the stream.

use bytes::{Bytes, BytesMut};
use crate::buffer::{
    be_i32, be_u32, buf_contents, buf_freeze, buf_len, buf_split_to, buf_to_vec, bytes_contents,
    drain_i32_be, peek_i32_be, peek_u32_be,
};
use crate::errors::{DecodeFault, ErrorKind};
use crate::part_header::{decode_header, decode_spec, HeaderModel, PartHeader, PartHeaderType};
use vstd::prelude::*;

verus! {

/// The longest parameter value that a decoder accepts unless told otherwise.
pub const DEFAULT_VALUE_CAP: u32 = 16777216;

/// Where the decoder stands in the stream.
#[derive(Clone, Copy, Debug, PartialEq, Eq, Structural)]
pub enum OuterState {
    /// Waiting for a part header or the end of the stream.
    Header,
    /// Inside the payload of a recognized part.
    Payload { part_type: PartHeaderType, part_id: u32 },
    /// Skipping the payload of a part that is not handed on.
    DiscardPayload,
    /// The stream has ended.
    StreamEnd,
    /// The stream is corrupt.
    Invalid,
}

/// One decoded unit of the stream.
#[derive(Debug)]
pub enum OuterFrame {
    Header(PartHeader),
    Payload { part_type: PartHeaderType, part_id: u32, payload: Bytes },
    PartEnd { part_type: PartHeaderType, part_id: u32 },
    /// The sender interrupted the current part.
    PartInterrupted { part_type: PartHeaderType, part_id: u32 },
    Discard,
    StreamEnd,
}

/// A frame as values.
pub ghost enum FrameModel {
    Header(HeaderModel),
    Payload { part_type: PartHeaderType, part_id: u32, payload: Seq<u8> },
    PartEnd { part_type: PartHeaderType, part_id: u32 },
    PartInterrupted { part_type: PartHeaderType, part_id: u32 },
    Discard,
    StreamEnd,
}

/// What one call of the decoder yields when it does not ask for more data.
pub type Event = Result<FrameModel, ErrorKind>;

impl OuterFrame {
    pub open spec fn view(&self) -> FrameModel {
        match self {
            OuterFrame::Header(h) => FrameModel::Header(h.view()),
            OuterFrame::Payload { part_type, part_id, payload } => FrameModel::Payload {
                part_type: *part_type,
                part_id: *part_id,
                payload: bytes_contents(*payload),
            },
            OuterFrame::PartEnd { part_type, part_id } => FrameModel::PartEnd {
                part_type: *part_type,
                part_id: *part_id,
            },
            OuterFrame::PartInterrupted { part_type, part_id } => FrameModel::PartInterrupted {
                part_type: *part_type,
                part_id: *part_id,
            },
            OuterFrame::Discard => FrameModel::Discard,
            OuterFrame::StreamEnd => FrameModel::StreamEnd,
        }
    }

    pub fn is_payload(&self) -> (r: bool)
        ensures
            r == (self is Payload),
    {
        match self {
            OuterFrame::Payload { .. } => true,
            _ => false,
        }
    }

    /// The payload bytes of a `Payload` frame.
    pub fn get_payload(self) -> (r: Bytes)
        requires
            self is Payload,
        ensures
            bytes_contents(r) == bytes_contents(self->payload),
    {
        match self {
            OuterFrame::Payload { payload, .. } => payload,
            _ => vstd::pervasive::unreached(),
        }
    }
}

/// The frame that carries a payload chunk in state `s`.
pub open spec fn payload_model(s: OuterState, data: Seq<u8>) -> FrameModel {
    match s {
        OuterState::Payload { part_type, part_id } => FrameModel::Payload {
            part_type,
            part_id,
            payload: data,
        },
        _ => FrameModel::Discard,
    }
}

/// The frame that ends the current part in state `s`.
pub open spec fn part_end_model(s: OuterState) -> FrameModel {
    match s {
        OuterState::Payload { part_type, part_id } => FrameModel::PartEnd { part_type, part_id },
        _ => FrameModel::Discard,
    }
}

/// The frame that reports an interrupted part in state `s`.
pub open spec fn interrupt_model(s: OuterState) -> FrameModel {
    match s {
        OuterState::Payload { part_type, part_id } => FrameModel::PartInterrupted {
            part_type,
            part_id,
        },
        _ => FrameModel::Discard,
    }
}

/// One step of the decoder in state `s` on buffered bytes `b`: `None` when
/// more data is needed (nothing is consumed and the state stays), else the
/// event, the next state and the number of bytes consumed.
pub open spec fn next(s: OuterState, b: Seq<u8>, cap: u32) -> Option<(Event, OuterState, nat)> {
    match s {
        OuterState::Header => {
            if b.len() < 4 {
                None
            } else if b.len() < 4 + be_u32(b) {
                None
            } else if be_u32(b) == 0 {
                Some((Ok(FrameModel::StreamEnd), OuterState::StreamEnd, 4))
            } else {
                let k = (4 + be_u32(b)) as nat;
                match decode_spec(b.subrange(4, k as int), cap) {
                    Err(e) => Some(
                        (
                            Err(e),
                            if e.spec_is_app_error() {
                                OuterState::DiscardPayload
                            } else {
                                OuterState::Invalid
                            },
                            k,
                        ),
                    ),
                    Ok(None) => Some((Ok(FrameModel::Discard), OuterState::DiscardPayload, k)),
                    Ok(Some(h)) => Some(
                        (
                            Ok(FrameModel::Header(h)),
                            OuterState::Payload { part_type: h.part_type, part_id: h.part_id },
                            k,
                        ),
                    ),
                }
            }
        },
        OuterState::Payload { .. } | OuterState::DiscardPayload => {
            if b.len() < 4 {
                None
            } else if be_i32(b) == 0 {
                Some((Ok(part_end_model(s)), OuterState::Header, 4))
            } else if be_i32(b) == -1 {
                Some((Ok(interrupt_model(s)), s, 4))
            } else if be_i32(b) < 0 {
                Some((Err(ErrorKind::Bundle2Decode(DecodeFault::BadChunkLength)), OuterState::Invalid, 0))
            } else if b.len() < 4 + be_i32(b) {
                None
            } else {
                let k = (4 + be_i32(b)) as nat;
                Some((Ok(payload_model(s, b.subrange(4, k as int))), s, k))
            }
        },
        OuterState::StreamEnd => Some((Ok(FrameModel::StreamEnd), OuterState::StreamEnd, 0)),
        OuterState::Invalid => Some(
            (Err(ErrorKind::Bundle2Decode(DecodeFault::StreamCorrupt)), OuterState::Invalid, 0),
        ),
    }
}

pub open spec fn event_of(r: Result<Option<OuterFrame>, ErrorKind>) -> Option<Event> {
    match r {
        Ok(Some(f)) => Some(Ok(f.view())),
        Ok(None) => None,
        Err(e) => Some(Err(e)),
    }
}

impl OuterState {
    /// Takes the state out, leaving `Invalid` in its place.
    pub fn take(&mut self) -> (r: Self)
        ensures
            r == *old(self),
            *final(self) == OuterState::Invalid,
    {
        let r = *self;
        *self = OuterState::Invalid;
        r
    }

    /// The frame that carries a payload chunk of the current part.
    pub fn payload_frame(&self, data: BytesMut) -> (r: OuterFrame)
        requires
            *self is Payload || *self is DiscardPayload,
        ensures
            r.view() == payload_model(*self, buf_contents(data)),
    {
        match self {
            OuterState::Payload { part_type, part_id } => OuterFrame::Payload {
                part_type: *part_type,
                part_id: *part_id,
                payload: buf_freeze(data),
            },
            _ => OuterFrame::Discard,
        }
    }

    /// The frame that ends the current part.
    pub fn part_end_frame(self) -> (r: OuterFrame)
        requires
            self is Payload || self is DiscardPayload,
        ensures
            r.view() == part_end_model(self),
    {
        match self {
            OuterState::Payload { part_type, part_id } => OuterFrame::PartEnd { part_type, part_id },
            _ => OuterFrame::Discard,
        }
    }

    /// The frame that reports that the current part was interrupted.
    pub fn interrupt_frame(self) -> (r: OuterFrame)
        requires
            self is Payload || self is DiscardPayload,
        ensures
            r.view() == interrupt_model(self),
    {
        match self {
            OuterState::Payload { part_type, part_id } => OuterFrame::PartInterrupted {
                part_type,
                part_id,
            },
            _ => OuterFrame::Discard,
        }
    }
}

/// A decoder for one stream.
#[derive(Debug)]
pub struct OuterDecoder {
    state: OuterState,
    value_cap: u32,
}

impl OuterDecoder {
    pub closed spec fn state(&self) -> OuterState {
        self.state
    }

    pub closed spec fn value_cap(&self) -> u32 {
        self.value_cap
    }

    /// A decoder at the start of a stream, with the default cap on
    /// parameter values.
    pub fn new() -> (r: Self)
        ensures
            r.state() == OuterState::Header,
            r.value_cap() == DEFAULT_VALUE_CAP,
    {
        OuterDecoder { state: OuterState::Header, value_cap: DEFAULT_VALUE_CAP }
    }

    /// A decoder at the start of a stream that refuses parameter values
    /// longer than `cap` bytes.
    pub fn with_value_cap(cap: u32) -> (r: Self)
        ensures
            r.state() == OuterState::Header,
            r.value_cap() == cap,
    {
        OuterDecoder { state: OuterState::Header, value_cap: cap }
    }

    /// The state the decoder is in.
    pub fn current_state(&self) -> (r: OuterState)
        ensures
            r == self.state(),
    {
        self.state
    }

    /// Returns the next frame and consumes its bytes from `buf`, or returns
    /// `Ok(None)` and leaves `buf` untouched when more data is needed.
    pub fn decode(&mut self, buf: &mut BytesMut) -> (r: Result<Option<OuterFrame>, ErrorKind>)
        ensures
            final(self).value_cap() == old(self).value_cap(),
            event_of(r) == (match next(old(self).state(), buf_contents(*old(buf)), old(self).value_cap()) {
                Some((e, _, _)) => Some(e),
                None => None,
            }),
            match next(old(self).state(), buf_contents(*old(buf)), old(self).value_cap()) {
                Some((_, next_state, k)) => final(self).state() == next_state && buf_contents(*final(buf))
                    == buf_contents(*old(buf)).skip(k as int),
                None => final(self).state() == old(self).state() && buf_contents(*final(buf))
                    == buf_contents(*old(buf)),
            },
    {
        let state = self.state.take();
        let (ret, next_state) = Self::decode_next(buf, state, self.value_cap);
        self.state = next_state;
        ret
    }

    fn decode_next(buf: &mut BytesMut, state: OuterState, cap: u32) -> (r: (
        Result<Option<OuterFrame>, ErrorKind>,
        OuterState,
    ))
        ensures
            event_of(r.0) == (match next(state, buf_contents(*old(buf)), cap) {
                Some((e, _, _)) => Some(e),
                None => None,
            }),
            match next(state, buf_contents(*old(buf)), cap) {
                Some((_, next_state, k)) => r.1 == next_state && buf_contents(*final(buf)) == buf_contents(
                    *old(buf),
                ).skip(k as int),
                None => r.1 == state && buf_contents(*final(buf)) == buf_contents(*old(buf)),
            },
    {
        let ghost b0 = buf_contents(*buf);
        match state {
            OuterState::Header => {
                if buf_len(buf) < 4 {
                    return (Ok(None), OuterState::Header);
                }
                let header_len = peek_u32_be(buf) as usize;
                if buf_len(buf) - 4 < header_len {
                    return (Ok(None), OuterState::Header);
                }
                let _ = buf_split_to(buf, 4);
                if header_len == 0 {
                    return (Ok(Some(OuterFrame::StreamEnd)), OuterState::StreamEnd);
                }
                let body = buf_split_to(buf, header_len);
                proof {
                    assert(buf_contents(body) =~= b0.subrange(4, 4 + header_len));
                    assert(buf_contents(*buf) =~= b0.skip(4 + header_len));
                }
                let bytes = buf_to_vec(&body);
                match decode_header(&bytes, cap) {
                    Err(e) => {
                        if e.is_app_error() {
                            (Err(e), OuterState::DiscardPayload)
                        } else {
                            (Err(e), OuterState::Invalid)
                        }
                    },
                    Ok(None) => (Ok(Some(OuterFrame::Discard)), OuterState::DiscardPayload),
                    Ok(Some(header)) => {
                        let part_type = header.part_type();
                        let part_id = header.part_id();
                        (Ok(Some(OuterFrame::Header(header))), OuterState::Payload { part_type, part_id })
                    },
                }
            },
            OuterState::Payload { .. } | OuterState::DiscardPayload => Self::decode_payload(buf, state),
            OuterState::StreamEnd => (Ok(Some(OuterFrame::StreamEnd)), OuterState::StreamEnd),
            OuterState::Invalid => (
                Err(ErrorKind::Bundle2Decode(DecodeFault::StreamCorrupt)),
                OuterState::Invalid,
            ),
        }
    }

    fn decode_payload(buf: &mut BytesMut, state: OuterState) -> (r: (
        Result<Option<OuterFrame>, ErrorKind>,
        OuterState,
    ))
        requires
            state is Payload || state is DiscardPayload,
        ensures
            event_of(r.0) == (match next(state, buf_contents(*old(buf)), 0) {
                Some((e, _, _)) => Some(e),
                None => None,
            }),
            match next(state, buf_contents(*old(buf)), 0) {
                Some((_, next_state, k)) => r.1 == next_state && buf_contents(*final(buf)) == buf_contents(
                    *old(buf),
                ).skip(k as int),
                None => r.1 == state && buf_contents(*final(buf)) == buf_contents(*old(buf)),
            },
    {
        if buf_len(buf) < 4 {
            return (Ok(None), state);
        }
        let total_len = peek_i32_be(buf);
        if total_len == 0 {
            let _ = drain_i32_be(buf);
            (Ok(Some(state.part_end_frame())), OuterState::Header)
        } else if total_len == -1 {
            let _ = drain_i32_be(buf);
            (Ok(Some(state.interrupt_frame())), state)
        } else if total_len < 0 {
            (Err(ErrorKind::Bundle2Decode(DecodeFault::BadChunkLength)), OuterState::Invalid)
        } else {
            (Ok(Self::decode_payload_chunk(buf, &state, total_len as usize)), state)
        }
    }

    fn decode_payload_chunk(buf: &mut BytesMut, state: &OuterState, total_len: usize) -> (r: Option<
        OuterFrame,
    >)
        requires
            *state is Payload || *state is DiscardPayload,
            buf_contents(*old(buf)).len() >= 4,
            total_len == be_i32(buf_contents(*old(buf))),
        ensures
            buf_contents(*old(buf)).len() < 4 + total_len ==> r is None && buf_contents(*final(buf))
                == buf_contents(*old(buf)),
            buf_contents(*old(buf)).len() >= 4 + total_len ==> (r matches Some(f) && f.view()
                == payload_model(*state, buf_contents(*old(buf)).subrange(4, 4 + total_len))
                && buf_contents(*final(buf)) == buf_contents(*old(buf)).skip(4 + total_len)),
    {
        let ghost b0 = buf_contents(*buf);
        if buf_len(buf) - 4 < total_len {
            return None;
        }
        let _ = drain_i32_be(buf);
        let chunk = buf_split_to(buf, total_len);
        proof {
            assert(buf_contents(chunk) =~= b0.subrange(4, 4 + total_len));
            assert(buf_contents(*buf) =~= b0.skip(4 + total_len));
        }
        Some(state.payload_frame(chunk))
    }
}

} // verus!
