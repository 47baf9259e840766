//! The wire framing format and its codec.
//!
//! A frame is a fixed 8-byte header followed by the payload: a 4-byte
//! little-endian total length (header plus payload) and a 4-byte little-endian
//! message code (1 = data, 2 = disconnect), then `total_length - 8` payload
//! bytes. Encoding and decoding are pure transforms on fully assembled byte
//! sequences; partial-frame accumulation lives one layer up.

use vstd::bytes::*;
use vstd::prelude::*;
use vstd::slice::{slice_subrange, slice_to_vec};

verus! {

/// Size in bytes of the wire header: a `u32` length followed by a `u32` code.
pub const MSG_HEADER_LENGTH: usize = 8;

/// Wire value of the data-message code.
pub const CODE_MESSAGE: u32 = 1;

/// Wire value of the disconnect code.
pub const CODE_DISCONNECT: u32 = 2;

/// The closed set of message kinds; any other wire code is a framing error.
#[derive(Debug, Ord, PartialOrd, Eq, PartialEq, Copy, Clone, Structural)]
pub enum MsgCode {
    Message,
    Disconnect,
}

/// A decode failure: the bytes violate the framing format. Distinct from
/// "more bytes are needed", which the connection layer reports separately.
#[derive(Debug, Eq, PartialEq, Copy, Clone, Structural)]
pub enum MsgError {
    InvalidData,
}

impl MsgCode {
    /// Numeric value of this code on the wire.
    pub open spec fn spec_to_u32(self) -> u32 {
        match self {
            MsgCode::Message => CODE_MESSAGE,
            MsgCode::Disconnect => CODE_DISCONNECT,
        }
    }

    /// The code denoted by a wire value, if any.
    pub open spec fn spec_from(u: u32) -> Option<MsgCode> {
        if u == CODE_MESSAGE {
            Some(MsgCode::Message)
        } else if u == CODE_DISCONNECT {
            Some(MsgCode::Disconnect)
        } else {
            None
        }
    }

    pub fn to_u32(self) -> (r: u32)
        ensures
            r == self.spec_to_u32(),
    {
        match self {
            MsgCode::Message => CODE_MESSAGE,
            MsgCode::Disconnect => CODE_DISCONNECT,
        }
    }

    pub fn from(u: u32) -> (r: Option<MsgCode>)
        ensures
            r == Self::spec_from(u),
    {
        if u == CODE_MESSAGE {
            Some(MsgCode::Message)
        } else if u == CODE_DISCONNECT {
            Some(MsgCode::Disconnect)
        } else {
            None
        }
    }
}

/// The fixed-width frame header: total length in bytes (header included) and
/// the message code.
#[derive(Debug, Eq, PartialEq, Copy, Clone, Structural)]
pub struct MsgHeader {
    pub length: u32,
    pub code: MsgCode,
}

impl MsgHeader {
    pub fn new(code: MsgCode, length: u32) -> (h: MsgHeader)
        ensures
            h.length == length,
            h.code == code,
    {
        MsgHeader { length, code }
    }

    /// Header well-formedness: the declared length covers at least the header
    /// itself, and a disconnect frame carries no payload.
    pub open spec fn wf(self) -> bool {
        &&& self.length >= MSG_HEADER_LENGTH
        &&& self.code is Disconnect ==> self.length == MSG_HEADER_LENGTH
    }

    #[inline]
    pub fn code(&self) -> (c: MsgCode)
        ensures
            c == self.code,
    {
        self.code
    }

    #[inline]
    pub fn length(&self) -> (l: u32)
        ensures
            l == self.length,
    {
        self.length
    }
}

/// Size in bytes of the wire header.
#[inline]
pub fn msg_header_length() -> (n: usize)
    ensures
        n == MSG_HEADER_LENGTH,
{
    MSG_HEADER_LENGTH
}

/// A complete protocol message: either a data message carrying a payload, or
/// a bare disconnect notice.
#[derive(Debug, Eq, PartialEq)]
pub enum Msg {
    Message { header: MsgHeader, message: Vec<u8> },
    Disconnect { header: MsgHeader },
}

/// The mathematical value of a message: the header record and the payload as
/// a byte sequence, independent of how the payload is stored.
pub ghost enum MsgView {
    Message { header: MsgHeader, payload: Seq<u8> },
    Disconnect { header: MsgHeader },
}

impl MsgView {
    pub open spec fn header(self) -> MsgHeader {
        match self {
            MsgView::Message { header, .. } => header,
            MsgView::Disconnect { header } => header,
        }
    }

    pub open spec fn payload(self) -> Seq<u8> {
        match self {
            MsgView::Message { payload, .. } => payload,
            MsgView::Disconnect { .. } => Seq::empty(),
        }
    }

    /// Message well-formedness: the header matches the variant and the
    /// declared total length is exactly header plus payload.
    pub open spec fn wf(self) -> bool {
        match self {
            MsgView::Message { header, payload } => {
                &&& header.code is Message
                &&& header.length == MSG_HEADER_LENGTH + payload.len()
            },
            MsgView::Disconnect { header } => {
                &&& header.code is Disconnect
                &&& header.length == MSG_HEADER_LENGTH
            },
        }
    }
}

impl View for Msg {
    type V = MsgView;

    open spec fn view(&self) -> MsgView {
        match self {
            Msg::Message { header, message } => MsgView::Message {
                header: *header,
                payload: message@,
            },
            Msg::Disconnect { header } => MsgView::Disconnect { header: *header },
        }
    }
}

impl Msg {
    /// Message well-formedness, lifted from the message's value.
    pub open spec fn wf(self) -> bool {
        self@.wf()
    }

    pub open spec fn spec_code(self) -> MsgCode {
        self@.header().code
    }

    pub open spec fn spec_length(self) -> u32 {
        self@.header().length
    }

    pub fn code(&self) -> (c: MsgCode)
        ensures
            c == self.spec_code(),
    {
        match self {
            Msg::Message { header, message: _ } => header.code(),
            Msg::Disconnect { header } => header.code(),
        }
    }

    pub fn length(&self) -> (l: u32)
        ensures
            l == self.spec_length(),
    {
        match self {
            Msg::Message { header, message: _ } => header.length(),
            Msg::Disconnect { header } => header.length(),
        }
    }

    /// Build a data message around a payload; the total length is computed
    /// from the payload so the header invariant holds by construction.
    pub fn new_message(message: Vec<u8>) -> (m: Msg)
        requires
            message@.len() + MSG_HEADER_LENGTH <= u32::MAX,
        ensures
            m.wf(),
            m@ == (MsgView::Message {
                header: MsgHeader {
                    length: (message@.len() + MSG_HEADER_LENGTH) as u32,
                    code: MsgCode::Message,
                },
                payload: message@,
            }),
    {
        let length = MSG_HEADER_LENGTH as u32 + message.len() as u32;
        Msg::Message { header: MsgHeader::new(MsgCode::Message, length), message }
    }

    /// Build a disconnect message; it carries no payload.
    pub fn new_disconnect() -> (m: Msg)
        ensures
            m.wf(),
            m@ == (MsgView::Disconnect {
                header: MsgHeader {
                    length: MSG_HEADER_LENGTH as u32,
                    code: MsgCode::Disconnect,
                },
            }),
    {
        let length = MSG_HEADER_LENGTH as u32;
        Msg::Disconnect { header: MsgHeader::new(MsgCode::Disconnect, length) }
    }
}

/// The total-length field of a frame: its first four bytes, little-endian.
pub open spec fn length_field(b: Seq<u8>) -> u32 {
    spec_u32_from_le_bytes(b.subrange(0, 4))
}

/// The code field of a frame: bytes four to eight, little-endian.
pub open spec fn code_field(b: Seq<u8>) -> u32 {
    spec_u32_from_le_bytes(b.subrange(4, 8))
}

/// The bytes begin with a well-formed header: a known code, a total length
/// that covers the header, and no payload declared on a disconnect.
pub open spec fn header_ok(b: Seq<u8>) -> bool {
    &&& b.len() >= MSG_HEADER_LENGTH
    &&& MsgCode::spec_from(code_field(b)) is Some
    &&& length_field(b) >= MSG_HEADER_LENGTH
    &&& code_field(b) == CODE_DISCONNECT ==> length_field(b) == MSG_HEADER_LENGTH
}

/// The header a well-formed prefix denotes.
pub open spec fn spec_header(b: Seq<u8>) -> MsgHeader {
    MsgHeader { length: length_field(b), code: MsgCode::spec_from(code_field(b)).unwrap() }
}

/// The bytes are exactly one well-formed frame: a well-formed header whose
/// declared total length equals the number of bytes present.
pub open spec fn frame_ok(b: Seq<u8>) -> bool {
    &&& header_ok(b)
    &&& b.len() == length_field(b)
}

/// The message value one well-formed frame denotes.
pub open spec fn spec_decode(b: Seq<u8>) -> MsgView {
    if code_field(b) == CODE_MESSAGE {
        MsgView::Message { header: spec_header(b), payload: b.skip(MSG_HEADER_LENGTH as int) }
    } else {
        MsgView::Disconnect { header: spec_header(b) }
    }
}

/// The frame that carries a given data payload.
pub open spec fn data_frame(payload: Seq<u8>) -> Seq<u8> {
    (MsgView::Message {
        header: MsgHeader {
            length: (MSG_HEADER_LENGTH + payload.len()) as u32,
            code: MsgCode::Message,
        },
        payload,
    }).to_bytes()
}

impl MsgHeader {
    /// The eight bytes this header occupies on the wire.
    pub open spec fn spec_to_bytes(self) -> Seq<u8> {
        spec_u32_to_le_bytes(self.length) + spec_u32_to_le_bytes(self.code.spec_to_u32())
    }

    /// Append this header's wire bytes to `dst`.
    pub fn write_bytes(&self, dst: &mut Vec<u8>)
        ensures
            final(dst)@ == old(dst)@ + self.spec_to_bytes(),
    {
        let mut length_bytes = u32_to_le_bytes(self.length);
        dst.append(&mut length_bytes);
        let mut code_bytes = u32_to_le_bytes(self.code.to_u32());
        dst.append(&mut code_bytes);
        proof {
            assert(dst@ =~= old(dst)@ + self.spec_to_bytes());
        }
    }

    /// Parse the first eight bytes as a header, validating the code and the
    /// declared length.
    pub fn read_bytes(b: &[u8]) -> (r: Result<MsgHeader, MsgError>)
        requires
            b@.len() >= MSG_HEADER_LENGTH,
        ensures
            match r {
                Ok(h) => header_ok(b@) && h == spec_header(b@) && h.wf(),
                Err(_) => !header_ok(b@),
            },
    {
        let length = u32_from_le_bytes(slice_subrange(b, 0, 4));
        let code_u32 = u32_from_le_bytes(slice_subrange(b, 4, 8));
        match MsgCode::from(code_u32) {
            None => Err(MsgError::InvalidData),
            Some(code) => {
                if length < MSG_HEADER_LENGTH as u32 {
                    Err(MsgError::InvalidData)
                } else if code == MsgCode::Disconnect && length != MSG_HEADER_LENGTH as u32 {
                    Err(MsgError::InvalidData)
                } else {
                    Ok(MsgHeader { length, code })
                }
            },
        }
    }
}

impl MsgView {
    /// The full wire encoding of this message value.
    pub open spec fn to_bytes(self) -> Seq<u8> {
        self.header().spec_to_bytes() + self.payload()
    }
}

impl Msg {
    /// The full wire encoding of this message.
    pub open spec fn spec_to_bytes(self) -> Seq<u8> {
        self@.to_bytes()
    }

    /// Append this message's wire bytes — header, then payload — to `dst`.
    pub fn write_bytes(&self, dst: &mut Vec<u8>)
        ensures
            final(dst)@ == old(dst)@ + self.spec_to_bytes(),
    {
        match self {
            Msg::Message { header, message } => {
                header.write_bytes(dst);
                let ghost with_header = dst@;
                let mut i: usize = 0;
                while i < message.len()
                    invariant
                        i <= message@.len(),
                        dst@ == with_header + message@.subrange(0, i as int),
                    decreases message@.len() - i,
                {
                    dst.push(message[i]);
                    proof {
                        assert(dst@ =~= with_header + message@.subrange(0, i + 1 as int));
                    }
                    i = i + 1;
                }
                proof {
                    assert(message@.subrange(0, message@.len() as int) =~= message@);
                    assert(dst@ =~= old(dst)@ + self.spec_to_bytes());
                }
            },
            Msg::Disconnect { header } => {
                header.write_bytes(dst);
            },
        }
    }

    /// The wire encoding of this message as a fresh byte vector.
    pub fn to_bytes(&self) -> (b: Vec<u8>)
        ensures
            b@ == self.spec_to_bytes(),
    {
        let mut b = Vec::new();
        self.write_bytes(&mut b);
        proof {
            assert(b@ =~= self.spec_to_bytes());
        }
        b
    }

    /// Decode exactly one frame. Fails when the code is unknown, the declared
    /// length is inconsistent, or the byte count differs from the declared
    /// total length; succeeds on every well-formed frame.
    pub fn read_bytes(b: &[u8]) -> (r: Result<Msg, MsgError>)
        ensures
            match r {
                Ok(m) => frame_ok(b@) && m.wf() && m@ == spec_decode(b@),
                Err(_) => !frame_ok(b@),
            },
    {
        if b.len() < MSG_HEADER_LENGTH {
            return Err(MsgError::InvalidData);
        }
        let header = match MsgHeader::read_bytes(b) {
            Err(e) => {
                return Err(e);
            },
            Ok(h) => h,
        };
        let total = header.length as usize;
        if total != b.len() {
            return Err(MsgError::InvalidData);
        }
        match header.code {
            MsgCode::Message => {
                let message = slice_to_vec(slice_subrange(b, MSG_HEADER_LENGTH, b.len()));
                proof {
                    assert(message@ =~= b@.skip(MSG_HEADER_LENGTH as int));
                }
                Ok(Msg::Message { header, message })
            },
            MsgCode::Disconnect => Ok(Msg::Disconnect { header }),
        }
    }
}

/// The header fields read back from a message's encoding are the message's
/// own, and the bytes after the header are its payload.
proof fn lemma_encoding_fields(v: MsgView)
    ensures
        v.to_bytes().len() == MSG_HEADER_LENGTH + v.payload().len(),
        length_field(v.to_bytes()) == v.header().length,
        code_field(v.to_bytes()) == v.header().code.spec_to_u32(),
        v.to_bytes().skip(MSG_HEADER_LENGTH as int) == v.payload(),
{
    lemma_auto_spec_u32_to_from_le_bytes();
    let f = v.to_bytes();
    let lb = spec_u32_to_le_bytes(v.header().length);
    let cb = spec_u32_to_le_bytes(v.header().code.spec_to_u32());
    assert(f.subrange(0, 4) =~= lb);
    assert(f.subrange(4, 8) =~= cb);
    assert(f.skip(MSG_HEADER_LENGTH as int) =~= v.payload());
}

/// Round trip, encode then decode, at the level of message values: the
/// encoding of every well-formed message value is a well-formed frame, and
/// decoding it yields the value back.
pub proof fn lemma_view_round_trip(v: MsgView)
    requires
        v.wf(),
    ensures
        frame_ok(v.to_bytes()),
        spec_decode(v.to_bytes()) == v,
{
    lemma_encoding_fields(v);
    let f = v.to_bytes();
    match v {
        MsgView::Message { header, payload } => {
            assert(spec_header(f) == header);
            assert(spec_decode(f) == v);
        },
        MsgView::Disconnect { header } => {
            assert(spec_header(f) == header);
            assert(spec_decode(f) == v);
        },
    }
}

/// Round trip: for every well-formed message, decoding its encoding yields
/// the same message value. In particular this holds for every data message
/// built from a payload byte sequence.
pub proof fn lemma_msg_round_trip(m: Msg)
    requires
        m.wf(),
    ensures
        frame_ok(m.spec_to_bytes()),
        spec_decode(m.spec_to_bytes()) == m@,
{
    lemma_view_round_trip(m@);
}

/// Round trip, decode then encode: every well-formed frame decodes to a
/// well-formed message value whose encoding is the original frame, byte for
/// byte. Together with the encode-then-decode direction, encoding and
/// decoding are inverse bijections between well-formed message values and
/// well-formed frames.
pub proof fn lemma_frame_round_trip(b: Seq<u8>)
    requires
        frame_ok(b),
    ensures
        spec_decode(b).wf(),
        spec_decode(b).to_bytes() == b,
{
    lemma_auto_spec_u32_to_from_le_bytes();
    let v = spec_decode(b);
    assert(spec_u32_to_le_bytes(length_field(b)) == b.subrange(0, 4));
    assert(spec_u32_to_le_bytes(code_field(b)) == b.subrange(4, 8));
    assert(v.header().code.spec_to_u32() == code_field(b));
    assert(v.to_bytes() =~= b);
}

/// Decoding rejects unknown codes: a frame whose code field names neither
/// message kind is not well formed, so decoding reports a framing violation
/// and never yields a message.
pub proof fn lemma_decode_rejects_unknown_code(b: Seq<u8>)
    requires
        MsgCode::spec_from(code_field(b)) is None,
    ensures
        !frame_ok(b),
{
}

/// Header invariant: every well-formed message declares a total length of
/// exactly the header size plus its payload length (zero for a disconnect).
pub proof fn lemma_header_invariant(m: Msg)
    requires
        m.wf(),
    ensures
        m.spec_length() == MSG_HEADER_LENGTH + m@.payload().len(),
{
}

/// Echo identity: re-framing the payload decoded from a data frame
/// reproduces that frame byte for byte.
pub proof fn lemma_echo_identity(b: Seq<u8>)
    requires
        frame_ok(b),
        code_field(b) == CODE_MESSAGE,
    ensures
        data_frame(spec_decode(b).payload()) == b,
{
    lemma_frame_round_trip(b);
    let v = spec_decode(b);
    assert((MSG_HEADER_LENGTH + v.payload().len()) as u32 == v.header().length);
}

/// Incremental frame decoder over a growing byte buffer, in the mould of a
/// framed-stream codec: once a full header is buffered it caches the declared
/// total length, and once that many bytes are buffered it splits the frame
/// off the front of the buffer and decodes it.
pub struct MsgCodec {
    pub msg_len: usize,
}

impl MsgCodec {
    /// The cached length, when one is set, is what the buffered header
    /// itself declares — the tie between the decoder's state and its buffer.
    pub open spec fn consistent(self, src: Seq<u8>) -> bool {
        self.msg_len != 0 ==> header_ok(src) && self.msg_len == length_field(src)
    }

    pub fn new() -> (c: MsgCodec)
        ensures
            c.msg_len == 0,
            forall|src: Seq<u8>| c.consistent(src),
    {
        MsgCodec { msg_len: 0 }
    }

    /// Append the full encoding of one message to the outbound buffer.
    /// Encoding is total: it never fails.
    pub fn encode(&mut self, item: Msg, dst: &mut Vec<u8>) -> (r: Result<(), MsgError>)
        ensures
            r is Ok,
            *final(self) == *old(self),
            final(dst)@ == old(dst)@ + item.spec_to_bytes(),
    {
        item.write_bytes(dst);
        Ok(())
    }

    /// Try to decode one frame from the front of `src`. Returns `None` while
    /// fewer bytes than one frame are buffered (leaving them untouched),
    /// consumes exactly one frame's bytes when a full well-formed frame is
    /// present, and reports a framing violation on a malformed header.
    pub fn decode(&mut self, src: &mut Vec<u8>) -> (r: Result<Option<Msg>, MsgError>)
        requires
            old(self).consistent(old(src)@),
        ensures
            final(self).consistent(final(src)@),
            match r {
                Ok(opt) => match opt {
                    Some(m) => {
                        let frame = old(src)@.take(length_field(old(src)@) as int);
                        &&& header_ok(old(src)@)
                        &&& length_field(old(src)@) <= old(src)@.len()
                        &&& m.wf()
                        &&& m@ == spec_decode(frame)
                        &&& m.spec_to_bytes() == frame
                        &&& final(src)@ == old(src)@.skip(length_field(old(src)@) as int)
                        &&& final(self).msg_len == 0
                    },
                    None => {
                        &&& final(src)@ == old(src)@
                        &&& (old(src)@.len() < MSG_HEADER_LENGTH || (header_ok(old(src)@)
                            && length_field(old(src)@) > old(src)@.len()))
                    },
                },
                Err(_) => {
                    &&& final(src)@ == old(src)@
                    &&& old(src)@.len() >= MSG_HEADER_LENGTH
                    &&& !header_ok(old(src)@)
                },
            },
    {
        if src.len() < MSG_HEADER_LENGTH {
            return Ok(None);
        }
        if self.msg_len == 0 {
            let header = match MsgHeader::read_bytes(src.as_slice()) {
                Err(e) => {
                    return Err(e);
                },
                Ok(h) => h,
            };
            self.msg_len = header.length as usize;
        }
        if self.msg_len <= src.len() {
            let msg_len = self.msg_len;
            let mut frame = src.split_off(msg_len);
            core::mem::swap(src, &mut frame);
            self.msg_len = 0;
            proof {
                assert(frame@ == old(src)@.take(length_field(old(src)@) as int));
                assert(frame@.subrange(0, 4) =~= old(src)@.subrange(0, 4));
                assert(frame@.subrange(4, 8) =~= old(src)@.subrange(4, 8));
                assert(frame_ok(frame@));
                lemma_frame_round_trip(frame@);
            }
            let msg = match Msg::read_bytes(frame.as_slice()) {
                Err(e) => {
                    return Err(e);
                },
                Ok(m) => m,
            };
            Ok(Some(msg))
        } else {
            Ok(None)
        }
    }
}

} // verus!
