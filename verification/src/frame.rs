//! WebSocket frame codec: decoding of (masked) client frames from a byte
//! buffer and encoding of (unmasked) server frames, with a mathematical
//! model of the wire format.
use vstd::prelude::*;
use vstd::string::StringSliceAdditionalSpecFns;

verus! {

broadcast use vstd::std_specs::vec::group_vec_axioms;

/// The frame-type tag carried in the low four bits of a frame's first byte.
#[derive(Clone, Copy, PartialEq, Eq, Structural, Debug)]
pub enum OpCode {
    ContinuationFrame,
    TextFrame,
    BinaryFrame,
    ConnectionClose,
    Ping,
    Pong,
}

/// Why a buffer does not decode to a frame.
#[derive(Clone, Copy, PartialEq, Eq, Structural, Debug)]
pub enum DecodeError {
    /// Fewer bytes are available than the header declares; wait for more.
    Truncated,
    /// The opcode nibble holds a reserved value.
    InvalidOpcode,
    /// A client frame arrived without the mandatory mask.
    MissingMask,
}

/// One WebSocket frame.
#[derive(Debug, PartialEq, Eq)]
pub struct WebSocketFrame {
    pub fin: bool,
    pub opcode: OpCode,
    pub payload: Vec<u8>,
}

/// The mathematical value of a frame.
#[verifier::ext_equal]
pub ghost struct FrameView {
    pub fin: bool,
    pub opcode: OpCode,
    pub payload: Seq<u8>,
}

impl View for WebSocketFrame {
    type V = FrameView;

    open spec fn view(&self) -> FrameView {
        FrameView { fin: self.fin, opcode: self.opcode, payload: self.payload@ }
    }
}

/// The four-bit wire value of each opcode.
pub open spec fn opcode_bits(op: OpCode) -> u8 {
    match op {
        OpCode::ContinuationFrame => 0,
        OpCode::TextFrame => 1,
        OpCode::BinaryFrame => 2,
        OpCode::ConnectionClose => 8,
        OpCode::Ping => 9,
        OpCode::Pong => 10,
    }
}

/// The opcode a four-bit wire value stands for; reserved values give None.
pub open spec fn opcode_of_bits(b: u8) -> Option<OpCode> {
    if b == 0 {
        Some(OpCode::ContinuationFrame)
    } else if b == 1 {
        Some(OpCode::TextFrame)
    } else if b == 2 {
        Some(OpCode::BinaryFrame)
    } else if b == 8 {
        Some(OpCode::ConnectionClose)
    } else if b == 9 {
        Some(OpCode::Ping)
    } else if b == 10 {
        Some(OpCode::Pong)
    } else {
        None
    }
}

fn bits_to_opcode(b: u8) -> (r: Option<OpCode>)
    ensures
        r == opcode_of_bits(b),
{
    if b == 0 {
        Some(OpCode::ContinuationFrame)
    } else if b == 1 {
        Some(OpCode::TextFrame)
    } else if b == 2 {
        Some(OpCode::BinaryFrame)
    } else if b == 8 {
        Some(OpCode::ConnectionClose)
    } else if b == 9 {
        Some(OpCode::Ping)
    } else if b == 10 {
        Some(OpCode::Pong)
    } else {
        None
    }
}

fn opcode_to_bits(op: OpCode) -> (r: u8)
    ensures
        r == opcode_bits(op),
{
    match op {
        OpCode::ContinuationFrame => 0,
        OpCode::TextFrame => 1,
        OpCode::BinaryFrame => 2,
        OpCode::ConnectionClose => 8,
        OpCode::Ping => 9,
        OpCode::Pong => 10,
    }
}

/// 256 to the power k.
pub open spec fn pow256(k: nat) -> int
    decreases k,
{
    if k == 0 {
        1
    } else {
        256 * pow256((k - 1) as nat)
    }
}

/// The k big-endian base-256 digits of n (low digit last).
pub open spec fn be_bytes(n: int, k: nat) -> Seq<u8>
    decreases k,
{
    if k == 0 {
        Seq::empty()
    } else {
        be_bytes(n / 256, (k - 1) as nat).push((n % 256) as u8)
    }
}

/// The value of a big-endian base-256 digit string.
pub open spec fn be_value(s: Seq<u8>) -> int
    decreases s.len(),
{
    if s.len() == 0 {
        0
    } else {
        be_value(s.drop_last()) * 256 + s.last()
    }
}

proof fn lemma_pow256_pos(k: nat)
    ensures
        pow256(k) >= 1,
    decreases k,
{
    if k > 0 {
        lemma_pow256_pos((k - 1) as nat);
    }
}

proof fn lemma_pow256_mono(a: nat, b: nat)
    requires
        a <= b,
    ensures
        pow256(a) <= pow256(b),
    decreases b,
{
    if a < b {
        lemma_pow256_mono(a, (b - 1) as nat);
        lemma_pow256_pos((b - 1) as nat);
    }
}

proof fn lemma_be_bytes_len(n: int, k: nat)
    ensures
        be_bytes(n, k).len() == k,
    decreases k,
{
    if k > 0 {
        lemma_be_bytes_len(n / 256, (k - 1) as nat);
    }
}

/// Writing k digits and reading them back gives the value again, as long as
/// the value fits in k digits.
proof fn lemma_be_value_of_be_bytes(n: int, k: nat)
    requires
        0 <= n < pow256(k),
    ensures
        be_value(be_bytes(n, k)) == n,
    decreases k,
{
    if k == 0 {
    } else {
        assert(pow256(k) == 256 * pow256((k - 1) as nat));
        assert(n / 256 < pow256((k - 1) as nat)) by (nonlinear_arith)
            requires
                0 <= n,
                n < 256 * pow256((k - 1) as nat),
        ;
        lemma_be_value_of_be_bytes(n / 256, (k - 1) as nat);
        let s = be_bytes(n, k);
        lemma_be_bytes_len(n / 256, (k - 1) as nat);
        assert(s.drop_last() =~= be_bytes(n / 256, (k - 1) as nat));
        assert(0 <= n % 256 < 256);
        assert(be_value(s) == (n / 256) * 256 + n % 256);
        assert((n / 256) * 256 + n % 256 == n) by (nonlinear_arith)
            requires
                0 <= n,
        ;
    }
}

/// be_value never reaches 256 to the length of the string.
proof fn lemma_be_value_bound(s: Seq<u8>)
    ensures
        0 <= be_value(s) < pow256(s.len()),
    decreases s.len(),
{
    if s.len() == 0 {
    } else {
        lemma_be_value_bound(s.drop_last());
        let p = pow256((s.len() - 1) as nat);
        assert(pow256(s.len()) == 256 * p);
        assert(be_value(s.drop_last()) * 256 <= (p - 1) * 256) by (nonlinear_arith)
            requires
                be_value(s.drop_last()) <= p - 1,
        ;
    }
}

/// Appends the k big-endian digits of n to v.
fn push_be_bytes(v: &mut Vec<u8>, n: u64, k: usize)
    requires
        k <= 8,
    ensures
        final(v)@ == old(v)@ + be_bytes(n as int, k as nat),
    decreases k,
{
    if k == 0 {
        assert(v@ =~= old(v)@ + be_bytes(n as int, 0));
    } else {
        push_be_bytes(v, n / 256, k - 1);
        v.push((n % 256) as u8);
        proof {
            assert((n % 256) as u8 == ((n as int) % 256) as u8);
            assert((n / 256) as int == (n as int) / 256);
            assert(v@ =~= old(v)@ + be_bytes(n as int, k as nat));
        }
    }
}

/// Reads k big-endian digits starting at off.
fn read_be(buf: &Vec<u8>, off: usize, k: usize) -> (r: u64)
    requires
        k <= 8,
        off + k <= buf@.len(),
    ensures
        r as int == be_value(buf@.subrange(off as int, off as int + k as int)),
{
    let mut r: u64 = 0;
    let mut i: usize = 0;
    proof {
        assert(buf@.subrange(off as int, off as int) =~= Seq::<u8>::empty());
        assert(buf@.len() == buf.len());
    }
    while i < k
        invariant
            i <= k,
            k <= 8,
            off + k <= buf@.len(),
            buf@.len() <= usize::MAX,
            r as int == be_value(buf@.subrange(off as int, off as int + i as int)),
            (r as int) < pow256(i as nat),
        decreases k - i,
    {
        proof {
            lemma_pow256_mono(i as nat, 7);
            assert(pow256(7) == 72057594037927936) by {
                reveal_with_fuel(pow256, 8);
            }
            let pre = buf@.subrange(off as int, off as int + i as int);
            let post = buf@.subrange(off as int, off as int + i as int + 1);
            assert(post.drop_last() =~= pre);
            assert(post.last() == buf@[off as int + i as int]);
        }
        r = r * 256 + (buf[off + i] as u64);
        i = i + 1;
    }
    proof {
        lemma_be_value_bound(buf@.subrange(off as int, off as int + k as int));
    }
    r
}

/// The XOR unmasking rule: byte i of the payload is raw byte i XOR key byte
/// i mod 4.
pub open spec fn unmask(raw: Seq<u8>, key: Seq<u8>) -> Seq<u8>
    recommends
        key.len() == 4,
{
    Seq::new(raw.len(), |i: int| raw[i] ^ key[i % 4])
}

/// How many extension bytes the seven-bit length field announces.
pub open spec fn ext_len_of(len7: int) -> int {
    if len7 < 126 {
        0
    } else if len7 == 126 {
        2
    } else {
        8
    }
}

/// The mathematical decoder. Reads one frame from the front of b; the Ok
/// value carries the frame and the number of bytes it occupied. When
/// require_mask is set an unmasked frame is refused, as a server must do
/// with client frames.
pub open spec fn parse_frame(b: Seq<u8>, require_mask: bool) -> Result<(FrameView, int), DecodeError> {
    if b.len() < 2 {
        Err(DecodeError::Truncated)
    } else {
        match opcode_of_bits(b[0] % 16) {
            None => Err(DecodeError::InvalidOpcode),
            Some(op) => {
                let fin = b[0] >= 128;
                let masked = b[1] >= 128;
                if require_mask && !masked {
                    Err(DecodeError::MissingMask)
                } else {
                    let len7 = (b[1] % 128) as int;
                    let ext = ext_len_of(len7);
                    if b.len() < 2 + ext {
                        Err(DecodeError::Truncated)
                    } else {
                        let plen = if len7 < 126 {
                            len7
                        } else {
                            be_value(b.subrange(2, 2 + ext))
                        };
                        let moff = 2 + ext;
                        if masked {
                            if b.len() < moff + 4 || b.len() < moff + 4 + plen {
                                Err(DecodeError::Truncated)
                            } else {
                                Ok(
                                    (
                                        FrameView {
                                            fin,
                                            opcode: op,
                                            payload: unmask(
                                                b.subrange(moff + 4, moff + 4 + plen),
                                                b.subrange(moff, moff + 4),
                                            ),
                                        },
                                        moff + 4 + plen,
                                    ),
                                )
                            }
                        } else {
                            if b.len() < moff + plen {
                                Err(DecodeError::Truncated)
                            } else {
                                Ok(
                                    (
                                        FrameView {
                                            fin,
                                            opcode: op,
                                            payload: b.subrange(moff, moff + plen),
                                        },
                                        moff + plen,
                                    ),
                                )
                            }
                        }
                    }
                }
            },
        }
    }
}

/// Relates what decode returns to what parse_frame says.
pub open spec fn decode_matches(
    r: Result<(WebSocketFrame, usize), DecodeError>,
    m: Result<(FrameView, int), DecodeError>,
) -> bool {
    match (r, m) {
        (Ok((f, n)), Ok((fv, c))) => f@ == fv && n as int == c,
        (Err(e1), Err(e2)) => e1 == e2,
        _ => false,
    }
}

/// Decodes one frame from the front of buf, exactly as parse_frame reads it.
pub fn decode(buf: &Vec<u8>, require_mask: bool) -> (r: Result<(WebSocketFrame, usize), DecodeError>)
    ensures
        decode_matches(r, parse_frame(buf@, require_mask)),
{
    if buf.len() < 2 {
        return Err(DecodeError::Truncated);
    }
    let b0 = buf[0];
    let b1 = buf[1];
    let op = match bits_to_opcode(b0 % 16) {
        None => {
            return Err(DecodeError::InvalidOpcode);
        },
        Some(op) => op,
    };
    let fin = b0 >= 128;
    let masked = b1 >= 128;
    if require_mask && !masked {
        return Err(DecodeError::MissingMask);
    }
    let len7 = b1 % 128;
    let ext: usize = if len7 < 126 {
        0
    } else if len7 == 126 {
        2
    } else {
        8
    };
    if buf.len() < 2 + ext {
        return Err(DecodeError::Truncated);
    }
    let plen: u64 = if len7 < 126 {
        len7 as u64
    } else {
        read_be(buf, 2, ext)
    };
    let moff: usize = 2 + ext;
    if masked {
        if buf.len() < moff + 4 {
            return Err(DecodeError::Truncated);
        }
        if ((buf.len() - moff - 4) as u64) < plen {
            return Err(DecodeError::Truncated);
        }
        let plen_us: usize = plen as usize;
        let mut payload: Vec<u8> = Vec::new();
        let mut i: usize = 0;
        proof {
            assert(buf@.len() == buf.len());
        }
        while i < plen_us
            invariant
                i <= plen_us,
                moff + 4 + plen_us <= buf@.len(),
                buf@.len() <= usize::MAX,
                payload@.len() == i as int,
                forall|j: int|
                    0 <= j < i as int ==> payload@[j] == buf@[moff + 4 + j] ^ buf@[moff + (j % 4)],
            decreases plen_us - i,
        {
            payload.push(buf[moff + 4 + i] ^ buf[moff + (i % 4)]);
            i = i + 1;
        }
        proof {
            let m = moff as int;
            let p = plen as int;
            assert(payload@ =~= unmask(
                buf@.subrange(m + 4, m + 4 + p),
                buf@.subrange(m, m + 4),
            ));
        }
        Ok((WebSocketFrame { fin, opcode: op, payload }, moff + 4 + plen_us))
    } else {
        if ((buf.len() - moff) as u64) < plen {
            return Err(DecodeError::Truncated);
        }
        let plen_us: usize = plen as usize;
        let mut payload: Vec<u8> = Vec::new();
        let mut i: usize = 0;
        proof {
            assert(buf@.len() == buf.len());
        }
        while i < plen_us
            invariant
                i <= plen_us,
                moff + plen_us <= buf@.len(),
                buf@.len() <= usize::MAX,
                payload@.len() == i as int,
                forall|j: int| 0 <= j < i as int ==> payload@[j] == buf@[moff + j],
            decreases plen_us - i,
        {
            payload.push(buf[moff + i]);
            i = i + 1;
        }
        proof {
            assert(payload@ =~= buf@.subrange(moff as int, moff as int + plen as int));
        }
        Ok((WebSocketFrame { fin, opcode: op, payload }, moff + plen_us))
    }
}

/// The first header byte: fin bit atop the opcode nibble.
pub open spec fn header_byte0(f: FrameView) -> u8 {
    (((if f.fin {
        128int
    } else {
        0int
    }) + opcode_bits(f.opcode)) as u8)
}

/// The seven-bit length field for a payload of n bytes.
pub open spec fn len_code(n: int) -> u8 {
    if n < 126 {
        n as u8
    } else if n <= 0xFFFF {
        126u8
    } else {
        127u8
    }
}

/// The extended length bytes for a payload of n bytes.
pub open spec fn ext_len_bytes(n: int) -> Seq<u8> {
    if n < 126 {
        Seq::empty()
    } else if n <= 0xFFFF {
        be_bytes(n, 2)
    } else {
        be_bytes(n, 8)
    }
}

/// The wire bytes of a server frame: header, length field in the right
/// tier, no mask, then the raw payload.
pub open spec fn frame_bytes(f: FrameView) -> Seq<u8> {
    seq![header_byte0(f), len_code(f.payload.len() as int)] + ext_len_bytes(
        f.payload.len() as int,
    ) + f.payload
}

/// Appends a byte slice to a vector.
pub fn append_slice(v: &mut Vec<u8>, s: &[u8])
    ensures
        final(v)@ == old(v)@ + s@,
{
    let mut i: usize = 0;
    proof {
        assert(v@ =~= old(v)@ + s@.subrange(0, 0));
    }
    while i < s.len()
        invariant
            i <= s@.len(),
            v@ == old(v)@ + s@.subrange(0, i as int),
        decreases s@.len() - i,
    {
        let b = *vstd::slice::slice_index_get(s, i);
        v.push(b);
        proof {
            assert(v@ =~= old(v)@ + s@.subrange(0, i as int + 1));
        }
        i = i + 1;
    }
    proof {
        assert(old(v)@ + s@.subrange(0, s@.len() as int) =~= old(v)@ + s@);
    }
}

impl WebSocketFrame {
    /// Encodes this frame for the wire, unmasked, as a server sends it.
    pub fn write(&self) -> (r: Vec<u8>)
        ensures
            r@ == frame_bytes(self@),
    {
        let mut out: Vec<u8> = Vec::new();
        let bits = opcode_to_bits(self.opcode);
        let b0: u8 = if self.fin {
            128 + bits
        } else {
            bits
        };
        out.push(b0);
        let n: usize = self.payload.len();
        if n < 126 {
            out.push(n as u8);
        } else if n <= 0xFFFF {
            out.push(126);
            push_be_bytes(&mut out, n as u64, 2);
        } else {
            out.push(127);
            push_be_bytes(&mut out, n as u64, 8);
        }
        append_slice(&mut out, self.payload.as_slice());
        proof {
            assert(out@ =~= frame_bytes(self@));
        }
        out
    }

    /// A final text frame carrying the given payload.
    pub fn text(payload: Vec<u8>) -> (f: WebSocketFrame)
        ensures
            f@ == (FrameView { fin: true, opcode: OpCode::TextFrame, payload: payload@ }),
    {
        WebSocketFrame { fin: true, opcode: OpCode::TextFrame, payload }
    }

    /// A final text frame from a string payload.
    pub fn from_text(s: &str) -> (f: WebSocketFrame)
        ensures
            f@ == (FrameView { fin: true, opcode: OpCode::TextFrame, payload: s.spec_bytes() }),
    {
        WebSocketFrame::text(vstd::slice::slice_to_vec(s.as_bytes()))
    }

    /// The pong answer to a ping: same payload, final frame.
    pub fn pong(ping: &WebSocketFrame) -> (f: WebSocketFrame)
        ensures
            f@ == (FrameView { fin: true, opcode: OpCode::Pong, payload: ping@.payload }),
    {
        WebSocketFrame {
            fin: true,
            opcode: OpCode::Pong,
            payload: vstd::slice::slice_to_vec(ping.payload.as_slice()),
        }
    }

    /// The close reply that mirrors a peer-initiated close frame's payload.
    pub fn close_from(frame: &WebSocketFrame) -> (f: WebSocketFrame)
        ensures
            f@ == (FrameView {
                fin: true,
                opcode: OpCode::ConnectionClose,
                payload: frame@.payload,
            }),
    {
        WebSocketFrame {
            fin: true,
            opcode: OpCode::ConnectionClose,
            payload: vstd::slice::slice_to_vec(frame.payload.as_slice()),
        }
    }

    /// An unsolicited close frame with an empty payload.
    pub fn close() -> (f: WebSocketFrame)
        ensures
            f@.fin,
            f@.opcode == OpCode::ConnectionClose,
            f@.payload.len() == 0,
    {
        WebSocketFrame { fin: true, opcode: OpCode::ConnectionClose, payload: Vec::new() }
    }

    /// Whether flushing this frame terminates the session.
    pub fn is_close(&self) -> (r: bool)
        ensures
            r == (self@.opcode == OpCode::ConnectionClose),
    {
        self.opcode == OpCode::ConnectionClose
    }

    pub fn get_opcode(&self) -> (r: OpCode)
        ensures
            r == self@.opcode,
    {
        self.opcode
    }
}

/// Law: decoding what was encoded gives the frame back. Every frame a
/// server emits — any opcode, any fin bit, a payload in any of the three
/// length tiers — is read back whole, with mask checking off as the
/// round-trip convention for unmasked server frames requires, and consumes
/// exactly the encoded bytes.
pub proof fn lemma_decode_encode_round_trip(f: FrameView)
    requires
        f.payload.len() < 0x10000000000000000,
    ensures
        parse_frame(frame_bytes(f), false) == Ok::<(FrameView, int), DecodeError>(
            (f, frame_bytes(f).len() as int),
        ),
{
    let n = f.payload.len() as int;
    let b = frame_bytes(f);
    let ext = ext_len_bytes(n);
    lemma_ext_len_bytes_len(n);
    assert(b.len() == 2 + ext.len() + n);
    let bits = opcode_bits(f.opcode);
    assert(bits == 0 || bits == 1 || bits == 2 || bits == 8 || bits == 9 || bits == 10);
    assert(b[0] == header_byte0(f));
    assert(b[1] == len_code(n));
    assert(opcode_of_bits(b[0] % 16) == Some(f.opcode));
    assert((b[0] >= 128) == f.fin);
    assert(b[1] < 128);
    let len7 = (b[1] % 128) as int;
    assert(len7 == len_code(n) as int);
    if n < 126 {
        assert(len7 == n);
        assert(ext_len_of(len7) == 0);
        assert(b.subrange(2, 2 + n) =~= f.payload);
    } else if n <= 0xFFFF {
        assert(len7 == 126);
        assert(ext_len_of(len7) == 2);
        assert(b.subrange(2, 4) =~= be_bytes(n, 2));
        assert(pow256(2) == 65536) by {
            reveal_with_fuel(pow256, 3);
        }
        lemma_be_value_of_be_bytes(n, 2);
        assert(be_value(b.subrange(2, 4)) == n);
        assert(b.subrange(4, 4 + n) =~= f.payload);
    } else {
        assert(len7 == 127);
        assert(ext_len_of(len7) == 8);
        assert(b.subrange(2, 10) =~= be_bytes(n, 8));
        assert(pow256(8) == 0x10000000000000000) by {
            reveal_with_fuel(pow256, 9);
        }
        lemma_be_value_of_be_bytes(n, 8);
        assert(be_value(b.subrange(2, 10)) == n);
        assert(b.subrange(10, 10 + n) =~= f.payload);
    }
    assert(parse_frame(b, false) matches Ok(p) && p.0 =~= f && p.1 == b.len());
}

proof fn lemma_ext_len_bytes_len(n: int)
    requires
        0 <= n,
    ensures
        ext_len_bytes(n).len() == ext_len_of(len_code(n) as int),
        (len_code(n) as int) < 126 ==> len_code(n) as int == n,
{
    if n < 126 {
    } else if n <= 0xFFFF {
        lemma_be_bytes_len(n, 2);
    } else {
        lemma_be_bytes_len(n, 8);
    }
}

/// Law: unmasking applies the mask key cyclically — payload byte i is raw
/// byte i XOR key byte i mod 4.
pub proof fn lemma_unmask_cyclic(raw: Seq<u8>, key: Seq<u8>, i: int)
    requires
        key.len() == 4,
        0 <= i < raw.len(),
    ensures
        unmask(raw, key)[i] == raw[i] ^ key[i % 4],
{
}

/// Law: a masked frame decodes to the cyclically unmasked payload. When the
/// decoder accepts a buffer with the mask requirement on, every payload
/// byte is the corresponding raw buffer byte XORed with the mask key byte
/// at its index mod 4, the key being the four bytes before the payload.
pub proof fn lemma_masked_decode_unmasks(b: Seq<u8>, fv: FrameView, c: int)
    requires
        parse_frame(b, true) == Ok::<(FrameView, int), DecodeError>((fv, c)),
    ensures
        ({
            let moff = 2 + ext_len_of((b[1] % 128) as int);
            forall|i: int|
                0 <= i < fv.payload.len() ==> fv.payload[i] == b[moff + 4 + i] ^ b[moff + (
                i % 4)]
        }),
{
    let len7 = (b[1] % 128) as int;
    let ext = ext_len_of(len7);
    let moff = 2 + ext;
    assert(b.len() >= 2);
    assert(b[1] >= 128);
    let plen = if len7 < 126 {
        len7
    } else {
        be_value(b.subrange(2, 2 + ext))
    };
    lemma_be_value_bound(b.subrange(2, 2 + ext));
    assert(plen >= 0);
    assert(b.len() >= moff + 4 + plen);
    assert(fv.payload == unmask(
        b.subrange(moff + 4, moff + 4 + plen),
        b.subrange(moff, moff + 4),
    ));
    assert(fv.payload.len() == plen);
    let raw = b.subrange(moff + 4, moff + 4 + fv.payload.len() as int);
    let key = b.subrange(moff, moff + 4);
    assert(fv.payload == unmask(raw, key));
    assert forall|i: int| 0 <= i < fv.payload.len() implies fv.payload[i] == b[moff + 4 + i]
        ^ b[moff + (i % 4)] by {
        assert(fv.payload[i] == raw[i] ^ key[i % 4]);
        assert(raw[i] == b[moff + 4 + i]);
        assert(key[i % 4] == b[moff + (i % 4)]);
    }
}


} // verus!
