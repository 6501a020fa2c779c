//! Datagram framing over the tunnel's byte stream, and the two directions of
//! the UDP relay that use it.
//!
//! A frame on the wire is
//! `[u16 LE length][0][0][0][address type][address][u16 BE port][payload]`,
//! where `length` counts every byte after the length field itself.

use crate::cipher::{cipher_seq, lemma_cipher_concat, next_offset, xor_cipher};
use crate::tools::copy_range;
use vstd::prelude::*;
use vstd::string::StringSliceAdditionalSpecFns;

verus! {

/// The two kinds of destination address a frame can carry.
#[derive(Clone, Copy, Debug, PartialEq, Eq)]
pub enum AddressFamily {
    IPv4,
    IPv6,
}

/// A destination address, as the octets that stand on the wire.
#[derive(Clone, Copy, Debug, PartialEq, Eq)]
pub enum FrameAddress {
    V4([u8; 4]),
    V6([u8; 16]),
}

/// One datagram with its destination.
#[derive(Clone, Debug, PartialEq, Eq)]
pub struct Frame {
    pub address: FrameAddress,
    pub port: u16,
    pub payload: Vec<u8>,
}

/// The mathematical value of a frame.
pub struct FrameView {
    pub family: AddressFamily,
    pub address: Seq<u8>,
    pub port: u16,
    pub payload: Seq<u8>,
}

/// The number of address octets of a family.
pub open spec fn address_len(family: AddressFamily) -> int {
    match family {
        AddressFamily::IPv4 => 4,
        AddressFamily::IPv6 => 16,
    }
}

/// The address-type octet that announces a family on the wire.
pub open spec fn address_type(family: AddressFamily) -> u8 {
    match family {
        AddressFamily::IPv4 => 1,
        AddressFamily::IPv6 => 3,
    }
}

impl FrameAddress {
    /// The family of the address.
    pub open spec fn family(self) -> AddressFamily {
        match self {
            FrameAddress::V4(_) => AddressFamily::IPv4,
            FrameAddress::V6(_) => AddressFamily::IPv6,
        }
    }

    /// The octets of the address, first octet first.
    pub open spec fn octets(self) -> Seq<u8> {
        match self {
            FrameAddress::V4(a) => a@,
            FrameAddress::V6(a) => a@,
        }
    }
}

impl View for Frame {
    type V = FrameView;

    open spec fn view(&self) -> FrameView {
        frame_of(self.address, self.port, self.payload@)
    }
}

/// The frame that carries `payload` to `address` and `port`.
pub open spec fn frame_of(address: FrameAddress, port: u16, payload: Seq<u8>) -> FrameView {
    FrameView { family: address.family(), address: address.octets(), port, payload }
}

impl FrameView {
    /// The value of the length field: the three reserved octets, the address
    /// type, the address, the port and the payload.
    pub open spec fn length(self) -> int {
        6 + self.address.len() as int + self.payload.len() as int
    }

    /// The address has the size of its family and the length fits its field.
    pub open spec fn wf(self) -> bool {
        &&& self.address.len() == address_len(self.family)
        &&& self.length() <= 0xffff
    }

    /// The octets of the frame on the wire.
    pub open spec fn wire(self) -> Seq<u8> {
        seq![
            (self.length() % 256) as u8,
            (self.length() / 256) as u8,
            0u8,
            0u8,
            0u8,
            address_type(self.family),
        ] + self.address + seq![(self.port / 256) as u8, (self.port % 256) as u8] + self.payload
    }
}

/// The largest payload that a frame to an address of `family` can carry.
pub open spec fn max_payload(family: AddressFamily) -> int {
    0xffff - 6 - address_len(family)
}

/// Builds the wire form of one frame.
pub fn encode_frame(address: &FrameAddress, port: u16, payload: &[u8]) -> (out: Vec<u8>)
    requires
        payload@.len() <= max_payload(address.family()),
    ensures
        out@ == frame_of(*address, port, payload@).wire(),
        frame_of(*address, port, payload@).wf(),
{
    let ghost frame = frame_of(*address, port, payload@);
    let addr_len: usize = match address {
        FrameAddress::V4(_) => 4,
        FrameAddress::V6(_) => 16,
    };
    let length: usize = 6 + addr_len + payload.len();
    let mut out: Vec<u8> = Vec::with_capacity(2 + length);
    out.push((length % 256) as u8);
    out.push((length / 256) as u8);
    out.push(0);
    out.push(0);
    out.push(0);
    match address {
        FrameAddress::V4(a) => {
            out.push(1);
            out.extend_from_slice(a.as_slice());
        },
        FrameAddress::V6(a) => {
            out.push(3);
            out.extend_from_slice(a.as_slice());
        },
    }
    out.push((port / 256) as u8);
    out.push((port % 256) as u8);
    out.extend_from_slice(payload);
    assert(out@ =~= frame.wire());
    out
}

/// Why the decoder stopped where it did.
#[derive(Clone, Copy, Debug, PartialEq, Eq)]
pub enum StopReason {
    /// Every byte of the buffer belonged to a whole frame.
    Drained,
    /// The bytes that remain are the beginning of a frame that has not
    /// arrived in full.
    Incomplete,
    /// The length field is zero: no further frames in this buffer.
    Sentinel,
    /// The length field is too small for the header of the frame's family.
    Malformed,
}

impl StopReason {
    /// Decoding stopped at bytes that no later bytes can make a frame of.
    pub open spec fn is_final(self) -> bool {
        self is Sentinel || self is Malformed
    }

    /// Whether the session ends here: the bytes that were kept can never be
    /// decoded, whatever arrives behind them.
    pub fn ends_session(&self) -> (ends: bool)
        ensures
            ends == self.is_final(),
    {
        match self {
            StopReason::Sentinel => true,
            StopReason::Malformed => true,
            StopReason::Drained => false,
            StopReason::Incomplete => false,
        }
    }
}

/// What the decoder finds at one position of a buffer.
pub enum Step {
    Whole(FrameView),
    Stop(StopReason),
}

/// What a buffer decodes to.
pub struct Decoding {
    pub frames: Seq<FrameView>,
    pub consumed: int,
    pub stop: StopReason,
}

/// The little-endian length field at `pos`.
pub open spec fn length_at(buf: Seq<u8>, pos: int) -> int {
    buf[pos] as int + 256 * (buf[pos + 1] as int)
}

/// The big-endian port at `pos`.
pub open spec fn port_at(buf: Seq<u8>, pos: int) -> u16 {
    (256 * (buf[pos] as int) + buf[pos + 1] as int) as u16
}

/// The frame that begins at `pos`, or the reason why none is read there.
///
/// A length of at most 10 cannot hold even the header of an IPv4 frame. An
/// address type other than 1 is read as IPv6, and such a frame must be
/// longer than 24.
pub open spec fn step_at(buf: Seq<u8>, pos: int) -> Step {
    let rest = buf.len() - pos;
    if rest <= 0 {
        Step::Stop(StopReason::Drained)
    } else if rest < 2 {
        Step::Stop(StopReason::Incomplete)
    } else {
        let n = length_at(buf, pos);
        if n == 0 {
            Step::Stop(StopReason::Sentinel)
        } else if n <= 10 {
            Step::Stop(StopReason::Malformed)
        } else if rest < 2 + n {
            Step::Stop(StopReason::Incomplete)
        } else if buf[pos + 5] == 1 {
            Step::Whole(
                FrameView {
                    family: AddressFamily::IPv4,
                    address: buf.subrange(pos + 6, pos + 10),
                    port: port_at(buf, pos + 10),
                    payload: buf.subrange(pos + 12, pos + 2 + n),
                },
            )
        } else if n <= 24 {
            Step::Stop(StopReason::Malformed)
        } else {
            Step::Whole(
                FrameView {
                    family: AddressFamily::IPv6,
                    address: buf.subrange(pos + 6, pos + 22),
                    port: port_at(buf, pos + 22),
                    payload: buf.subrange(pos + 24, pos + 2 + n),
                },
            )
        }
    }
}

/// The frames of `buf` from `pos` on, where decoding stops, and why.
pub open spec fn decode_from(buf: Seq<u8>, pos: int) -> Decoding
    decreases buf.len() - pos,
{
    match step_at(buf, pos) {
        Step::Stop(stop) => Decoding { frames: Seq::empty(), consumed: pos, stop },
        Step::Whole(frame) => {
            let rest = decode_from(buf, pos + 2 + length_at(buf, pos));
            Decoding { frames: seq![frame] + rest.frames, consumed: rest.consumed, stop: rest.stop }
        },
    }
}

/// The frames of `buf`, the number of bytes they take, and why decoding
/// stopped after them.
pub open spec fn decode_spec(buf: Seq<u8>) -> Decoding {
    decode_from(buf, 0)
}

impl FrameView {
    /// The length reaches what the decoder asks of a frame of this family:
    /// more than 10 for IPv4, more than 24 for IPv6.
    pub open spec fn accepted(self) -> bool {
        match self.family {
            AddressFamily::IPv4 => self.length() > 10,
            AddressFamily::IPv6 => self.length() > 24,
        }
    }
}

/// A whole frame that the decoder accepts decodes to itself, and all of its
/// bytes are consumed.
pub proof fn lemma_decode_wire(frame: FrameView)
    requires
        frame.wf(),
        frame.accepted(),
    ensures
        decode_spec(frame.wire()) == (Decoding {
            frames: seq![frame],
            consumed: 2 + frame.length(),
            stop: StopReason::Drained,
        }),
        frame.wire().len() == 2 + frame.length(),
{
    let buf = frame.wire();
    let n = frame.length();
    assert(buf.len() == 2 + n);
    assert(length_at(buf, 0) == n);
    match frame.family {
        AddressFamily::IPv4 => {
            assert(buf.subrange(6, 10) =~= frame.address);
            assert(buf.subrange(12, 2 + n) =~= frame.payload);
            assert(port_at(buf, 10) == frame.port);
        },
        AddressFamily::IPv6 => {
            assert(buf.subrange(6, 22) =~= frame.address);
            assert(buf.subrange(24, 2 + n) =~= frame.payload);
            assert(port_at(buf, 22) == frame.port);
        },
    }
    assert(step_at(buf, 0) == Step::Whole(frame));
    assert(step_at(buf, 2 + n) == Step::Stop(StopReason::Drained));
    let rest = decode_from(buf, 2 + n);
    assert(rest.frames =~= Seq::<FrameView>::empty());
    assert(seq![frame] + rest.frames =~= seq![frame]);
}

/// A frame that was cut short decodes to nothing and nothing of it is
/// consumed; once the missing bytes stand behind what was kept, the frame is
/// read.
pub proof fn lemma_decode_truncated(frame: FrameView, cut: int)
    requires
        frame.wf(),
        frame.accepted(),
        0 <= cut < frame.wire().len(),
    ensures
        decode_spec(frame.wire().take(cut)).frames == Seq::<FrameView>::empty(),
        decode_spec(frame.wire().take(cut)).consumed == 0,
        decode_spec(frame.wire().take(cut)).stop == (if cut == 0 {
            StopReason::Drained
        } else {
            StopReason::Incomplete
        }),
        decode_spec(
            frame.wire().take(cut).skip(decode_spec(frame.wire().take(cut)).consumed)
                + frame.wire().skip(cut),
        ).frames == seq![frame],
{
    let buf = frame.wire();
    let head = buf.take(cut);
    let n = frame.length();
    assert(buf.len() == 2 + n);
    if cut >= 2 {
        assert(length_at(head, 0) == n);
    }
    assert(step_at(head, 0) is Stop);
    assert(head.skip(0) + buf.skip(cut) =~= buf);
    lemma_decode_wire(frame);
}

/// Reading a frame at `pos` looks at no byte behind that frame.
proof fn lemma_step_prefix(head: Seq<u8>, tail: Seq<u8>, pos: int)
    requires
        0 <= pos <= head.len(),
        step_at(head, pos) is Whole,
    ensures
        step_at(head + tail, pos) == step_at(head, pos),
        length_at(head + tail, pos) == length_at(head, pos),
{
    let buf = head + tail;
    let n = length_at(head, pos);
    assert(length_at(buf, pos) == n);
    assert(buf[pos + 5] == head[pos + 5]);
    assert(port_at(buf, pos + 10) == port_at(head, pos + 10));
    assert(buf.subrange(pos + 6, pos + 10) =~= head.subrange(pos + 6, pos + 10));
    assert(buf.subrange(pos + 12, pos + 2 + n) =~= head.subrange(pos + 12, pos + 2 + n));
    if n > 24 {
        assert(port_at(buf, pos + 22) == port_at(head, pos + 22));
        assert(buf.subrange(pos + 6, pos + 22) =~= head.subrange(pos + 6, pos + 22));
        assert(buf.subrange(pos + 24, pos + 2 + n) =~= head.subrange(pos + 24, pos + 2 + n));
    }
}

/// Decoding `head + tail` from `pos` reads the frames that `head` alone
/// holds from there, and goes on where decoding `head` stopped.
proof fn lemma_decode_prefix(head: Seq<u8>, tail: Seq<u8>, pos: int)
    requires
        0 <= pos <= head.len(),
    ensures
        pos <= decode_from(head, pos).consumed <= head.len(),
        decode_from(head + tail, pos).frames == decode_from(head, pos).frames + decode_from(
            head + tail,
            decode_from(head, pos).consumed,
        ).frames,
        decode_from(head + tail, pos).consumed == decode_from(
            head + tail,
            decode_from(head, pos).consumed,
        ).consumed,
        decode_from(head + tail, pos).stop == decode_from(
            head + tail,
            decode_from(head, pos).consumed,
        ).stop,
    decreases head.len() - pos,
{
    let buf = head + tail;
    match step_at(head, pos) {
        Step::Stop(_) => {
            assert(Seq::<FrameView>::empty() + decode_from(buf, pos).frames =~= decode_from(
                buf,
                pos,
            ).frames);
        },
        Step::Whole(frame) => {
            lemma_step_prefix(head, tail, pos);
            let next = pos + 2 + length_at(head, pos);
            lemma_decode_prefix(head, tail, next);
            let mid = decode_from(head, next);
            let end = decode_from(buf, mid.consumed);
            assert(seq![frame] + (mid.frames + end.frames) =~= (seq![frame] + mid.frames)
                + end.frames);
        },
    }
}

/// Reading a frame depends only on the bytes from its position on.
proof fn lemma_step_shift(buf: Seq<u8>, base: int, pos: int)
    requires
        0 <= base,
        0 <= pos,
        base + pos <= buf.len(),
    ensures
        step_at(buf, base + pos) == step_at(buf.skip(base), pos),
        buf.len() - (base + pos) >= 2 ==> length_at(buf, base + pos) == length_at(
            buf.skip(base),
            pos,
        ),
{
    let cut = buf.skip(base);
    let rest = buf.len() - (base + pos);
    if rest >= 2 {
        let n = length_at(buf, base + pos);
        assert(length_at(cut, pos) == n);
        if n > 10 && rest >= 2 + n {
            assert(cut[pos + 5] == buf[base + pos + 5]);
            assert(port_at(cut, pos + 10) == port_at(buf, base + pos + 10));
            assert(cut.subrange(pos + 6, pos + 10) =~= buf.subrange(
                base + pos + 6,
                base + pos + 10,
            ));
            assert(cut.subrange(pos + 12, pos + 2 + n) =~= buf.subrange(
                base + pos + 12,
                base + pos + 2 + n,
            ));
            if n > 24 {
                assert(port_at(cut, pos + 22) == port_at(buf, base + pos + 22));
                assert(cut.subrange(pos + 6, pos + 22) =~= buf.subrange(
                    base + pos + 6,
                    base + pos + 22,
                ));
                assert(cut.subrange(pos + 24, pos + 2 + n) =~= buf.subrange(
                    base + pos + 24,
                    base + pos + 2 + n,
                ));
            }
        }
    }
}

/// Decoding from `base + pos` is decoding what follows `base` from `pos`.
proof fn lemma_decode_shift(buf: Seq<u8>, base: int, pos: int)
    requires
        0 <= base,
        0 <= pos,
        base + pos <= buf.len(),
    ensures
        decode_from(buf, base + pos).frames == decode_from(buf.skip(base), pos).frames,
        decode_from(buf, base + pos).consumed == base + decode_from(buf.skip(base), pos).consumed,
        decode_from(buf, base + pos).stop == decode_from(buf.skip(base), pos).stop,
    decreases buf.len() - (base + pos),
{
    lemma_step_shift(buf, base, pos);
    match step_at(buf, base + pos) {
        Step::Stop(_) => {},
        Step::Whole(_) => {
            let n = length_at(buf, base + pos);
            lemma_decode_shift(buf, base, pos + 2 + n);
        },
    }
}

/// Buffering loses nothing: decoding `head`, keeping what was not consumed,
/// and decoding that with `tail` behind it reads the frames of `head + tail`
/// in their order, and stops where and why decoding `head + tail` stops.
pub proof fn lemma_decode_resumes(head: Seq<u8>, tail: Seq<u8>)
    ensures
        0 <= decode_spec(head).consumed <= head.len(),
        decode_spec(head + tail).frames == decode_spec(head).frames + decode_spec(
            head.skip(decode_spec(head).consumed) + tail,
        ).frames,
        decode_spec(head + tail).consumed == decode_spec(head).consumed + decode_spec(
            head.skip(decode_spec(head).consumed) + tail,
        ).consumed,
        decode_spec(head + tail).stop == decode_spec(
            head.skip(decode_spec(head).consumed) + tail,
        ).stop,
{
    let kept = decode_spec(head).consumed;
    lemma_decode_prefix(head, tail, 0);
    lemma_decode_shift(head + tail, kept, 0);
    assert((head + tail).skip(kept) =~= head.skip(kept) + tail);
}

/// Decoding stops at the position it reports, for the reason it reports.
proof fn lemma_stop_at_consumed(buf: Seq<u8>, pos: int)
    requires
        0 <= pos <= buf.len(),
    ensures
        pos <= decode_from(buf, pos).consumed <= buf.len(),
        step_at(buf, decode_from(buf, pos).consumed) == Step::Stop(decode_from(buf, pos).stop),
    decreases buf.len() - pos,
{
    match step_at(buf, pos) {
        Step::Stop(_) => {},
        Step::Whole(_) => {
            lemma_stop_at_consumed(buf, pos + 2 + length_at(buf, pos));
        },
    }
}

/// A final stop stays: where decoding `head` stopped at a sentinel or at a
/// malformed length, decoding `head + tail` gives the same frames and stops
/// at the same place for the same reason, whatever `tail` is.
pub proof fn lemma_final_stop_stays(head: Seq<u8>, tail: Seq<u8>)
    requires
        decode_spec(head).stop.is_final(),
    ensures
        decode_spec(head + tail) == decode_spec(head),
{
    let first = decode_spec(head);
    let at = first.consumed;
    let buf = head + tail;
    lemma_stop_at_consumed(head, 0);
    lemma_decode_prefix(head, tail, 0);
    assert(length_at(buf, at) == length_at(head, at));
    if length_at(head, at) > 10 {
        assert(buf[at + 5] == head[at + 5]);
    }
    assert(step_at(buf, at) == Step::Stop(first.stop));
    assert(first.frames + Seq::<FrameView>::empty() =~= first.frames);
}

/// The result of decoding a buffer.
#[derive(Clone, Debug, PartialEq, Eq)]
pub struct Decoded {
    /// The whole frames, in the order in which they stand in the buffer.
    pub frames: Vec<Frame>,
    /// The number of bytes that the whole frames take.
    pub consumed: usize,
    /// Why decoding stopped after them.
    pub stop: StopReason,
}

impl View for Decoded {
    type V = Decoding;

    open spec fn view(&self) -> Decoding {
        Decoding {
            frames: self.frames@.map_values(|f: Frame| f@),
            consumed: self.consumed as int,
            stop: self.stop,
        }
    }
}

/// Reads the whole frames at the beginning of `buf`.
pub fn decode_frames(buf: &[u8]) -> (out: Decoded)
    ensures
        out@ == decode_spec(buf@),
        out.consumed <= buf@.len(),
{
    let mut frames: Vec<Frame> = Vec::new();
    let mut pos: usize = 0;
    let len: usize = buf.len();
    let mut stop = StopReason::Drained;
    let mut done = false;
    while !done
        invariant
            len == buf@.len(),
            0 <= pos <= len,
            decode_spec(buf@).frames == frames@.map_values(|f: Frame| f@) + decode_from(
                buf@,
                pos as int,
            ).frames,
            decode_spec(buf@).consumed == decode_from(buf@, pos as int).consumed,
            decode_spec(buf@).stop == decode_from(buf@, pos as int).stop,
            done ==> step_at(buf@, pos as int) == Step::Stop(stop),
        decreases len - pos + (if done { 0int } else { 1int }),
    {
        let rest: usize = len - pos;
        if rest == 0 {
            stop = StopReason::Drained;
            done = true;
        } else if rest < 2 {
            stop = StopReason::Incomplete;
            done = true;
        } else {
            let n: usize = buf[pos] as usize + 256 * (buf[pos + 1] as usize);
            if n == 0 {
                stop = StopReason::Sentinel;
                done = true;
            } else if n <= 10 {
                stop = StopReason::Malformed;
                done = true;
            } else if rest < 2 + n {
                stop = StopReason::Incomplete;
                done = true;
            } else if buf[pos + 5] == 1 {
                let address = FrameAddress::V4(
                    [buf[pos + 6], buf[pos + 7], buf[pos + 8], buf[pos + 9]],
                );
                let port: u16 = 256 * (buf[pos + 10] as u16) + buf[pos + 11] as u16;
                let payload = copy_range(buf, pos + 12, pos + 2 + n);
                let frame = Frame { address, port, payload };
                proof {
                    assert(address.octets() =~= buf@.subrange(pos + 6, pos + 10));
                    assert(step_at(buf@, pos as int) == Step::Whole(frame@));
                    let ghost before = frames@.map_values(|f: Frame| f@);
                    let ghost after = frames@.push(frame).map_values(|f: Frame| f@);
                    assert(after =~= before.push(frame@));
                    let ghost tail = decode_from(buf@, pos + 2 + n).frames;
                    assert(before + (seq![frame@] + tail) =~= after + tail);
                }
                frames.push(frame);
                pos = pos + 2 + n;
            } else if n <= 24 {
                stop = StopReason::Malformed;
                done = true;
            } else {
                let address = FrameAddress::V6(
                    [
                        buf[pos + 6],
                        buf[pos + 7],
                        buf[pos + 8],
                        buf[pos + 9],
                        buf[pos + 10],
                        buf[pos + 11],
                        buf[pos + 12],
                        buf[pos + 13],
                        buf[pos + 14],
                        buf[pos + 15],
                        buf[pos + 16],
                        buf[pos + 17],
                        buf[pos + 18],
                        buf[pos + 19],
                        buf[pos + 20],
                        buf[pos + 21],
                    ],
                );
                let port: u16 = 256 * (buf[pos + 22] as u16) + buf[pos + 23] as u16;
                let payload = copy_range(buf, pos + 24, pos + 2 + n);
                let frame = Frame { address, port, payload };
                proof {
                    assert(address.octets() =~= buf@.subrange(pos + 6, pos + 22));
                    assert(step_at(buf@, pos as int) == Step::Whole(frame@));
                    let ghost before = frames@.map_values(|f: Frame| f@);
                    let ghost after = frames@.push(frame).map_values(|f: Frame| f@);
                    assert(after =~= before.push(frame@));
                    let ghost tail = decode_from(buf@, pos + 2 + n).frames;
                    assert(before + (seq![frame@] + tail) =~= after + tail);
                }
                frames.push(frame);
                pos = pos + 2 + n;
            }
        }
    }
    proof {
        let ghost got = frames@.map_values(|f: Frame| f@);
        assert(got + Seq::<FrameView>::empty() =~= got);
    }
    Decoded { frames, consumed: pos, stop }
}

/// Whether the first buffer of a connection opens a datagram session: it
/// holds at least five bytes, and of the first five, deciphered from offset
/// 0, one of the last three is zero.
pub open spec fn opens_udp_session(first: Seq<u8>, key: Seq<u8>) -> bool {
    &&& first.len() >= 5
    &&& {
        let window = cipher_seq(first.take(5), key, 0);
        window[2] == 0 || window[3] == 0 || window[4] == 0
    }
}

/// Tests the first buffer of a connection on a deciphered copy of its first
/// five bytes, and leaves the buffer as it is.
pub fn udp_handshake_accepted(first: &[u8], secret: &str) -> (ok: bool)
    requires
        secret.spec_bytes().len() > 0,
    ensures
        ok == opens_udp_session(first@, secret.spec_bytes()),
{
    if first.len() < 5 {
        return false;
    }
    let mut window = copy_range(first, 0, 5);
    assert(window@ =~= first@.take(5));
    xor_cipher(window.as_mut_slice(), secret, 0);
    window[2] == 0 || window[3] == 0 || window[4] == 0
}

/// The client-to-destinations direction of a datagram session: the bytes
/// that were deciphered and not yet decoded, and the cipher offset of the
/// next bytes from the client.
#[derive(Debug)]
pub struct Uplink {
    pub pending: Vec<u8>,
    pub offset: usize,
}

impl Uplink {
    /// The state before the first byte.
    pub fn new() -> (up: Uplink)
        ensures
            up.pending@ == Seq::<u8>::empty(),
            up.offset == 0,
    {
        Uplink { pending: Vec::new(), offset: 0 }
    }

    /// Takes the next bytes from the client: deciphers them, puts them
    /// behind what was kept, decodes the whole frames and keeps the rest.
    /// The frames returned are to be sent on, in their order.
    pub fn absorb(&mut self, chunk: &[u8], secret: &str) -> (out: Decoded)
        requires
            secret.spec_bytes().len() > 0,
        ensures
            out@ == decode_spec(
                old(self).pending@ + cipher_seq(
                    chunk@,
                    secret.spec_bytes(),
                    old(self).offset as int,
                ),
            ),
            final(self).pending@ == (old(self).pending@ + cipher_seq(
                chunk@,
                secret.spec_bytes(),
                old(self).offset as int,
            )).skip(out.consumed as int),
            final(self).offset as int == next_offset(
                chunk@.len() as int,
                secret.spec_bytes().len() as int,
                old(self).offset as int,
            ),
            decode_spec(final(self).pending@).frames == Seq::<FrameView>::empty(),
    {
        let mut plain = copy_range(chunk, 0, chunk.len());
        assert(plain@ =~= chunk@);
        self.offset = xor_cipher(plain.as_mut_slice(), secret, self.offset);
        self.pending.extend_from_slice(plain.as_slice());
        assert(self.pending@ =~= old(self).pending@ + plain@);
        let out = decode_frames(self.pending.as_slice());
        let rest = copy_range(self.pending.as_slice(), out.consumed, self.pending.len());
        assert(rest@ =~= self.pending@.skip(out.consumed as int));
        proof {
            lemma_stop_at_consumed(self.pending@, 0);
            lemma_step_shift(self.pending@, out.consumed as int, 0);
        }
        self.pending = rest;
        out
    }
}

/// The frames that an uplink hands on while it absorbs `chunks` one after
/// the other, begun with `pending` kept and the cipher at `offset`.
pub open spec fn frames_absorbed(
    pending: Seq<u8>,
    offset: int,
    chunks: Seq<Seq<u8>>,
    key: Seq<u8>,
) -> Seq<FrameView>
    decreases chunks.len(),
{
    if chunks.len() == 0 {
        Seq::empty()
    } else {
        let plain = pending + cipher_seq(chunks.first(), key, offset);
        let decoded = decode_spec(plain);
        decoded.frames + frames_absorbed(
            plain.skip(decoded.consumed),
            next_offset(chunks.first().len() as int, key.len() as int, offset),
            chunks.drop_first(),
            key,
        )
    }
}

/// The uplink does not depend on how the stream arrives: begun with bytes
/// kept that hold no whole frame, and however the client's bytes are cut
/// into reads, the frames handed on are, in their order, the frames of what
/// was kept with the whole deciphered stream behind it.
pub proof fn lemma_uplink_chunk_invariance(
    pending: Seq<u8>,
    offset: int,
    chunks: Seq<Seq<u8>>,
    key: Seq<u8>,
)
    requires
        key.len() > 0,
        0 <= offset,
        decode_spec(pending).frames == Seq::<FrameView>::empty(),
    ensures
        frames_absorbed(pending, offset, chunks, key) == decode_spec(
            pending + cipher_seq(chunks.flatten(), key, offset),
        ).frames,
    decreases chunks.len(),
{
    if chunks.len() == 0 {
        assert(pending + cipher_seq(chunks.flatten(), key, offset) =~= pending);
    } else {
        let first = chunks.first();
        let rest = chunks.drop_first().flatten();
        let next = next_offset(first.len() as int, key.len() as int, offset);
        let plain = pending + cipher_seq(first, key, offset);
        let tail = cipher_seq(rest, key, next);
        let at = decode_spec(plain).consumed;
        let kept = plain.skip(at);
        crate::cipher::lemma_next_offset_congruent(first.len() as int, key.len() as int, offset);
        lemma_stop_at_consumed(plain, 0);
        lemma_step_shift(plain, at, 0);
        assert(step_at(kept, 0) is Stop);
        lemma_uplink_chunk_invariance(kept, next, chunks.drop_first(), key);
        lemma_decode_resumes(plain, tail);
        lemma_cipher_concat(first, rest, key, offset);
        assert(plain + tail =~= pending + cipher_seq(first + rest, key, offset));
    }
}

/// Opens a datagram session on the first buffer of a connection: `None`
/// where the buffer is not accepted, else the uplink after the whole buffer
/// was deciphered from offset 0, with the frames it held.
pub fn open_udp_session(first: &[u8], secret: &str) -> (out: Option<(Uplink, Decoded)>)
    requires
        secret.spec_bytes().len() > 0,
    ensures
        out is Some <==> opens_udp_session(first@, secret.spec_bytes()),
        out matches Some((up, decoded)) ==> {
            let plain = cipher_seq(first@, secret.spec_bytes(), 0);
            &&& decoded@ == decode_spec(plain)
            &&& up.pending@ == plain.skip(decoded.consumed as int)
            &&& up.offset as int == next_offset(
                first@.len() as int,
                secret.spec_bytes().len() as int,
                0,
            )
        },
{
    if !udp_handshake_accepted(first, secret) {
        return None;
    }
    let mut up = Uplink::new();
    let decoded = up.absorb(first, secret);
    assert(Seq::<u8>::empty() + cipher_seq(first@, secret.spec_bytes(), 0) =~= cipher_seq(
        first@,
        secret.spec_bytes(),
        0,
    ));
    Some((up, decoded))
}

/// The destinations-to-client direction of a datagram session: the cipher
/// offset of the next bytes to the client.
#[derive(Debug)]
pub struct Downlink {
    pub offset: usize,
}

impl Downlink {
    /// The state before the first byte.
    pub fn new() -> (down: Downlink)
        ensures
            down.offset == 0,
    {
        Downlink { offset: 0 }
    }

    /// Wraps one datagram that came from `address` and `port` for the
    /// client: the frame's wire form, ciphered as the next bytes of the
    /// stream.
    pub fn wrap(&mut self, address: &FrameAddress, port: u16, payload: &[u8], secret: &str) -> (out:
        Vec<u8>)
        requires
            secret.spec_bytes().len() > 0,
            payload@.len() <= max_payload(address.family()),
        ensures
            out@ == cipher_seq(
                frame_of(*address, port, payload@).wire(),
                secret.spec_bytes(),
                old(self).offset as int,
            ),
            final(self).offset as int == next_offset(
                frame_of(*address, port, payload@).wire().len() as int,
                secret.spec_bytes().len() as int,
                old(self).offset as int,
            ),
    {
        let mut out = encode_frame(address, port, payload);
        self.offset = xor_cipher(out.as_mut_slice(), secret, self.offset);
        out
    }
}

} // verus!
