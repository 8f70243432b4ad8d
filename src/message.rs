use vstd::prelude::*;

use crate::frame::{opcode_of, Opcode};

verus! {

/// One reassembled logical message: its payload bytes only.
pub struct Message {
    pub data: Vec<u8>,
}

/// `256` to the power `k`.
pub open spec fn pow256(k: nat) -> nat
    decreases k,
{
    if k == 0 {
        1
    } else {
        256 * pow256((k - 1) as nat)
    }
}

/// The unsigned integer that bytes give in network (big-endian) order.
pub open spec fn be_value(s: Seq<u8>) -> nat
    decreases s.len(),
{
    if s.len() == 0 {
        0
    } else {
        be_value(s.drop_last()) * 256 + s.last() as nat
    }
}

/// The last `k` bytes of `n` in network (big-endian) order.
pub open spec fn be_bytes(n: nat, k: nat) -> Seq<u8>
    decreases k,
{
    if k == 0 {
        Seq::empty()
    } else {
        be_bytes(n / 256, (k - 1) as nat).push((n % 256) as u8)
    }
}

/// Whether the frame header at `p` has its fin bit set.
pub open spec fn fin_at(s: Seq<u8>, p: int) -> bool {
    s[p] >= 128
}

/// The opcode nibble of the frame header at `p`.
pub open spec fn nibble_at(s: Seq<u8>, p: int) -> u8 {
    s[p] % 16
}

/// Whether the frame at `p` carries a masking key.
pub open spec fn masked_at(s: Seq<u8>, p: int) -> bool {
    s[p + 1] >= 128
}

/// The seven-bit length field of the frame header at `p`.
pub open spec fn len_code_at(s: Seq<u8>, p: int) -> u8 {
    s[p + 1] % 128
}

/// How many extended length bytes follow a length field of `code`.
pub open spec fn ext_size(code: u8) -> int {
    if code == 126 {
        2
    } else if code == 127 {
        8
    } else {
        0
    }
}

/// Where the masking key (if any) of the frame at `p` starts.
pub open spec fn key_start(s: Seq<u8>, p: int) -> int {
    p + 2 + ext_size(len_code_at(s, p))
}

/// Where the payload of the frame at `p` starts.
pub open spec fn payload_start(s: Seq<u8>, p: int) -> int {
    key_start(s, p) + if masked_at(s, p) {
        4int
    } else {
        0int
    }
}

/// The payload length that the header of the frame at `p` declares.
pub open spec fn payload_len_at(s: Seq<u8>, p: int) -> nat {
    let code = len_code_at(s, p);
    if code == 126 || code == 127 {
        be_value(s.subrange(p + 2, key_start(s, p)))
    } else {
        code as nat
    }
}

/// Where the frame at `p` ends.
pub open spec fn frame_end(s: Seq<u8>, p: int) -> int {
    payload_start(s, p) + payload_len_at(s, p)
}

/// Payload bytes XORed with a four-byte key that cycles from index zero.
pub open spec fn unmask(wire: Seq<u8>, key: Seq<u8>) -> Seq<u8> {
    Seq::new(wire.len(), |i: int| wire[i] ^ key[i % 4])
}

/// The unmasked payload of the frame at `p`.
pub open spec fn payload_at(s: Seq<u8>, p: int) -> Seq<u8> {
    let wire = s.subrange(payload_start(s, p), frame_end(s, p));
    if masked_at(s, p) {
        unmask(wire, s.subrange(key_start(s, p), key_start(s, p) + 4))
    } else {
        wire
    }
}

/// The seven-bit length field that a payload of `n` bytes is sent with.
pub open spec fn len_byte(n: nat) -> u8 {
    if n <= 125 {
        n as u8
    } else if n <= 65535 {
        126
    } else {
        127
    }
}

/// The extended length bytes that follow that field: none, two or eight.
pub open spec fn ext_bytes(n: nat) -> Seq<u8> {
    if n <= 125 {
        Seq::empty()
    } else if n <= 65535 {
        be_bytes(n, 2)
    } else {
        be_bytes(n, 8)
    }
}

/// One frame on the wire: fin bit and opcode nibble `code`, the minimal
/// length encoding of `wire`, the masking key if there is one, then `wire`
/// as it is sent (already masked where a key is given).
pub open spec fn frame(fin: bool, code: u8, key: Option<Seq<u8>>, wire: Seq<u8>) -> Seq<u8> {
    let b0 = (if fin {
        128 + code
    } else {
        code as int
    }) as u8;
    let b1 = (if key is Some {
        128 + len_byte(wire.len())
    } else {
        len_byte(wire.len()) as int
    }) as u8;
    let key_bytes = match key {
        Some(k) => k,
        None => Seq::empty(),
    };
    seq![b0, b1] + ext_bytes(wire.len()) + key_bytes + wire
}

/// The frame that the server sends for a message: one final, unmasked
/// BINARY frame.
pub open spec fn frame_bytes(data: Seq<u8>) -> Seq<u8> {
    frame(true, 0x2, None, data)
}

/// The opcode nibble `code` names an opcode other than CLOSE.
pub open spec fn is_data_code(code: u8) -> bool {
    opcode_of(code) is Some && code != 0x8
}

/// The frames of a message sent in pieces: the first carries `code`, the
/// rest CONTINUE, and only the last has its fin bit set.
pub open spec fn fragments(code: u8, parts: Seq<Seq<u8>>) -> Seq<u8>
    decreases parts.len(),
{
    if parts.len() == 0 {
        Seq::empty()
    } else if parts.len() == 1 {
        frame(true, code, None, parts[0])
    } else {
        frame(false, code, None, parts[0]) + fragments(0x0, parts.drop_first())
    }
}

/// What decoding a byte stream from some position gives.
pub enum Decoded {
    /// The stream must hold at least this many bytes before decoding can go on.
    Need(nat),
    /// A whole message, and the position just after its last frame.
    Complete(Seq<u8>, nat),
    /// A final close frame, and the position just after it.
    Closed(nat),
    /// A frame header names no opcode.
    BadOpcode,
}

/// Decodes the next message from position `p`, with `acc` the payload of the
/// fragments already read. Frames are read up to one with its fin bit set; a
/// final close frame ends the stream with no message.
pub open spec fn decode_from(s: Seq<u8>, p: nat, acc: Seq<u8>) -> Decoded
    decreases s.len() - p,
{
    if s.len() < p + 2 {
        Decoded::Need(p + 2)
    } else if opcode_of(nibble_at(s, p as int)) is None {
        Decoded::BadOpcode
    } else if s.len() < payload_start(s, p as int) {
        Decoded::Need(payload_start(s, p as int) as nat)
    } else if s.len() < frame_end(s, p as int) {
        Decoded::Need(frame_end(s, p as int) as nat)
    } else {
        let next = acc + payload_at(s, p as int);
        let end = frame_end(s, p as int) as nat;
        if fin_at(s, p as int) {
            if nibble_at(s, p as int) == 8 {
                Decoded::Closed(end)
            } else {
                Decoded::Complete(next, end)
            }
        } else {
            decode_from(s, end, next)
        }
    }
}

/// The next message at the start of a byte stream.
pub open spec fn decode(s: Seq<u8>) -> Decoded {
    decode_from(s, 0, Seq::empty())
}

/// The outcome of `Message::read` on the bytes received so far.
pub enum FrameRead {
    /// Not enough bytes yet: the buffer must grow to this length.
    Need(usize),
    /// A message, and how many bytes of the buffer its frames took.
    Complete(Message, usize),
    /// The peer sent a final close frame, which ends at this position.
    Closed(usize),
    /// A frame header holds an opcode nibble that names no opcode.
    BadOpcode,
    /// A frame declares a length that no buffer of this machine can hold.
    TooLong,
}

impl FrameRead {
    /// This outcome is what decoding gives, with a need beyond `usize`
    /// reported as `TooLong`.
    pub open spec fn agrees(self, d: Decoded) -> bool {
        match d {
            Decoded::Need(n) => if n <= usize::MAX {
                self == FrameRead::Need(n as usize)
            } else {
                self is TooLong
            },
            Decoded::Complete(m, e) => self matches FrameRead::Complete(msg, end) && msg.data@ == m
                && end == e,
            Decoded::Closed(e) => self == FrameRead::Closed(e as usize) && e <= usize::MAX,
            Decoded::BadOpcode => self is BadOpcode,
        }
    }
}

proof fn lemma_be_value_step(s: Seq<u8>, start: int, i: int)
    requires
        0 <= start <= i < s.len(),
    ensures
        be_value(s.subrange(start, i + 1)) == be_value(s.subrange(start, i)) * 256 + s[i] as nat,
{
    assert(s.subrange(start, i + 1).drop_last() =~= s.subrange(start, i));
}

proof fn lemma_pow256_mono(a: nat, b: nat)
    requires
        a <= b,
    ensures
        pow256(a) <= pow256(b),
    decreases b,
{
    if a < b {
        lemma_pow256_mono(a, (b - 1) as nat);
    }
}

proof fn lemma_be_round_trip(n: nat, k: nat)
    requires
        n < pow256(k),
    ensures
        be_bytes(n, k).len() == k,
        be_value(be_bytes(n, k)) == n,
    decreases k,
{
    if k > 0 {
        assert(n / 256 < pow256((k - 1) as nat));
        lemma_be_round_trip(n / 256, (k - 1) as nat);
        assert(be_bytes(n, k).drop_last() =~= be_bytes(n / 256, (k - 1) as nat));
    }
}

proof fn lemma_usize_below_pow256_8()
    ensures
        usize::MAX < pow256(8),
{
    reveal_with_fuel(pow256, 9);
}

/// The header fields of a frame built by `frame`, read back at its position.
proof fn lemma_frame_fields(
    pre: Seq<u8>,
    fin: bool,
    code: u8,
    key: Option<Seq<u8>>,
    wire: Seq<u8>,
    rest: Seq<u8>,
)
    requires
        code < 16,
        key matches Some(k) ==> k.len() == 4,
        wire.len() < pow256(8),
    ensures
        ({
            let f = frame(fin, code, key, wire);
            let s = pre + f + rest;
            let p = pre.len() as int;
            &&& s.len() >= p + 2
            &&& fin_at(s, p) == fin
            &&& nibble_at(s, p) == code
            &&& payload_start(s, p) <= frame_end(s, p)
            &&& frame_end(s, p) == p + f.len()
            &&& payload_at(s, p) == match key {
                Some(k) => unmask(wire, k),
                None => wire,
            }
        }),
{
    let f = frame(fin, code, key, wire);
    let s = pre + f + rest;
    let p = pre.len() as int;
    let n = wire.len();
    let ext = ext_bytes(n);
    let kb = match key {
        Some(k) => k,
        None => Seq::<u8>::empty(),
    };
    reveal_with_fuel(pow256, 3);
    if n <= 125 {
    } else if n <= 65535 {
        lemma_be_round_trip(n, 2);
    } else {
        lemma_be_round_trip(n, 8);
    }
    assert(ext.len() == ext_size(len_byte(n)));
    assert(s.subrange(p, p + f.len()) =~= f);
    assert(s[p] == f[0]);
    assert(s[p + 1] == f[1]);
    assert(len_code_at(s, p) == len_byte(n));
    assert(masked_at(s, p) == key is Some);
    assert(s.subrange(p + 2, key_start(s, p)) =~= ext);
    assert(payload_len_at(s, p) == n);
    assert(payload_start(s, p) == p + 2 + ext.len() + kb.len());
    assert(s.subrange(payload_start(s, p), frame_end(s, p)) =~= wire);
    if let Some(k) = key {
        assert(s.subrange(key_start(s, p), key_start(s, p) + 4) =~= k);
    }
}

/// Decoding at a frame built by `frame`: a final frame ends the message (or
/// the stream, for CLOSE); any other adds its unmasked payload and goes on.
proof fn lemma_decode_frame(
    pre: Seq<u8>,
    fin: bool,
    code: u8,
    key: Option<Seq<u8>>,
    wire: Seq<u8>,
    rest: Seq<u8>,
    acc: Seq<u8>,
)
    requires
        opcode_of(code) is Some,
        key matches Some(k) ==> k.len() == 4,
        wire.len() < pow256(8),
    ensures
        ({
            let f = frame(fin, code, key, wire);
            let s = pre + f + rest;
            let payload = match key {
                Some(k) => unmask(wire, k),
                None => wire,
            };
            let end = pre.len() + f.len();
            decode_from(s, pre.len(), acc) == if !fin {
                decode_from(s, end, acc + payload)
            } else if code == 0x8 {
                Decoded::Closed(end)
            } else {
                Decoded::Complete(acc + payload, end)
            }
        }),
{
    lemma_frame_fields(pre, fin, code, key, wire, rest);
}

/// A message that the server writes decodes back to its own bytes.
pub proof fn lemma_round_trip(data: Seq<u8>)
    requires
        data.len() <= usize::MAX,
    ensures
        decode(frame_bytes(data)) == Decoded::Complete(data, frame_bytes(data).len()),
{
    lemma_usize_below_pow256_8();
    let empty = Seq::<u8>::empty();
    lemma_decode_frame(empty, true, 0x2, None, data, empty, empty);
    assert(empty + frame_bytes(data) + empty =~= frame_bytes(data));
    assert(empty + data =~= data);
}

/// A final masked data frame decodes to its payload XORed with the key,
/// the key cycling every four bytes from the first payload byte.
pub proof fn lemma_masked_frame(code: u8, key: Seq<u8>, wire: Seq<u8>)
    requires
        is_data_code(code),
        key.len() == 4,
        wire.len() <= usize::MAX,
    ensures
        decode(frame(true, code, Some(key), wire)) == Decoded::Complete(
            Seq::new(wire.len(), |i: int| wire[i] ^ key[i % 4]),
            frame(true, code, Some(key), wire).len(),
        ),
{
    lemma_usize_below_pow256_8();
    let empty = Seq::<u8>::empty();
    let f = frame(true, code, Some(key), wire);
    lemma_decode_frame(empty, true, code, Some(key), wire, empty, empty);
    assert(empty + f + empty =~= f);
    assert(empty + unmask(wire, key) =~= Seq::new(wire.len(), |i: int| wire[i] ^ key[i % 4]));
}

/// A final CLOSE frame, masked or not and whatever its payload, ends the
/// stream with no message and no error.
pub proof fn lemma_close_frame(key: Option<Seq<u8>>, wire: Seq<u8>, rest: Seq<u8>)
    requires
        key matches Some(k) ==> k.len() == 4,
        wire.len() <= usize::MAX,
    ensures
        decode(frame(true, 0x8, key, wire) + rest) == Decoded::Closed(
            frame(true, 0x8, key, wire).len(),
        ),
{
    lemma_usize_below_pow256_8();
    let empty = Seq::<u8>::empty();
    let f = frame(true, 0x8, key, wire);
    lemma_decode_frame(empty, true, 0x8, key, wire, rest, empty);
    assert(empty + f + rest =~= f + rest);
}

proof fn lemma_fragments_from(pre: Seq<u8>, code: u8, parts: Seq<Seq<u8>>, acc: Seq<u8>)
    requires
        is_data_code(code),
        parts.len() >= 1,
        forall|i: int| 0 <= i < parts.len() ==> (#[trigger] parts[i]).len() <= usize::MAX,
    ensures
        decode_from(pre + fragments(code, parts), pre.len(), acc) == Decoded::Complete(
            acc + parts.flatten(),
            pre.len() + fragments(code, parts).len(),
        ),
    decreases parts.len(),
{
    lemma_usize_below_pow256_8();
    let empty = Seq::<u8>::empty();
    if parts.len() == 1 {
        lemma_decode_frame(pre, true, code, None, parts[0], empty, acc);
        assert(pre + fragments(code, parts) + empty =~= pre + fragments(code, parts));
        assert(parts.drop_first() =~= Seq::<Seq<u8>>::empty());
        assert(parts.flatten() =~= parts[0] + Seq::<Seq<u8>>::empty().flatten());
        assert(parts[0] + Seq::<u8>::empty() =~= parts[0]);
        assert(acc + parts.flatten() =~= acc + parts[0]);
    } else {
        let f = frame(false, code, None, parts[0]);
        let tail = parts.drop_first();
        let rest = fragments(0x0, tail);
        lemma_decode_frame(pre, false, code, None, parts[0], rest, acc);
        assert(pre + fragments(code, parts) =~= pre + f + rest);
        assert(pre + f + rest =~= (pre + f) + rest);
        assert(forall|i: int| 0 <= i < tail.len() ==> #[trigger] tail[i] == parts[i + 1]);
        lemma_fragments_from(pre + f, 0x0, tail, acc + parts[0]);
        assert(acc + parts[0] + tail.flatten() =~= acc + (parts[0] + tail.flatten()));
    }
}

/// A message sent in two or more frames (the first with its opcode, the
/// others CONTINUE, only the last final) decodes to the pieces joined in order.
pub proof fn lemma_fragments_join(code: u8, parts: Seq<Seq<u8>>)
    requires
        is_data_code(code),
        parts.len() >= 2,
        forall|i: int| 0 <= i < parts.len() ==> (#[trigger] parts[i]).len() <= usize::MAX,
    ensures
        decode(fragments(code, parts)) == Decoded::Complete(
            parts.flatten(),
            fragments(code, parts).len(),
        ),
{
    let empty = Seq::<u8>::empty();
    lemma_fragments_from(empty, code, parts, empty);
    assert(empty + fragments(code, parts) =~= fragments(code, parts));
    assert(empty + parts.flatten() =~= parts.flatten());
}

/// Appends `k` bytes of `v` in network order.
fn push_be(out: &mut Vec<u8>, v: u64, k: usize)
    requires
        k <= 8,
    ensures
        final(out)@ == old(out)@ + be_bytes(v as nat, k as nat),
    decreases k,
{
    if k > 0 {
        push_be(out, v / 256, k - 1);
        out.push((v % 256) as u8);
    } else {
        assert(old(out)@ + Seq::<u8>::empty() =~= old(out)@);
    }
}

/// Reads `k` bytes at `start` as a big-endian integer.
fn read_be(buf: &[u8], start: usize, k: usize) -> (r: u64)
    requires
        k <= 8,
        start + k <= buf@.len(),
    ensures
        r as nat == be_value(buf@.subrange(start as int, start + k)),
{
    let total: usize = buf.len();
    let end: usize = start + k;
    let mut v: u64 = 0;
    let mut i: usize = start;
    assert(buf@.subrange(start as int, start as int) =~= Seq::<u8>::empty());
    proof {
        reveal_with_fuel(pow256, 9);
    }
    assert(pow256(8) == 0x1_0000_0000_0000_0000);
    while i < end
        invariant
            end == start + k,
            start <= i <= start + k,
            start + k <= buf@.len(),
            k <= 8,
            v as nat == be_value(buf@.subrange(start as int, i as int)),
            v < pow256((i - start) as nat),
            pow256(8) == 0x1_0000_0000_0000_0000,
        decreases end - i,
    {
        proof {
            lemma_be_value_step(buf@, start as int, i as int);
            lemma_pow256_mono((i - start + 1) as nat, 8);
            assert(pow256((i - start + 1) as nat) == 256 * pow256((i - start) as nat));
        }
        v = v * 256 + buf[i] as u64;
        i = i + 1;
    }
    v
}

/// `Need(base + extra)`, or `TooLong` where that sum passes `usize::MAX`.
fn need(base: usize, extra: u64) -> (r: FrameRead)
    ensures
        r.agrees(Decoded::Need((base + extra) as nat)),
{
    let room: usize = usize::MAX - base;
    if (room as u64) >= extra {
        FrameRead::Need(base + extra as usize)
    } else {
        FrameRead::TooLong
    }
}

impl Message {
    pub fn new(data: Vec<u8>) -> (r: Self)
        ensures
            r.data@ == data@,
    {
        Message { data }
    }

    /// Appends this message to `out` as one final, unmasked BINARY frame
    /// with the shortest length encoding.
    pub fn write(&self, out: &mut Vec<u8>)
        ensures
            final(out)@ == old(out)@ + frame_bytes(self.data@),
    {
        let n: usize = self.data.len();
        let ghost o = old(out)@;
        let ghost b1: u8 = len_byte(n as nat);
        out.push(0x82);
        if n > 65535 {
            out.push(127);
            push_be(out, n as u64, 8);
        } else if n > 125 {
            out.push(126);
            push_be(out, n as u64, 2);
        } else {
            out.push(n as u8);
        }
        assert(out@ =~= o + (seq![0x82u8, b1] + ext_bytes(n as nat)));
        let ghost mid = out@;
        let mut i: usize = 0;
        while i < n
            invariant
                i <= n,
                n == self.data@.len(),
                out@ == mid + self.data@.take(i as int),
            decreases n - i,
        {
            out.push(self.data[i]);
            assert(mid + self.data@.take(i + 1) =~= (mid + self.data@.take(i as int)).push(self.data@[i as int]));
            i = i + 1;
        }
        assert(self.data@.take(n as int) =~= self.data@);
        assert(frame_bytes(self.data@) =~= seq![0x82u8, b1] + ext_bytes(n as nat) + Seq::<u8>::empty() + self.data@);
        assert(out@ =~= o + frame_bytes(self.data@));
    }

    /// Decodes the next message at the start of `buf`, the bytes received so
    /// far: fragments are joined, masked payloads unmasked, and a final close
    /// frame gives `Closed`. Where `buf` holds too few bytes, says how many it
    /// must hold before a call can go further.
    pub fn read(buf: &[u8]) -> (r: FrameRead)
        ensures
            r.agrees(decode(buf@)),
            r matches FrameRead::Complete(_, e) ==> e <= buf@.len(),
            r matches FrameRead::Closed(e) ==> e <= buf@.len(),
    {
        let _total: usize = buf.len();
        let mut acc: Vec<u8> = Vec::new();
        let mut p: usize = 0;
        loop
            invariant
                p <= buf@.len(),
                buf@.len() <= usize::MAX,
                decode(buf@) == decode_from(buf@, p as nat, acc@),
            decreases buf@.len() - p,
        {
            let ghost s = buf@;
            if buf.len() - p < 2 {
                return need(p, 2);
            }
            let b0: u8 = buf[p];
            let b1: u8 = buf[p + 1];
            let header: [u8; 2] = [b0, b1];
            let op = Opcode::parse(&header);
            if op.is_none() {
                return FrameRead::BadOpcode;
            }
            let fin = b0 >= 128;
            let masked = b1 >= 128;
            let code: u8 = b1 % 128;
            let ext: usize = if code == 126 {
                2
            } else if code == 127 {
                8
            } else {
                0
            };
            let head: usize = if masked {
                2 + ext + 4
            } else {
                2 + ext
            };
            assert(p + head == payload_start(s, p as int));
            if buf.len() - p < head {
                return need(p, head as u64);
            }
            let len: u64 = if ext == 0 {
                code as u64
            } else {
                read_be(buf, p + 2, ext)
            };
            assert(len == payload_len_at(s, p as int));
            let start: usize = p + head;
            if ((buf.len() - start) as u64) < len {
                return need(start, len);
            }
            let n: usize = len as usize;
            let key_at: usize = p + 2 + ext;
            let ghost acc0 = acc@;
            let ghost pl = payload_at(s, p as int);
            let mut i: usize = 0;
            while i < n
                invariant
                    i <= n,
                    start + n <= buf@.len(),
                    buf@.len() <= usize::MAX,
                    key_at + 4 <= start || !masked,
                    masked == masked_at(s, p as int),
                    start == payload_start(s, p as int),
                    key_at == key_start(s, p as int),
                    start + n == frame_end(s, p as int),
                    s == buf@,
                    pl == payload_at(s, p as int),
                    acc@ == acc0 + pl.take(i as int),
                decreases n - i,
            {
                let b: u8 = if masked {
                    buf[start + i] ^ buf[key_at + i % 4]
                } else {
                    buf[start + i]
                };
                assert(b == pl[i as int]);
                acc.push(b);
                assert(acc0 + pl.take(i + 1) =~= (acc0 + pl.take(i as int)).push(pl[i as int]));
                i = i + 1;
            }
            assert(pl.take(n as int) =~= pl);
            p = start + n;
            if fin {
                if header[0] % 16 == 8 {
                    return FrameRead::Closed(p);
                }
                return FrameRead::Complete(Message { data: acc }, p);
            }
        }
    }
}

} // verus!
