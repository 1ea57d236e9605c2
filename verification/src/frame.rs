//! RFC 6455 frame codec: byte-level decoding and encoding of WebSocket
//! frames.  Stateless with respect to the connection; the decoder reads from a
//! byte buffer at a cursor, the encoder appends to an output buffer.

use vstd::prelude::*;
use crate::MAX_PAYLOAD_LEN;

verus! {

/// The frame opcodes of RFC 6455 that the proxy accepts.
#[derive(Clone, Copy, PartialEq, Eq, Structural, Debug)]
pub enum Opcode {
    Continuation,
    Text,
    Binary,
    Close,
    Ping,
    Pong,
}

impl Opcode {
    /// The opcode's number on the wire.
    pub open spec fn spec_num(self) -> u8 {
        match self {
            Opcode::Continuation => 0,
            Opcode::Text => 1,
            Opcode::Binary => 2,
            Opcode::Close => 8,
            Opcode::Ping => 9,
            Opcode::Pong => 10,
        }
    }

    pub fn num(self) -> (r: u8)
        ensures
            r == self.spec_num(),
    {
        match self {
            Opcode::Continuation => 0,
            Opcode::Text => 1,
            Opcode::Binary => 2,
            Opcode::Close => 8,
            Opcode::Ping => 9,
            Opcode::Pong => 10,
        }
    }

    /// The opcode, if any, carried by a wire opcode number.  Numbers 3..=7 and
    /// 11..=15 are reserved and carry none.
    pub open spec fn spec_of_num(n: u8) -> Option<Opcode> {
        if n == 0 {
            Some(Opcode::Continuation)
        } else if n == 1 {
            Some(Opcode::Text)
        } else if n == 2 {
            Some(Opcode::Binary)
        } else if n == 8 {
            Some(Opcode::Close)
        } else if n == 9 {
            Some(Opcode::Ping)
        } else if n == 10 {
            Some(Opcode::Pong)
        } else {
            None
        }
    }

    pub fn of_num(n: u8) -> (r: Option<Opcode>)
        ensures
            r == Self::spec_of_num(n),
    {
        if n == 0 {
            Some(Opcode::Continuation)
        } else if n == 1 {
            Some(Opcode::Text)
        } else if n == 2 {
            Some(Opcode::Binary)
        } else if n == 8 {
            Some(Opcode::Close)
        } else if n == 9 {
            Some(Opcode::Ping)
        } else if n == 10 {
            Some(Opcode::Pong)
        } else {
            None
        }
    }

    /// Close, Ping and Pong are control frames (wire number >= 8).
    pub open spec fn spec_is_control(self) -> bool {
        self.spec_num() >= 8
    }

    pub fn is_control(self) -> (r: bool)
        ensures
            r == self.spec_is_control(),
    {
        match self {
            Opcode::Close | Opcode::Ping | Opcode::Pong => true,
            _ => false,
        }
    }

    /// Continuation, Text and Binary frames carry application bytes.
    pub open spec fn spec_is_data(self) -> bool {
        !self.spec_is_control()
    }
}

/// A decoded frame.  The payload is stored unmasked; whether the wire bytes
/// were masked is reported by the decoder, not kept here.
pub struct Frame {
    pub fin: bool,
    pub opcode: Opcode,
    pub payload: Vec<u8>,
}

/// Why the decoder rejected the bytes in front of it.
#[derive(Clone, Copy, PartialEq, Eq, Structural, Debug)]
pub enum FrameError {
    /// A reserved bit (RSV1..RSV3) was set.
    ReservedBits,
    /// The opcode number is reserved (3..=7 or 11..=15).
    ReservedOpcode,
    /// A control frame was fragmented or its payload exceeds 125 bytes.
    BadControlFrame,
    /// The mask bit does not match the direction (client frames must be
    /// masked, server frames must not be).
    BadMask,
    /// The most significant bit of a 64-bit length was set.
    BadLength,
    /// The payload exceeds the 16 MiB cap.
    Oversize,
}

/// What the decoder found at the cursor, at the specification level.
pub ghost enum SpecDecoded {
    /// A complete frame occupying `size` bytes on the wire.
    Frame { fin: bool, op: Opcode, masked: bool, payload: Seq<u8>, size: nat },
    /// At least `need` further bytes must arrive before a decision.
    NeedMore { need: nat },
    /// The bytes can never begin a frame this direction accepts.
    Invalid { err: FrameError },
}

/// Big-endian value of a byte string.
pub open spec fn spec_be_val(b: Seq<u8>) -> nat
    decreases b.len(),
{
    if b.len() == 0 {
        0
    } else {
        spec_be_val(b.drop_last()) * 256 + b.last() as nat
    }
}

/// 256^n, the number of byte strings of length n.
pub open spec fn pow256(n: nat) -> nat
    decreases n,
{
    if n == 0 {
        1
    } else {
        256 * pow256((n - 1) as nat)
    }
}

pub proof fn lemma_be_val_bound(b: Seq<u8>)
    ensures
        spec_be_val(b) < pow256(b.len()),
    decreases b.len(),
{
    if b.len() > 0 {
        lemma_be_val_bound(b.drop_last());
    }
}

/// Splitting a byte string splits its big-endian value: the high part is
/// scaled by 256 to the length of the low part.
pub proof fn lemma_be_val_split(s: Seq<u8>, i: int)
    requires
        0 <= i <= s.len(),
    ensures
        spec_be_val(s) == spec_be_val(s.take(i)) * pow256((s.len() - i) as nat) + spec_be_val(
            s.skip(i),
        ),
    decreases s.len(),
{
    if i == s.len() {
        assert(s.take(i) =~= s);
        assert(s.skip(i) =~= Seq::<u8>::empty());
        assert(pow256(0) == 1);
        assert(spec_be_val(s.skip(i)) == 0);
        assert(spec_be_val(s.take(i)) * 1 == spec_be_val(s.take(i)));
    } else {
        let dl = s.drop_last();
        lemma_be_val_split(dl, i);
        assert(dl.take(i) =~= s.take(i));
        assert(dl.skip(i) =~= s.skip(i).drop_last());
        assert(s.skip(i).last() == s.last());
        let a = spec_be_val(s.take(i));
        let p = pow256((s.len() - 1 - i) as nat);
        let q = pow256((s.len() - i) as nat);
        let b = spec_be_val(s.skip(i).drop_last());
        let l = s.last();
        assert(spec_be_val(s) == (a * p + b) * 256 + l);
        assert(s.skip(i).len() > 0);
        assert(s.skip(i).last() == l);
        assert(spec_be_val(s.skip(i)) == b * 256 + l);
        assert(q == 256 * p);
        assert((a * p + b) * 256 + l == a * q + (b * 256 + l)) by (nonlinear_arith)
            requires
                q == 256 * p,
        ;
    }
}

/// A byte string of big-endian value zero is all zero bytes.
pub proof fn lemma_be_val_zero(s: Seq<u8>)
    requires
        spec_be_val(s) == 0,
    ensures
        forall|i: int| 0 <= i < s.len() ==> s[i] == 0,
    decreases s.len(),
{
    if s.len() > 0 {
        lemma_be_val_zero(s.drop_last());
        assert(forall|i: int| 0 <= i < s.len() - 1 ==> s[i] == s.drop_last()[i]);
    }
}

/// Payload bytes after removal of the client mask: byte i is XORed with
/// key byte i mod 4.
pub open spec fn spec_unmask(raw: Seq<u8>, key: Seq<u8>) -> Seq<u8>
    recommends
        key.len() == 4,
{
    Seq::new(raw.len(), |i: int| raw[i] ^ key[i % 4])
}

/// Number of extended-length bytes announced by the 7-bit length field.
pub open spec fn spec_ext_count(l7: u8) -> nat {
    if l7 == 126 {
        2
    } else if l7 == 127 {
        8
    } else {
        0
    }
}

/// The decoder, as a function of the bytes at the cursor.  `expect_masked`
/// is true when decoding client-to-server traffic (which must be masked) and
/// false for server-to-client traffic (which must not be).
pub open spec fn spec_decode(b: Seq<u8>, expect_masked: bool) -> SpecDecoded {
    if b.len() < 2 {
        SpecDecoded::NeedMore { need: (2 - b.len()) as nat }
    } else {
        let b0 = b[0];
        let b1 = b[1];
        let fin = b0 >= 128;
        let rsv = (b0 / 16) % 8;
        let opnum = b0 % 16;
        let masked = b1 >= 128;
        let l7 = b1 % 128;
        if rsv != 0 {
            SpecDecoded::Invalid { err: FrameError::ReservedBits }
        } else if Opcode::spec_of_num(opnum) is None {
            SpecDecoded::Invalid { err: FrameError::ReservedOpcode }
        } else {
            let op = Opcode::spec_of_num(opnum)->Some_0;
            if op.spec_is_control() && (l7 > 125 || !fin) {
                SpecDecoded::Invalid { err: FrameError::BadControlFrame }
            } else if masked != expect_masked {
                SpecDecoded::Invalid { err: FrameError::BadMask }
            } else {
                let ext = spec_ext_count(l7);
                if b.len() < 2 + ext {
                    SpecDecoded::NeedMore { need: (2 + ext - b.len()) as nat }
                } else if l7 == 127 && b[2] >= 128 {
                    SpecDecoded::Invalid { err: FrameError::BadLength }
                } else {
                    let plen = if l7 <= 125 {
                        l7 as nat
                    } else {
                        spec_be_val(b.subrange(2, 2 + ext as int))
                    };
                    if plen > MAX_PAYLOAD_LEN {
                        SpecDecoded::Invalid { err: FrameError::Oversize }
                    } else {
                        let mlen: nat = if masked {
                            4
                        } else {
                            0
                        };
                        let hlen = 2 + ext + mlen;
                        if b.len() < hlen + plen {
                            SpecDecoded::NeedMore { need: (hlen + plen - b.len()) as nat }
                        } else {
                            let key = b.subrange(2 + ext as int, 2 + ext as int + mlen as int);
                            let raw = b.subrange(hlen as int, hlen as int + plen as int);
                            SpecDecoded::Frame {
                                fin,
                                op,
                                masked,
                                payload: if masked {
                                    spec_unmask(raw, key)
                                } else {
                                    raw
                                },
                                size: hlen + plen,
                            }
                        }
                    }
                }
            }
        }
    }
}

/// What the executable decoder returned.
pub enum Decoded {
    /// A complete frame occupying `size` bytes from the cursor on.
    Complete { frame: Frame, size: usize },
    /// At least `need` further bytes must arrive before a decision.
    NeedMore { need: usize },
    /// The bytes can never begin a frame this direction accepts.
    Invalid { err: FrameError },
}

/// The executable decoder's result agrees with the specification decoder's.
pub open spec fn decoded_matches(r: Decoded, s: SpecDecoded) -> bool {
    match r {
        Decoded::Complete { frame, size } => {
            &&& s matches SpecDecoded::Frame { fin, op, payload, size: sz, .. }
            &&& frame.fin == fin
            &&& frame.opcode == op
            &&& frame.payload@ == payload
            &&& size as nat == sz
        },
        Decoded::NeedMore { need } => {
            &&& s matches SpecDecoded::NeedMore { need: n }
            &&& need as nat == n
        },
        Decoded::Invalid { err } => {
            &&& s matches SpecDecoded::Invalid { err: e }
            &&& err == e
        },
    }
}

proof fn lemma_pow256_vals()
    ensures
        pow256(0) == 1,
        pow256(1) == 0x100,
        pow256(2) == 0x10000,
        pow256(3) == 0x1000000,
        pow256(4) == 0x100000000,
        pow256(5) == 0x10000000000,
        pow256(6) == 0x1000000000000,
        pow256(7) == 0x100000000000000,
        pow256(8) == 0x10000000000000000,
{
    assert(pow256(1) == 256 * pow256(0));
    assert(pow256(2) == 256 * pow256(1));
    assert(pow256(3) == 256 * pow256(2));
    assert(pow256(4) == 256 * pow256(3));
    assert(pow256(5) == 256 * pow256(4));
    assert(pow256(6) == 256 * pow256(5));
    assert(pow256(7) == 256 * pow256(6));
    assert(pow256(8) == 256 * pow256(7));
}

/// Decodes one frame from `buf` at cursor `start`.  The bytes ahead of the
/// cursor are left untouched, so the buffer can serve further parses.
#[verifier::rlimit(60)]
pub fn decode_frame(buf: &Vec<u8>, start: usize, expect_masked: bool) -> (r: Decoded)
    requires
        start <= buf@.len(),
    ensures
        decoded_matches(r, spec_decode(buf@.skip(start as int), expect_masked)),
{
    let ghost s = buf@.skip(start as int);
    let avail: usize = buf.len() - start;
    if avail < 2 {
        return Decoded::NeedMore { need: 2 - avail };
    }
    let b0 = buf[start];
    let b1 = buf[start + 1];
    assert(b0 == s[0] && b1 == s[1]);
    let fin = b0 >= 128;
    let rsv = (b0 / 16) % 8;
    let opnum = b0 % 16;
    let masked = b1 >= 128;
    let l7 = b1 % 128;
    if rsv != 0 {
        return Decoded::Invalid { err: FrameError::ReservedBits };
    }
    let op = match Opcode::of_num(opnum) {
        None => {
            return Decoded::Invalid { err: FrameError::ReservedOpcode };
        },
        Some(op) => op,
    };
    if op.is_control() && (l7 > 125 || !fin) {
        return Decoded::Invalid { err: FrameError::BadControlFrame };
    }
    if masked != expect_masked {
        return Decoded::Invalid { err: FrameError::BadMask };
    }
    let ext: usize = if l7 == 126 {
        2
    } else if l7 == 127 {
        8
    } else {
        0
    };
    if avail < 2 + ext {
        return Decoded::NeedMore { need: 2 + ext - avail };
    }
    if l7 == 127 && buf[start + 2] >= 128 {
        assert(s[2] == buf@[start + 2]);
        return Decoded::Invalid { err: FrameError::BadLength };
    }
    let mut plen64: u64 = l7 as u64;
    if l7 >= 126 {
        plen64 = 0;
        assert(s.subrange(2, 2) =~= Seq::<u8>::empty());
        let mut i: usize = 0;
        while i < ext
            invariant
                i <= ext,
                plen64 as nat == spec_be_val(s.subrange(2, 2 + i as int)),
                plen64 < pow256(i as nat),
            decreases ext - i,
        {
            proof {
                lemma_pow256_vals();
                assert(s.subrange(2, 2 + (i + 1)).drop_last() =~= s.subrange(2, 2 + i as int));
                assert(s.subrange(2, 2 + (i + 1)).last() == s[2 + i]);
                assert(s[2 + i] == buf@[start + 2 + i]);
            }
            plen64 = plen64 * 256 + (buf[start + 2 + i] as u64);
            i = i + 1;
        }
    }
    assert(plen64 as nat == (if l7 <= 125 {
        l7 as nat
    } else {
        spec_be_val(s.subrange(2, 2 + spec_ext_count(l7) as int))
    }));
    if plen64 > MAX_PAYLOAD_LEN as u64 {
        return Decoded::Invalid { err: FrameError::Oversize };
    }
    let plen = plen64 as usize;
    let mlen: usize = if masked {
        4
    } else {
        0
    };
    let hlen: usize = 2 + ext + mlen;
    if avail < hlen || avail - hlen < plen {
        return Decoded::NeedMore { need: hlen + plen - avail };
    }
    let (k0, k1, k2, k3) = if masked {
        (buf[start + 2 + ext], buf[start + 3 + ext], buf[start + 4 + ext], buf[start + 5 + ext])
    } else {
        (0, 0, 0, 0)
    };
    let ghost key = s.subrange(2 + ext as int, 2 + ext as int + mlen as int);
    proof {
        if masked {
            assert(key =~= seq![k0, k1, k2, k3]);
        }
    }
    let ghost raw = s.subrange(hlen as int, hlen as int + plen as int);
    let mut payload: Vec<u8> = Vec::new();
    let mut i: usize = 0;
    while i < plen
        invariant
            i <= plen,
            payload@ == (if masked {
                spec_unmask(raw.take(i as int), key)
            } else {
                raw.take(i as int)
            }),
        decreases plen - i,
    {
        assert(raw[i as int] == buf@[start + hlen + i]);
        let rawb = buf[start + hlen + i];
        let byte: u8 = if masked {
            let k = if i % 4 == 0 {
                k0
            } else if i % 4 == 1 {
                k1
            } else if i % 4 == 2 {
                k2
            } else {
                k3
            };
            assert(k == key[i as int % 4]);
            rawb ^ k
        } else {
            rawb
        };
        payload.push(byte);
        proof {
            if masked {
                assert(spec_unmask(raw.take(i + 1), key) =~= spec_unmask(raw.take(i as int), key)
                    .push(raw[i as int] ^ key[i as int % 4]));
            } else {
                assert(raw.take(i + 1) =~= raw.take(i as int).push(raw[i as int]));
            }
        }
        i = i + 1;
    }
    proof {
        assert(raw.take(plen as int) =~= raw);
    }
    Decoded::Complete { frame: Frame { fin, opcode: op, payload }, size: hlen + plen }
}

/// First byte of an encoded frame: fin bit, zero reserved bits, opcode.
pub open spec fn spec_first_byte(fin: bool, op: Opcode) -> u8 {
    if fin {
        (128 + op.spec_num()) as u8
    } else {
        op.spec_num()
    }
}

/// Length bytes of an unmasked frame of payload length `n` in the minimal
/// form: the second wire byte (mask bit 0, 7-bit length field) followed by
/// the big-endian extended length when the field is 126 or 127.
pub open spec fn spec_len_field(n: nat) -> Seq<u8> {
    if n <= 125 {
        seq![n as u8]
    } else if n <= 0xFFFF {
        seq![126u8, ((n / 256) % 256) as u8, (n % 256) as u8]
    } else {
        seq![
            127u8,
            ((n / 0x100000000000000) % 256) as u8,
            ((n / 0x1000000000000) % 256) as u8,
            ((n / 0x10000000000) % 256) as u8,
            ((n / 0x100000000) % 256) as u8,
            ((n / 0x1000000) % 256) as u8,
            ((n / 0x10000) % 256) as u8,
            ((n / 0x100) % 256) as u8,
            (n % 256) as u8,
        ]
    }
}

/// The wire bytes of a server-side (unmasked) frame: first byte, length
/// bytes, payload.
pub open spec fn spec_encode(fin: bool, op: Opcode, payload: Seq<u8>) -> Seq<u8> {
    seq![spec_first_byte(fin, op)] + spec_len_field(payload.len()) + payload
}

/// Appends every byte of `data` to `out`.
pub fn push_all(out: &mut Vec<u8>, data: &[u8])
    ensures
        final(out)@ == old(out)@ + data@,
{
    let n = data.len();
    let mut i: usize = 0;
    while i < n
        invariant
            i <= n,
            n == data@.len(),
            out@ == old(out)@ + data@.take(i as int),
        decreases n - i,
    {
        out.push(data[i]);
        assert(data@.take(i + 1) =~= data@.take(i as int).push(data@[i as int]));
        i = i + 1;
    }
    assert(data@.take(n as int) =~= data@);
}

/// Encodes a server-side (unmasked) frame and appends its bytes to `out`.
pub fn encode_frame(fin: bool, op: Opcode, payload: &Vec<u8>, out: &mut Vec<u8>)
    requires
        payload@.len() < 0x8000000000000000,
    ensures
        final(out)@ == old(out)@ + spec_encode(fin, op, payload@),
{
    let first: u8 = if fin {
        128 + op.num()
    } else {
        op.num()
    };
    out.push(first);
    let n = payload.len();
    if n <= 125 {
        out.push(n as u8);
    } else if n <= 0xFFFF {
        out.push(126);
        out.push(((n / 256) % 256) as u8);
        out.push((n % 256) as u8);
    } else {
        out.push(127);
        let w = n as u64;
        out.push(((w / 0x100000000000000) % 256) as u8);
        out.push(((w / 0x1000000000000) % 256) as u8);
        out.push(((w / 0x10000000000) % 256) as u8);
        out.push(((w / 0x100000000) % 256) as u8);
        out.push(((w / 0x1000000) % 256) as u8);
        out.push(((w / 0x10000) % 256) as u8);
        out.push(((w / 0x100) % 256) as u8);
        out.push((w % 256) as u8);
    }
    assert(out@ =~= old(out)@ + seq![spec_first_byte(fin, op)] + spec_len_field(payload@.len()));
    push_all(out, payload.as_slice());
    assert(out@ =~= old(out)@ + spec_encode(fin, op, payload@));
}

proof fn lemma_be_val2(x0: u8, x1: u8)
    ensures
        spec_be_val(seq![x0, x1]) == x0 * 256 + x1,
{
    assert(seq![x0, x1].drop_last() =~= seq![x0]);
    assert(seq![x0].drop_last() =~= Seq::<u8>::empty());
    assert(spec_be_val(Seq::<u8>::empty()) == 0);
    assert(spec_be_val(seq![x0]) == x0 * 256 * 0 + x0);
    assert(spec_be_val(seq![x0, x1]) == spec_be_val(seq![x0]) * 256 + x1);
}

proof fn lemma_be_val8(x0: u8, x1: u8, x2: u8, x3: u8, x4: u8, x5: u8, x6: u8, x7: u8)
    ensures
        spec_be_val(seq![x0, x1, x2, x3, x4, x5, x6, x7]) == ((((((x0 * 256 + x1) * 256 + x2) * 256
            + x3) * 256 + x4) * 256 + x5) * 256 + x6) * 256 + x7,
{
    assert(seq![x0, x1, x2, x3, x4, x5, x6, x7].drop_last() =~= seq![x0, x1, x2, x3, x4, x5, x6]);
    assert(seq![x0, x1, x2, x3, x4, x5, x6].drop_last() =~= seq![x0, x1, x2, x3, x4, x5]);
    assert(seq![x0, x1, x2, x3, x4, x5].drop_last() =~= seq![x0, x1, x2, x3, x4]);
    assert(seq![x0, x1, x2, x3, x4].drop_last() =~= seq![x0, x1, x2, x3]);
    assert(seq![x0, x1, x2, x3].drop_last() =~= seq![x0, x1, x2]);
    assert(seq![x0, x1, x2].drop_last() =~= seq![x0, x1]);
    lemma_be_val2(x0, x1);
    assert(spec_be_val(seq![x0, x1, x2]) == spec_be_val(seq![x0, x1]) * 256 + x2);
    assert(spec_be_val(seq![x0, x1, x2, x3]) == spec_be_val(seq![x0, x1, x2]) * 256 + x3);
    assert(spec_be_val(seq![x0, x1, x2, x3, x4]) == spec_be_val(seq![x0, x1, x2, x3]) * 256 + x4);
    assert(spec_be_val(seq![x0, x1, x2, x3, x4, x5]) == spec_be_val(seq![x0, x1, x2, x3, x4]) * 256
        + x5);
    assert(spec_be_val(seq![x0, x1, x2, x3, x4, x5, x6]) == spec_be_val(
        seq![x0, x1, x2, x3, x4, x5],
    ) * 256 + x6);
    assert(spec_be_val(seq![x0, x1, x2, x3, x4, x5, x6, x7]) == spec_be_val(
        seq![x0, x1, x2, x3, x4, x5, x6],
    ) * 256 + x7);
}

/// Base-256 digit decomposition of a value below 2^32.
proof fn lemma_digits4(n: nat)
    requires
        n <= 0xFFFFFFFF,
    ensures
        n == ((((n / 0x1000000) % 256) * 256 + ((n / 0x10000) % 256)) * 256 + ((n / 0x100) % 256))
            * 256 + (n % 256),
{
    let r1 = n / 0x100;
    let r2 = n / 0x10000;
    let r3 = n / 0x1000000;
    vstd::arithmetic::div_mod::lemma_div_denominator(n as int, 0x100, 0x100);
    vstd::arithmetic::div_mod::lemma_div_denominator(n as int, 0x10000, 0x100);
    assert(r1 / 0x100 == r2);
    assert(r2 / 0x100 == r3);
    assert(n == r1 * 0x100 + n % 0x100);
    assert(r1 == r2 * 0x100 + r1 % 0x100);
    assert(r2 == r3 * 0x100 + r2 % 0x100);
    assert(r3 < 0x100);
    assert(r3 % 256 == r3);
}

/// An opcode's wire number maps back to the opcode.
pub proof fn lemma_opcode_num_inverse(op: Opcode)
    ensures
        Opcode::spec_of_num(op.spec_num()) == Some(op),
{
}

/// Every encoded server frame is unmasked: the mask bit of its second wire
/// byte is zero.
pub proof fn lemma_encoded_unmasked(fin: bool, op: Opcode, payload: Seq<u8>)
    ensures
        spec_encode(fin, op, payload)[1] < 128,
{
}

/// Every decoded frame's mask bit equals the direction's expectation; in
/// particular every frame the proxy decodes from a client was masked.
pub proof fn lemma_decoded_mask(b: Seq<u8>, expect_masked: bool)
    ensures
        spec_decode(b, expect_masked) matches SpecDecoded::Frame { masked, .. } ==> masked
            == expect_masked,
{
}

/// Every decoded control frame is final and carries at most 125 payload
/// bytes.
pub proof fn lemma_decoded_control(b: Seq<u8>, expect_masked: bool)
    ensures
        spec_decode(b, expect_masked) matches SpecDecoded::Frame { op, fin, payload, .. } ==> (
        op.spec_is_control() ==> fin && payload.len() <= 125),
{
}

/// Round trip, bytes first: decoding an encoded frame gives back the opcode,
/// fin bit and payload, and consumes exactly the encoded bytes.
pub proof fn lemma_decode_of_encode(fin: bool, op: Opcode, payload: Seq<u8>)
    requires
        payload.len() <= MAX_PAYLOAD_LEN,
        op.spec_is_control() ==> fin && payload.len() <= 125,
    ensures
        spec_decode(spec_encode(fin, op, payload), false) == (SpecDecoded::Frame {
            fin,
            op,
            masked: false,
            payload,
            size: spec_encode(fin, op, payload).len(),
        }),
{
    let b = spec_encode(fin, op, payload);
    let n = payload.len();
    let num = op.spec_num();
    lemma_opcode_num_inverse(op);
    assert(b[0] == spec_first_byte(fin, op));
    assert(num <= 10);
    assert(b[0] >= 128 <==> fin);
    assert((b[0] / 16) % 8 == 0);
    assert(b[0] % 16 == num);
    if n <= 125 {
        assert(b[1] == n as u8);
        assert(b.len() == 2 + n);
        assert(b.subrange(2, 2 + n as int) =~= payload);
    } else if n <= 0xFFFF {
        assert(b[1] == 126);
        assert(b.len() == 4 + n);
        assert(b.subrange(2, 4) =~= seq![((n / 256) % 256) as u8, (n % 256) as u8]);
        lemma_be_val2(((n / 256) % 256) as u8, (n % 256) as u8);
        assert((n / 256) % 256 == n / 256);
        assert(spec_be_val(b.subrange(2, 4)) == n);
        assert(b.subrange(4, 4 + n as int) =~= payload);
    } else {
        let d7 = ((n / 0x100000000000000) % 256) as u8;
        let d6 = ((n / 0x1000000000000) % 256) as u8;
        let d5 = ((n / 0x10000000000) % 256) as u8;
        let d4 = ((n / 0x100000000) % 256) as u8;
        let d3 = ((n / 0x1000000) % 256) as u8;
        let d2 = ((n / 0x10000) % 256) as u8;
        let d1 = ((n / 0x100) % 256) as u8;
        let d0 = (n % 256) as u8;
        assert(b[1] == 127);
        assert(b.len() == 10 + n);
        assert(b.subrange(2, 10) =~= seq![d7, d6, d5, d4, d3, d2, d1, d0]);
        assert(n / 0x100000000000000 == 0 && n / 0x1000000000000 == 0 && n / 0x10000000000 == 0
            && n / 0x100000000 == 0);
        assert(b[2] == 0);
        lemma_be_val8(d7, d6, d5, d4, d3, d2, d1, d0);
        lemma_digits4(n);
        assert(spec_be_val(b.subrange(2, 10)) == n);
        assert(b.subrange(10, 10 + n as int) =~= payload);
    }
}

/// The length bytes of a decoded frame were in the minimal form: a 16-bit
/// length is only used above 125 and a 64-bit length only above 65535.
pub open spec fn spec_minimal_form(b: Seq<u8>) -> bool
    recommends
        b.len() >= 2,
{
    let l7 = b[1] % 128;
    &&& (l7 == 126 && b.len() >= 4 ==> spec_be_val(b.subrange(2, 4)) > 125)
    &&& (l7 == 127 && b.len() >= 10 ==> spec_be_val(b.subrange(2, 10)) > 0xFFFF)
}

/// Round trip, frame first: re-encoding a frame decoded from unmasked bytes
/// in minimal length form gives back exactly those bytes.
#[verifier::rlimit(60)]
pub proof fn lemma_encode_of_decode(b: Seq<u8>, fin: bool, op: Opcode, payload: Seq<u8>)
    requires
        spec_decode(b, false) == (SpecDecoded::Frame {
            fin,
            op,
            masked: false,
            payload,
            size: b.len() as nat,
        }),
        spec_minimal_form(b),
    ensures
        spec_encode(fin, op, payload) == b,
{
    let b0 = b[0];
    let b1 = b[1];
    let opnum = b0 % 16;
    let l7 = b1 % 128;
    assert(b.len() >= 2);
    assert((b0 / 16) % 8 == 0);
    assert(Opcode::spec_of_num(opnum) == Some(op));
    assert(opnum == op.spec_num());
    vstd::arithmetic::div_mod::lemma_div_denominator(b0 as int, 16, 8);
    assert(b0 / 16 == (b0 / 128) * 8 + (b0 / 16) % 8);
    assert(b0 == (b0 / 16) * 16 + b0 % 16);
    assert(fin <==> b0 >= 128);
    assert(b0 / 128 == if fin {
        1int
    } else {
        0int
    });
    assert(b0 == spec_first_byte(fin, op));
    assert(b1 < 128);
    assert(b1 == l7);
    if l7 <= 125 {
        let plen = l7 as nat;
        assert(payload == b.subrange(2, 2 + plen as int));
        assert(payload.len() == plen);
        assert(spec_len_field(payload.len()) =~= seq![b1]);
        assert(spec_encode(fin, op, payload) =~= b);
    } else if l7 == 126 {
        let n = spec_be_val(b.subrange(2, 4));
        assert(payload == b.subrange(4, 4 + n as int));
        lemma_be_val_bound(b.subrange(2, 4));
        assert(pow256(2) == 256 * pow256(1) && pow256(1) == 256 * pow256(0));
        assert(n <= 0xFFFF);
        assert(n > 125);
        assert(b.subrange(2, 4) =~= seq![b[2], b[3]]);
        lemma_be_val2(b[2], b[3]);
        assert(n == b[2] * 256 + b[3]);
        assert(n / 256 == b[2] && n % 256 == b[3]);
        assert((n / 256) % 256 == n / 256);
        assert(spec_len_field(payload.len()) =~= seq![126u8, b[2], b[3]]);
        assert(spec_encode(fin, op, payload) =~= b);
    } else {
        let e = b.subrange(2, 10);
        let n = spec_be_val(e);
        assert(payload == b.subrange(10, 10 + n as int));
        assert(n > 0xFFFF);
        assert(n <= MAX_PAYLOAD_LEN);
        lemma_be_val_split(e, 4);
        lemma_be_val_bound(e.skip(4));
        lemma_pow256_vals();
        let hi = spec_be_val(e.take(4));
        assert(n == hi * 0x100000000 + spec_be_val(e.skip(4)));
        assert(hi == 0) by {
            if hi > 0 {
                assert(hi * 0x100000000 >= 0x100000000) by (nonlinear_arith)
                    requires
                        hi >= 1,
                ;
            }
        }
        lemma_be_val_zero(e.take(4));
        assert(e.take(4)[0] == b[2] && e.take(4)[1] == b[3] && e.take(4)[2] == b[4] && e.take(4)[3]
            == b[5]);
        assert(b[2] == 0 && b[3] == 0 && b[4] == 0 && b[5] == 0);
        assert(e.skip(4) =~= seq![b[6], b[7], b[8], b[9]]);
        assert(e =~= seq![b[2], b[3], b[4], b[5], b[6], b[7], b[8], b[9]]);
        lemma_be_val8(b[2], b[3], b[4], b[5], b[6], b[7], b[8], b[9]);
        let q1 = ((b[6] * 256 + b[7]) * 256 + b[8]) as int;
        assert(n == q1 * 256 + b[9]);
        assert(n % 256 == b[9] && n / 256 == q1);
        let q2 = (b[6] * 256 + b[7]) as int;
        assert(q1 == q2 * 256 + b[8]);
        assert(q1 % 256 == b[8] && q1 / 256 == q2);
        assert(q2 % 256 == b[7] && q2 / 256 == b[6] as int);
        vstd::arithmetic::div_mod::lemma_div_denominator(n as int, 0x100, 0x100);
        vstd::arithmetic::div_mod::lemma_div_denominator(n as int, 0x10000, 0x100);
        vstd::arithmetic::div_mod::lemma_div_denominator(n as int, 0x1000000, 0x100);
        vstd::arithmetic::div_mod::lemma_div_denominator(n as int, 0x100000000, 0x100);
        vstd::arithmetic::div_mod::lemma_div_denominator(n as int, 0x10000000000, 0x100);
        vstd::arithmetic::div_mod::lemma_div_denominator(n as int, 0x1000000000000, 0x100);
        assert(n / 0x10000 == q2);
        assert(n / 0x1000000 == b[6] as int);
        assert(n / 0x100000000 == 0);
        assert(n / 0x10000000000 == 0 && n / 0x1000000000000 == 0 && n / 0x100000000000000 == 0);
        assert(spec_len_field(payload.len()) =~= seq![127u8, b[2], b[3], b[4], b[5], b[6], b[7],
            b[8], b[9]]);
        assert(spec_encode(fin, op, payload) =~= b);
    }
}

} // verus!
