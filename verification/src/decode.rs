use vstd::prelude::*;

use crate::dect::BFieldIdentification;
use crate::dect::MACHeader;
use crate::dect::MACPacket;
use crate::dect::Rcrc;
use crate::dect::TailIdentification;
use crate::dect::TailIdentificationPP;
use crate::dect::b_field_len;
use crate::dect::b_field_length;
use crate::dect::bits_val;
use crate::dect::crc_spec;
use crate::dect::header_of;
use crate::dect::lemma_bits_val_bound;
use crate::dect::stream_bits;
use crate::dect::FP_SYNC;
use crate::dect::PP_SYNC;

verus! {

/// Command-line arguments of the offline decoder.
#[derive(Debug, Clone, PartialEq, Eq)]
pub struct Args {
    /// Input file to decode.
    pub input: String,
}

/// Appending bytes appends their bits.
pub proof fn lemma_stream_bits_concat(a: Seq<u8>, b: Seq<u8>)
    ensures
        stream_bits(a + b) == stream_bits(a) + stream_bits(b),
{
    let lhs = stream_bits(a + b);
    let rhs = stream_bits(a) + stream_bits(b);
    assert forall|i: int| 0 <= i < lhs.len() implies lhs[i] == rhs[i] by {
        if i < a.len() * 8 {
            assert(i / 8 < a.len() && 0 <= i / 8) by (nonlinear_arith)
                requires
                    0 <= i < a.len() * 8,
            ;
            assert((a + b)[i / 8] == a[i / 8]);
        } else {
            let j = i - a.len() * 8;
            assert(j / 8 == i / 8 - a.len() && j % 8 == i % 8 && a.len() <= i / 8 && j / 8
                < b.len()) by (nonlinear_arith)
                requires
                    0 <= a.len() * 8 <= i < (a.len() + b.len()) * 8,
                    j == i - a.len() * 8,
            ;
            assert((a + b)[i / 8] == b[i / 8 - a.len()]);
        }
    };
    assert(lhs =~= rhs);
}

/// Dropping whole bytes at the front drops their bits.
pub proof fn lemma_stream_bits_skip(a: Seq<u8>, k: int)
    requires
        0 <= k <= a.len(),
    ensures
        stream_bits(a.skip(k)) == stream_bits(a).skip(8 * k),
{
    let lhs = stream_bits(a.skip(k));
    let rhs = stream_bits(a).skip(8 * k);
    assert forall|i: int| 0 <= i < lhs.len() implies lhs[i] == rhs[i] by {
        assert((8 * k + i) / 8 == k + i / 8 && (8 * k + i) % 8 == i % 8 && 0 <= i / 8 && k + i / 8
            < a.len()) by (nonlinear_arith)
            requires
                0 <= k,
                0 <= i < (a.len() - k) * 8,
        ;
        assert(a.skip(k)[i / 8] == a[k + i / 8]);
    };
    assert(lhs =~= rhs);
}

/// Rolling bit cursor over a growing byte buffer: bytes go in at the back,
/// bits come out at the front, at any alignment.  Fully consumed leading
/// bytes are dropped when new bytes arrive, so memory stays bounded by what
/// is still unread.
#[derive(Debug, Clone)]
pub struct BitIterator {
    inner: Vec<u8>,
    bit: u8,
    index: usize,
}

impl View for BitIterator {
    type V = Seq<bool>;

    /// The bits that are still ahead of the cursor.
    closed spec fn view(&self) -> Seq<bool> {
        stream_bits(self.inner@).skip(self.index * 8 + self.bit)
    }
}

impl BitIterator {
    /// The cursor lies within the buffer and the buffer's bit length fits a
    /// machine word.
    pub closed spec fn wf(&self) -> bool {
        &&& self.bit < 8
        &&& self.index * 8 + self.bit <= self.inner@.len() * 8
        &&& self.inner@.len() * 8 <= usize::MAX
    }

    /// The cursor's absolute bit position from the start of the buffer.
    spec fn pos(&self) -> int {
        self.index * 8 + self.bit
    }

    pub fn new(inner: Vec<u8>) -> (r: Self)
        requires
            inner@.len() * 8 <= usize::MAX,
        ensures
            r.wf(),
            r@ == stream_bits(inner@),
    {
        let r = Self { inner, bit: 0, index: 0 };
        proof {
            assert(r@ =~= stream_bits(r.inner@));
        }
        r
    }

    /// The number of bits still ahead of the cursor.
    pub fn len(&self) -> (n: usize)
        requires
            self.wf(),
        ensures
            n == self@.len(),
    {
        (self.inner.len() - self.index) * 8 - self.bit as usize
    }

    /// Append raw bytes behind whatever is already buffered, first dropping
    /// the fully consumed leading bytes.
    pub fn extend(&mut self, bytes: &[u8])
        requires
            old(self).wf(),
            old(self)@.len() + bytes@.len() * 8 + 7 <= usize::MAX,
        ensures
            final(self).wf(),
            final(self)@ == old(self)@ + stream_bits(bytes@),
    {
        if self.index > 0 {
            let ghost pre = *self;
            let mut rest: Vec<u8> = Vec::new();
            let mut i: usize = self.index;
            while i < self.inner.len()
                invariant
                    *self == pre,
                    pre.wf(),
                    pre.index <= i <= pre.inner@.len(),
                    rest@ == pre.inner@.subrange(pre.index as int, i as int),
                decreases pre.inner@.len() - i,
            {
                proof {
                    assert(pre.inner@.subrange(pre.index as int, i as int).push(
                        pre.inner@[i as int],
                    ) =~= pre.inner@.subrange(pre.index as int, i + 1));
                }
                rest.push(self.inner[i]);
                i += 1;
            }
            proof {
                assert(rest@ =~= pre.inner@.skip(pre.index as int));
            }
            self.inner = rest;
            self.index = 0;
            proof {
                lemma_stream_bits_skip(pre.inner@, pre.index as int);
                assert(stream_bits(pre.inner@).skip(8 * pre.index).skip(self.bit as int)
                    =~= stream_bits(pre.inner@).skip(pre.index * 8 + pre.bit));
                assert(self@ == pre@);
            }
        }
        let ghost orig = *self;
        proof {
            assert(orig@.len() == orig.inner@.len() * 8 - orig.bit);
        }
        let mut i: usize = 0;
        while i < bytes.len()
            invariant
                i <= bytes@.len(),
                self.bit == orig.bit,
                self.index == orig.index,
                self.inner@ == orig.inner@ + bytes@.take(i as int),
                orig.wf(),
                orig.index == 0,
                (orig.inner@.len() + bytes@.len()) * 8 <= usize::MAX,
            decreases bytes@.len() - i,
        {
            proof {
                assert((orig.inner@ + bytes@.take(i as int)).push(bytes@[i as int]) =~= orig.inner@
                    + bytes@.take(i + 1));
            }
            self.inner.push(bytes[i]);
            i += 1;
        }
        proof {
            assert(bytes@.take(bytes@.len() as int) =~= bytes@);
            lemma_stream_bits_concat(orig.inner@, bytes@);
            assert(self@ =~= orig@ + stream_bits(bytes@));
        }
    }

    /// The bit `off` positions ahead of the cursor.
    fn bit_ahead(&self, off: usize) -> (b: bool)
        requires
            self.wf(),
            off < self@.len(),
        ensures
            b == self@[off as int],
    {
        let p = self.index * 8 + self.bit as usize + off;
        proof {
            assert(p / 8 < self.inner@.len() && 0 <= p / 8 && 0 <= p % 8 < 8) by (nonlinear_arith)
                requires
                    0 <= p < self.inner@.len() * 8,
            ;
            assert(self@[off as int] == stream_bits(self.inner@)[self.pos() + off]);
        }
        (self.inner[p / 8] >> ((7 - p % 8) as u8)) & 1 == 1
    }

    /// The next `n` bits, if that many are buffered; the cursor stays put.
    pub fn peek_bits(&self, n: usize) -> (r: Option<Vec<bool>>)
        requires
            self.wf(),
        ensures
            match r {
                None => self@.len() < n,
                Some(v) => n <= self@.len() && v@ == self@.take(n as int),
            },
    {
        if self.len() < n {
            return None;
        }
        let mut v: Vec<bool> = Vec::new();
        let mut j: usize = 0;
        while j < n
            invariant
                j <= n,
                n <= self@.len(),
                self.wf(),
                v@.len() == j,
                forall|k: int| 0 <= k < j ==> v@[k] == self@[k],
            decreases n - j,
        {
            let b = self.bit_ahead(j);
            v.push(b);
            j += 1;
        }
        proof {
            assert(v@ =~= self@.take(n as int));
        }
        Some(v)
    }

    /// If at least 64 bits are buffered, the 64-bit big-endian value they
    /// form; the cursor advances by exactly one bit.
    pub fn next_window(&mut self) -> (r: Option<u64>)
        requires
            old(self).wf(),
        ensures
            final(self).wf(),
            match r {
                None => *final(self) == *old(self) && final(self)@.len() < 64,
                Some(w) => old(self)@.len() >= 64 && w == bits_val(old(self)@.take(64))
                    && final(self)@ == old(self)@.skip(1),
            },
    {
        if self.len() < 64 {
            return None;
        }
        let mut w: u64 = 0;
        let mut j: usize = 0;
        while j < 64
            invariant
                j <= 64,
                64 <= self@.len(),
                self.wf(),
                w == bits_val(self@.take(j as int)),
            decreases 64 - j,
        {
            let b = self.bit_ahead(j);
            proof {
                lemma_bits_val_bound(self@.take(j as int));
                if (j as nat) < 63 {
                    vstd::arithmetic::power2::lemma_pow2_strictly_increases(j as nat, 63);
                }
                vstd::arithmetic::power2::lemma2_to64_rest();
                assert(w < 0x8000000000000000);
                let bv: u64 = if b {
                    1
                } else {
                    0
                };
                assert((w << 1) | bv == 2 * w + bv) by (bit_vector)
                    requires
                        w < 0x8000000000000000u64,
                        bv == 1u64 || bv == 0u64,
                ;
                assert(self@.take(j + 1).drop_last() =~= self@.take(j as int));
                assert(self@.take(j + 1).last() == self@[j as int]);
            }
            w = (w << 1) | (if b {
                1
            } else {
                0
            });
            j += 1;
        }
        let ghost prior = *self;
        if self.bit == 7 {
            self.bit = 0;
            self.index += 1;
        } else {
            self.bit += 1;
        }
        proof {
            assert(self@ =~= prior@.skip(1));
        }
        Some(w)
    }

    /// Consume `n` bits without looking at them.
    pub fn advance(&mut self, n: usize)
        requires
            old(self).wf(),
            n <= old(self)@.len(),
        ensures
            final(self).wf(),
            final(self)@ == old(self)@.skip(n as int),
    {
        let p = self.index * 8 + self.bit as usize + n;
        let ghost prior = *self;
        self.index = p / 8;
        self.bit = (p % 8) as u8;
        proof {
            assert(self.index * 8 + self.bit == p && 0 <= p % 8 < 8) by (nonlinear_arith)
                requires
                    self.index == p / 8,
                    self.bit == (p % 8) as u8,
                    0 <= p,
            ;
            assert(self@ =~= prior@.skip(n as int));
        }
    }
}

/// Pack eight buffered bits into a byte, most significant bit first.
fn pack_byte(v: &Vec<bool>, base: usize) -> (b: u8)
        requires
            base + 8 <= v@.len(),
        ensures
            b == bits_val(v@.subrange(base as int, base as int + 8)),
    {
        let _len = v.len();
        let mut b: u8 = 0;
        let mut j: usize = 0;
        while j < 8
            invariant
                j <= 8,
                base + 8 <= v@.len(),
                v@.len() <= usize::MAX,
                b == bits_val(v@.subrange(base as int, base as int + j)),
            decreases 8 - j,
        {
            let bit = v[base + j];
            proof {
                lemma_bits_val_bound(v@.subrange(base as int, base as int + j));
                vstd::arithmetic::power2::lemma2_to64();
                if (j as nat) < 7 {
                    vstd::arithmetic::power2::lemma_pow2_strictly_increases(j as nat, 7);
                }
                assert(b < 0x80);
                let bv: u8 = if bit {
                    1
                } else {
                    0
                };
                assert((b << 1) | bv == 2 * b + bv) by (bit_vector)
                    requires
                        b < 0x80u8,
                        bv == 1u8 || bv == 0u8,
                ;
                assert(v@.subrange(base as int, base as int + j + 1).drop_last() =~= v@.subrange(
                    base as int,
                    base as int + j,
                ));
                assert(v@.subrange(base as int, base as int + j + 1).last() == v@[base + j]);
            }
            b = (b << 1) | (if bit {
                1
            } else {
                0
            });
            j += 1;
        }
        b
    }

// ---------------------------------------------------------------------------
// The frame-assembly state machine.
// ---------------------------------------------------------------------------

/// A synchronization word found in the stream, tagged with the role it
/// belongs to and carrying the full 64-bit window it was found in.
#[derive(Debug, Copy, Clone, PartialEq, Eq)]
pub enum Sync {
    Fp(u64),
    Pp(u64),
}

/// The decoder's position within the current candidate frame.
#[derive(Debug, Clone, Copy, PartialEq, Eq)]
pub enum ChannelState {
    NewMessage,
    AField { sync: Sync },
    BField { sync: Sync, header: MACHeader, tail: [u8; 5], length: usize },
}

/// What a single parse attempt produced.
#[derive(Debug, Clone, PartialEq, Eq)]
pub enum DecoderState {
    MoreData,
    Partial,
    Full(MACPacket),
}

/// The incremental frame decoder: a bit cursor plus the assembly state.
#[derive(Debug)]
pub struct Decoder {
    pub bits: BitIterator,
    pub state: ChannelState,
}

/// Does the low 24-bit end of a 64-bit window hold either synchronization
/// word?
pub open spec fn sync_matches(w: u64) -> bool {
    w & 0xffffff == FP_SYNC as u64 || w & 0xffffff == PP_SYNC as u64
}

/// The tagged synchronization word a matching window yields.
pub open spec fn sync_of(w: u64) -> Sync {
    if w & 0xffffff == FP_SYNC as u64 {
        Sync::Fp(w)
    } else {
        Sync::Pp(w)
    }
}

/// The 64-bit window that starts `p` bits into the stream.
pub open spec fn window_at(s: Seq<bool>, p: int) -> u64 {
    bits_val(s.subrange(p, p + 64)) as u64
}

/// Byte `j` of the 64-bit window at the front of the stream.
pub open spec fn byte_at(s: Seq<bool>, j: int) -> u8 {
    bits_val(s.subrange(8 * j, 8 * j + 8)) as u8
}

/// The eight bytes of the window at the front of the stream.
pub open spec fn window_bytes(s: Seq<bool>) -> Seq<u8> {
    Seq::new(8, |j: int| byte_at(s, j))
}

/// The first position at or after `p` whose window matches a
/// synchronization word, if any window fits in the stream.
pub open spec fn scan_from(s: Seq<bool>, p: nat) -> Option<nat>
    decreases s.len() - p,
{
    if p + 64 > s.len() {
        None
    } else if sync_matches(window_at(s, p as int)) {
        Some(p)
    } else {
        scan_from(s, p + 1)
    }
}

/// What a successful or failed scan says about the stream.
pub proof fn lemma_scan_from(s: Seq<bool>, p: nat)
    ensures
        match scan_from(s, p) {
            Some(q) => p <= q && q + 64 <= s.len() && sync_matches(window_at(s, q as int))
                && forall|r: int| p <= r < q ==> !sync_matches(window_at(s, r)),
            None => forall|r: int|
                p <= r && r + 64 <= s.len() ==> !sync_matches(window_at(s, r)),
        },
    decreases s.len() - p,
{
    if p + 64 > s.len() {
    } else if sync_matches(window_at(s, p as int)) {
    } else {
        lemma_scan_from(s, p + 1);
    }
}

// ---------------------------------------------------------------------------
// The decoder's transition function over mathematical values.
// ---------------------------------------------------------------------------

/// The assembly state over mathematical values.
pub enum StateModel {
    NewMessage,
    AField { sync: Sync },
    BField { sync: Sync, header: MACHeader, tail: Seq<u8>, length: nat },
}

/// A packet over mathematical values.
pub struct PacketModel {
    pub header: MACHeader,
    pub tail: Seq<u8>,
    pub b_field: Option<Seq<bool>>,
}

/// A parse outcome over mathematical values.
pub enum OutcomeModel {
    MoreData,
    Partial,
    Full(PacketModel),
}

pub open spec fn abs_state(c: ChannelState) -> StateModel {
    match c {
        ChannelState::NewMessage => StateModel::NewMessage,
        ChannelState::AField { sync } => StateModel::AField { sync },
        ChannelState::BField { sync, header, tail, length } => (StateModel::BField {
            sync,
            header,
            tail: tail@,
            length: length as nat,
        }),
    }
}

pub open spec fn abs_packet(p: MACPacket) -> PacketModel {
    PacketModel {
        header: p.header,
        tail: p.tail@,
        b_field: match p.b_field {
            Some(v) => Some(v@),
            None => None,
        },
    }
}

pub open spec fn abs_result(r: DecoderState) -> OutcomeModel {
    match r {
        DecoderState::MoreData => OutcomeModel::MoreData,
        DecoderState::Partial => OutcomeModel::Partial,
        DecoderState::Full(p) => OutcomeModel::Full(abs_packet(p)),
    }
}

/// One parse attempt: from an assembly state and the buffered bits to the
/// next state, the remaining bits, and the outcome.
pub open spec fn step_model(st: StateModel, s: Seq<bool>) -> (StateModel, Seq<bool>, OutcomeModel) {
    match st {
        StateModel::NewMessage => {
            if s.len() < 64 {
                (st, s, OutcomeModel::MoreData)
            } else {
                match scan_from(s, 0) {
                    None => (st, s.skip(s.len() - 63), OutcomeModel::MoreData),
                    Some(p) => (
                        (StateModel::AField { sync: sync_of(window_at(s, p as int)) }),
                        s.skip(p as int + 64),
                        OutcomeModel::Partial,
                    ),
                }
            }
        }
        StateModel::AField { sync } => {
            if s.len() < 64 {
                (st, s, OutcomeModel::MoreData)
            } else {
                let bytes = window_bytes(s);
                if crc_spec(bytes) != 0 {
                    (StateModel::NewMessage, s.skip(64), OutcomeModel::Partial)
                } else {
                    let header = header_of(bytes[7]);
                    (
                        (StateModel::BField {
                            sync,
                            header,
                            tail: bytes.subrange(2, 7),
                            length: b_field_len(header.b_field_ident),
                        }),
                        s.skip(64),
                        OutcomeModel::Partial,
                    )
                }
            }
        }
        StateModel::BField { sync, header, tail, length } => {
            if s.len() < length {
                (st, s, OutcomeModel::MoreData)
            } else {
                (
                    StateModel::NewMessage,
                    s.skip(length as int),
                    OutcomeModel::Full(
                        PacketModel {
                            header,
                            tail,
                            b_field: if length == 0 {
                                None
                            } else {
                                Some(s.take(length as int))
                            },
                        },
                    ),
                )
            }
        }
    }
}

proof fn lemma_sync_cast(w: u64)
    ensures
        ((w & 0xffffff) as u32 == FP_SYNC) == (w & 0xffffff == FP_SYNC as u64),
        ((w & 0xffffff) as u32 == PP_SYNC) == (w & 0xffffff == PP_SYNC as u64),
{
    assert(((w & 0xffffff) as u32 == 0xAAE98Au32) == (w & 0xffffff == 0xAAE98Au64))
        by (bit_vector);
    assert(((w & 0xffffff) as u32 == 0x551675u32) == (w & 0xffffff == 0x551675u64))
        by (bit_vector);
}

impl Decoder {
    /// Attempt one state transition: scan for a synchronization word, or
    /// validate a tail-and-header window against the R-CRC, or collect the
    /// announced payload bits.  The outcome says whether more input is
    /// needed, internal progress was made, or a packet is complete; the
    /// postcondition pins the transition to `step_model`.
    pub fn parse(&mut self) -> (r: DecoderState)
        requires
            old(self).bits.wf(),
        ensures
            final(self).bits.wf(),
            (abs_state(final(self).state), final(self).bits@, abs_result(r)) == step_model(
                abs_state(old(self).state),
                old(self).bits@,
            ),
    {
        let st = self.state;
        match st {
            ChannelState::NewMessage => {
                if self.bits.len() < 64 {
                    return DecoderState::MoreData;
                }
                let ghost s0 = self.bits@;
                let ghost mut k: int = 0;
                loop
                    invariant
                        self.state is NewMessage,
                        self.state == old(self).state,
                        self.bits.wf(),
                        s0 == old(self).bits@,
                        64 <= s0.len(),
                        0 <= k,
                        k + 63 <= s0.len(),
                        self.bits@ == s0.skip(k),
                        scan_from(s0, 0) == scan_from(s0, k as nat),
                    decreases s0.len() - k,
                {
                    match self.bits.next_window() {
                        None => {
                            proof {
                                assert(k == s0.len() - 63);
                                assert(scan_from(s0, k as nat) is None);
                            }
                            return DecoderState::MoreData;
                        }
                        Some(w) => {
                            proof {
                                assert(s0.skip(k).take(64) =~= s0.subrange(k, k + 64));
                                lemma_bits_val_bound(s0.subrange(k, k + 64));
                                vstd::arithmetic::power2::lemma2_to64();
                                assert(window_at(s0, k) == w);
                                lemma_sync_cast(w);
                            }
                            let fp = (w & 0xffffff) as u32 == FP_SYNC;
                            let pp = (w & 0xffffff) as u32 == PP_SYNC;
                            if fp || pp {
                                proof {
                                    assert(sync_matches(window_at(s0, k)));
                                    assert(scan_from(s0, k as nat) == Some(k as nat));
                                }
                                self.bits.advance(63);
                                proof {
                                    assert(self.bits@ =~= s0.skip(k + 64));
                                }
                                self.state = ChannelState::AField {
                                    sync: if fp {
                                        Sync::Fp(w)
                                    } else {
                                        Sync::Pp(w)
                                    },
                                };
                                return DecoderState::Partial;
                            }
                            proof {
                                assert(!sync_matches(window_at(s0, k)));
                                k = k + 1;
                                assert(self.bits@ =~= s0.skip(k));
                            }
                        }
                    }
                }
            }
            ChannelState::AField { sync } => {
                if self.bits.len() < 64 {
                    return DecoderState::MoreData;
                }
                let ghost s0 = self.bits@;
                let v = match self.bits.peek_bits(64) {
                    Some(v) => v,
                    None => vstd::pervasive::unreached(),
                };
                let bytes: [u8; 8] = [
                    pack_byte(&v, 0),
                    pack_byte(&v, 8),
                    pack_byte(&v, 16),
                    pack_byte(&v, 24),
                    pack_byte(&v, 32),
                    pack_byte(&v, 40),
                    pack_byte(&v, 48),
                    pack_byte(&v, 56),
                ];
                proof {
                    assert forall|j: int| 0 <= j < 8 implies bytes@[j] == byte_at(s0, j) by {
                        assert(v@.subrange(8 * j, 8 * j + 8) =~= s0.subrange(8 * j, 8 * j + 8));
                        lemma_bits_val_bound(s0.subrange(8 * j, 8 * j + 8));
                        vstd::arithmetic::power2::lemma2_to64();
                    };
                    assert(bytes@ =~= window_bytes(s0));
                }
                self.bits.advance(64);
                if bytes.crc() != 0 {
                    self.state = ChannelState::NewMessage;
                    return DecoderState::Partial;
                }
                let header_byte = bytes[7];
                let tail: [u8; 5] = [bytes[2], bytes[3], bytes[4], bytes[5], bytes[6]];
                let tail_ident = TailIdentification::Pp(
                    TailIdentificationPP::from(header_byte >> 5),
                );
                let b_field_ident = BFieldIdentification::from((header_byte >> 1) & 7);
                let length = b_field_length(b_field_ident);
                let header = MACHeader {
                    tail_ident,
                    q1_bck_bit: (header_byte >> 4) & 1 == 1,
                    b_field_ident,
                    q2_bit: header_byte & 1 == 1,
                };
                proof {
                    assert(header == header_of(byte_at(s0, 7)));
                    assert(tail@ =~= window_bytes(s0).subrange(2, 7));
                }
                self.state = ChannelState::BField { sync, header, tail, length };
                DecoderState::Partial
            }
            ChannelState::BField { sync: _sync, header, tail, length } => {
                if self.bits.len() < length {
                    return DecoderState::MoreData;
                }
                let ghost s0 = self.bits@;
                let b_field: Option<Vec<bool>> = if length == 0 {
                    proof {
                        assert(self.bits@ =~= s0.skip(0));
                    }
                    None
                } else {
                    let v = match self.bits.peek_bits(length) {
                        Some(v) => v,
                        None => vstd::pervasive::unreached(),
                    };
                    self.bits.advance(length);
                    Some(v)
                };
                self.state = ChannelState::NewMessage;
                DecoderState::Full(MACPacket { header, tail, b_field })
            }
        }
    }

    /// Append raw bytes for the decoder to consume.
    pub fn extend(&mut self, bytes: &[u8])
        requires
            old(self).bits.wf(),
            old(self).bits@.len() + bytes@.len() * 8 + 7 <= usize::MAX,
        ensures
            final(self).bits.wf(),
            final(self).state == old(self).state,
            final(self).bits@ == old(self).bits@ + stream_bits(bytes@),
    {
        self.bits.extend(bytes);
    }
}

// ---------------------------------------------------------------------------
// Laws of the transition function.
// ---------------------------------------------------------------------------

/// With fewer than 64 buffered bits, a parse attempt while searching for a
/// synchronization word or awaiting the tail-and-header window asks for more
/// data and leaves the decoder unchanged.
pub proof fn lemma_parse_needs_data(st: StateModel, s: Seq<bool>)
    requires
        s.len() < 64,
        st is NewMessage || st is AField,
    ensures
        step_model(st, s) == (st, s, OutcomeModel::MoreData),
{
}

/// How many transitions a state can still make on an unchanged stream.
pub open spec fn state_rank(st: StateModel) -> nat {
    match st {
        StateModel::BField { .. } => 1,
        _ => 0,
    }
}

/// A step that is not starved strictly shrinks the stream, or keeps it and
/// lowers the state's rank.
proof fn lemma_step_progress(st: StateModel, s: Seq<bool>)
    requires
        !(step_model(st, s).2 is MoreData),
    ensures
        ({
            let (st2, t, _) = step_model(st, s);
            t.len() < s.len() || (t.len() == s.len() && state_rank(st2) < state_rank(st))
        }),
{
    match st {
        StateModel::NewMessage => {
            lemma_scan_from(s, 0);
        }
        StateModel::AField { .. } => {
        }
        StateModel::BField { .. } => {
        }
    }
}

/// Parse until the decoder is starved, collecting the packets that came out:
/// the final state, the remaining bits, and the packets in order.
pub open spec fn drain(st: StateModel, s: Seq<bool>) -> (StateModel, Seq<bool>, Seq<PacketModel>)
    decreases s.len(), state_rank(st),
    via drain_decreases
{
    let (st2, t, out) = step_model(st, s);
    match out {
        OutcomeModel::MoreData => (st2, t, Seq::empty()),
        OutcomeModel::Partial => drain(st2, t),
        OutcomeModel::Full(p) => {
            let (st3, u, ps) = drain(st2, t);
            (st3, u, seq![p] + ps)
        }
    }
}

#[via_fn]
proof fn drain_decreases(st: StateModel, s: Seq<bool>) {
    if !(step_model(st, s).2 is MoreData) {
        lemma_step_progress(st, s);
    }
}

/// A scan that succeeds is unaffected by bytes that arrive later.
proof fn lemma_scan_extend(s: Seq<bool>, e: Seq<bool>, k: nat)
    requires
        scan_from(s, k) is Some,
    ensures
        scan_from(s + e, k) == scan_from(s, k),
    decreases s.len() - k,
{
    assert(k + 64 <= s.len());
    assert((s + e).subrange(k as int, k as int + 64) =~= s.subrange(k as int, k as int + 64));
    if !sync_matches(window_at(s, k as int)) {
        lemma_scan_extend(s, e, k + 1);
    }
}

/// Scanning from an offset is scanning the suffix.
proof fn lemma_scan_shift(u: Seq<bool>, q: nat, k: nat)
    requires
        q <= u.len(),
    ensures
        scan_from(u, (q + k) as nat) == match scan_from(u.skip(q as int), k) {
            Some(p) => Some((q + p) as nat),
            None => None::<nat>,
        },
    decreases u.len() - q - k,
{
    let v = u.skip(q as int);
    if q + k + 64 <= u.len() {
        assert(v.subrange(k as int, k as int + 64) =~= u.subrange(
            q as int + k as int,
            q as int + k as int + 64,
        ));
        if !sync_matches(window_at(u, q as int + k as int)) {
            lemma_scan_shift(u, q, k + 1);
        }
    }
}

/// Positions known not to match can be scanned past.
proof fn lemma_scan_past(u: Seq<bool>, i: nat, k: nat)
    requires
        i <= k,
        forall|p: int| i <= p < k ==> !sync_matches(window_at(u, p)),
    ensures
        scan_from(u, i) == scan_from(u, k),
    decreases k - i,
{
    if i < k {
        if i + 64 > u.len() {
            assert(scan_from(u, i) is None);
            assert(scan_from(u, k) is None);
        } else {
            lemma_scan_past(u, i + 1, k);
        }
    }
}

/// A step that makes progress is unaffected by bytes that arrive later.
pub proof fn lemma_step_extend(st: StateModel, s: Seq<bool>, e: Seq<bool>)
    requires
        !(step_model(st, s).2 is MoreData),
    ensures
        step_model(st, s + e) == (
            step_model(st, s).0,
            step_model(st, s).1 + e,
            step_model(st, s).2,
        ),
{
    match st {
        StateModel::NewMessage => {
            match scan_from(s, 0) {
                Some(p) => {
                    lemma_scan_from(s, 0);
                    lemma_scan_extend(s, e, 0);
                    assert((s + e).subrange(p as int, p as int + 64) =~= s.subrange(
                        p as int,
                        p as int + 64,
                    ));
                    assert((s + e).skip(p as int + 64) =~= s.skip(p as int + 64) + e);
                }
                None => {
                    assert(false);
                }
            }
        }
        StateModel::AField { .. } => {
            assert forall|j: int| 0 <= j < 8 implies byte_at(s + e, j) == byte_at(s, j) by {
                assert((s + e).subrange(8 * j, 8 * j + 8) =~= s.subrange(8 * j, 8 * j + 8));
            };
            assert(window_bytes(s + e) =~= window_bytes(s));
            assert((s + e).skip(64) =~= s.skip(64) + e);
        }
        StateModel::BField { sync, header, tail, length } => {
            assert(length <= s.len());
            assert((s + e).take(length as int) =~= s.take(length as int));
            assert((s + e).skip(length as int) =~= s.skip(length as int) + e);
        }
    }
}

/// Where every window before position `k` fails to match, draining the
/// stream and draining its suffix from `k` agree.
proof fn lemma_drain_nm_skip(u: Seq<bool>, k: int)
    requires
        0 <= k,
        k + 63 <= u.len(),
        forall|p: int| 0 <= p < k ==> !sync_matches(window_at(u, p)),
    ensures
        drain(StateModel::NewMessage, u) == drain(StateModel::NewMessage, u.skip(k)),
{
    if k == 0 {
        assert(u.skip(0) =~= u);
    } else {
        let v = u.skip(k);
        lemma_scan_past(u, 0, k as nat);
        lemma_scan_shift(u, k as nat, 0);
        assert(64 <= u.len());
        match scan_from(v, 0) {
            Some(p) => {
                lemma_scan_from(v, 0);
                assert(scan_from(u, 0) == Some((k + p) as nat));
                assert(v.subrange(p as int, p as int + 64) =~= u.subrange(
                    k + p,
                    k + p + 64,
                ));
                assert(v.skip(p as int + 64) =~= u.skip(k + p + 64));
                lemma_scan_from(u, 0);
            }
            None => {
                assert(scan_from(u, 0) is None);
                if v.len() < 64 {
                    assert(v.len() == 63);
                    assert(u.skip(u.len() - 63) == v);
                } else {
                    assert(v.skip(v.len() - 63) =~= u.skip(u.len() - 63));
                }
            }
        }
    }
}

/// A drained decoder is quiescent: one more parse attempt only asks for more
/// data and moves nothing.
pub proof fn lemma_drain_quiescent(st: StateModel, s: Seq<bool>)
    ensures
        ({
            let (st1, s1, o1) = drain(st, s);
            step_model(st1, s1) == (st1, s1, OutcomeModel::MoreData)
        }),
    decreases s.len(), state_rank(st),
{
    let (st2, t, out) = step_model(st, s);
    if out is MoreData {
        match st {
            StateModel::NewMessage => {
                if s.len() >= 64 {
                    assert(t.len() == 63);
                }
            }
            StateModel::AField { .. } => {
            }
            StateModel::BField { .. } => {
            }
        }
    } else {
        lemma_step_progress(st, s);
        lemma_drain_quiescent(st2, t);
    }
}

/// Parsing to quiescence, then receiving more bytes and parsing again,
/// yields the same final state and the same packets, in order, as parsing
/// the whole stream at once.
pub proof fn lemma_drain_extend(st: StateModel, s: Seq<bool>, e: Seq<bool>)
    ensures
        ({
            let (st1, s1, o1) = drain(st, s);
            let (st2, s2, o2) = drain(st1, s1 + e);
            drain(st, s + e) == (st2, s2, o1 + o2)
        }),
    decreases s.len(), state_rank(st),
{
    let (stp, t, out) = step_model(st, s);
    let (st1, s1, o1) = drain(st, s);
    let (st2, s2, o2) = drain(st1, s1 + e);
    match out {
        OutcomeModel::MoreData => {
            assert(st1 == stp && s1 == t && o1 == Seq::<PacketModel>::empty());
            match st {
                StateModel::NewMessage => {
                    if s.len() < 64 {
                        assert(s1 + e == s + e);
                    } else {
                        lemma_scan_from(s, 0);
                        let k = s.len() - 63;
                        assert forall|p: int| 0 <= p < k implies !sync_matches(
                            window_at(s + e, p),
                        ) by {
                            assert((s + e).subrange(p, p + 64) =~= s.subrange(p, p + 64));
                            assert(p <= p && p + 64 <= s.len());
                            assert(!sync_matches(window_at(s, p)));
                        };
                        lemma_drain_nm_skip(s + e, k);
                        assert((s + e).skip(k) =~= t + e);
                    }
                }
                StateModel::AField { .. } => {
                    assert(s1 + e == s + e);
                }
                StateModel::BField { .. } => {
                    assert(s1 + e == s + e);
                }
            }
            assert(o1 + o2 =~= o2);
        }
        OutcomeModel::Partial => {
            lemma_step_progress(st, s);
            lemma_step_extend(st, s, e);
            lemma_drain_extend(stp, t, e);
        }
        OutcomeModel::Full(pk) => {
            lemma_step_progress(st, s);
            lemma_step_extend(st, s, e);
            lemma_drain_extend(stp, t, e);
            let (a, b, ps) = drain(stp, t);
            let (a2, b2, ps2) = drain(a, b + e);
            assert(seq![pk] + (ps + ps2) =~= (seq![pk] + ps) + ps2);
        }
    }
}

/// The bytes of a list of chunks, in order.
pub open spec fn concat_bytes(chunks: Seq<Seq<u8>>) -> Seq<u8>
    decreases chunks.len(),
{
    if chunks.len() == 0 {
        Seq::empty()
    } else {
        chunks[0] + concat_bytes(chunks.skip(1))
    }
}

/// Feed the chunks one at a time, parsing to quiescence after each.
pub open spec fn feed_chunks(st: StateModel, s: Seq<bool>, chunks: Seq<Seq<u8>>) -> (
    StateModel,
    Seq<bool>,
    Seq<PacketModel>,
)
    decreases chunks.len(),
{
    if chunks.len() == 0 {
        (st, s, Seq::empty())
    } else {
        let (st1, s1, o1) = drain(st, s + stream_bits(chunks[0]));
        let (st2, s2, o2) = feed_chunks(st1, s1, chunks.skip(1));
        (st2, s2, o1 + o2)
    }
}

/// Chunk-size independence: however a byte sequence is cut into chunks, a
/// quiescent decoder fed chunk by chunk ends in the same state, with the
/// same remaining bits, and emits the same packets in the same order as one
/// fed the whole sequence at once.
pub proof fn lemma_chunk_independence(st: StateModel, s: Seq<bool>, chunks: Seq<Seq<u8>>)
    requires
        step_model(st, s) == (st, s, OutcomeModel::MoreData),
    ensures
        feed_chunks(st, s, chunks) == drain(st, s + stream_bits(concat_bytes(chunks))),
    decreases chunks.len(),
{
    if chunks.len() == 0 {
        assert(stream_bits(Seq::empty()) =~= Seq::<bool>::empty());
        assert(s + stream_bits(concat_bytes(chunks)) =~= s);
    } else {
        let c0 = chunks[0];
        let rest = chunks.skip(1);
        let (st1, s1, o1) = drain(st, s + stream_bits(c0));
        lemma_drain_quiescent(st, s + stream_bits(c0));
        lemma_chunk_independence(st1, s1, rest);
        lemma_drain_extend(st, s + stream_bits(c0), stream_bits(concat_bytes(rest)));
        lemma_stream_bits_concat(c0, concat_bytes(rest));
        assert((s + stream_bits(c0)) + stream_bits(concat_bytes(rest)) =~= s + stream_bits(
            concat_bytes(chunks),
        ));
    }
}


} // verus!
