use vstd::arithmetic::power2::pow2;
use vstd::prelude::*;

verus! {

/// 24-bit synchronization word of Fixed Part (base station) transmissions.
pub const FP_SYNC: u32 = 0xAAE98A;
/// 24-bit synchronization word of Portable Part (handset) transmissions.
pub const PP_SYNC: u32 = 0x551675;
/// Generator polynomial of the DECT R-CRC.
pub const GP: u16 = 0x0589;

// ---------------------------------------------------------------------------
// Bit-level model of a byte stream.
// ---------------------------------------------------------------------------

/// Bit `j` of byte `b`, where bit 0 is the most significant bit.
pub open spec fn byte_bit(b: u8, j: int) -> bool {
    (b >> ((7 - j) as u8)) & 1 == 1
}

/// All bits of a byte sequence, most significant bit of each byte first.
pub open spec fn stream_bits(bytes: Seq<u8>) -> Seq<bool> {
    Seq::new(bytes.len() * 8, |i: int| byte_bit(bytes[i / 8], i % 8))
}

/// The value of a bit string read most significant bit first.
pub open spec fn bits_val(s: Seq<bool>) -> nat
    decreases s.len(),
{
    if s.len() == 0 {
        0
    } else {
        2 * bits_val(s.drop_last()) + (if s.last() {
            1nat
        } else {
            0nat
        })
    }
}

/// A bit string of length `n` has a value below `2^n`.
pub proof fn lemma_bits_val_bound(s: Seq<bool>)
    ensures
        bits_val(s) < pow2(s.len()),
    decreases s.len(),
{
    if s.len() == 0 {
        vstd::arithmetic::power2::lemma2_to64();
    } else {
        lemma_bits_val_bound(s.drop_last());
        vstd::arithmetic::power2::lemma_pow2_unfold(s.len());
    }
}

// ---------------------------------------------------------------------------
// The R-CRC engine.
// ---------------------------------------------------------------------------

/// One step of the bit-serial R-CRC: shift the incoming bit into the register,
/// folding in the generator polynomial whenever the top bit falls out set.
pub open spec fn crc_step(c: u16, b: bool) -> u16 {
    if c & 0x8000 == 0 {
        (c << 1) | (if b {
            1u16
        } else {
            0u16
        })
    } else {
        ((c << 1) | (if b {
            1u16
        } else {
            0u16
        })) ^ GP
    }
}

/// Fold a whole bit string into the register, first bit first.
pub open spec fn crc_fold(c: u16, s: Seq<bool>) -> u16
    decreases s.len(),
{
    if s.len() == 0 {
        c
    } else {
        crc_fold(crc_step(c, s[0]), s.skip(1))
    }
}

/// The R-CRC of an 8-byte block: the first two bytes seed the register, the
/// remaining six are folded in bit by bit, and the result is inverted in its
/// lowest bit.  A block is valid exactly when this is zero.
pub open spec fn crc_spec(block: Seq<u8>) -> u16 {
    crc_fold((((block[0] as u16) << 8) | (block[1] as u16)), stream_bits(block.skip(2))) ^ 1
}

pub proof fn lemma_crc_fold_push(c: u16, s: Seq<bool>, b: bool)
    ensures
        crc_fold(c, s.push(b)) == crc_step(crc_fold(c, s), b),
    decreases s.len(),
{
    reveal_with_fuel(crc_fold, 3);
    if s.len() == 0 {
        assert(s.push(b)[0] == b);
        assert(s.push(b).skip(1) =~= Seq::<bool>::empty());
    } else {
        assert(s.push(b)[0] == s[0]);
        assert(s.push(b).skip(1) =~= s.skip(1).push(b));
        lemma_crc_fold_push(crc_step(c, s[0]), s.skip(1), b);
    }
}

/// The 16-bit R-CRC check.
pub trait Rcrc {
    /// What the check computes, as a mathematical function.
    spec fn crc_model(&self) -> u16;

    fn crc(&self) -> (r: u16)
        ensures
            r == self.crc_model(),
    ;
}

impl Rcrc for [u8; 8] {
    open spec fn crc_model(&self) -> u16 {
        crc_spec(self@)
    }

    fn crc(&self) -> (r: u16) {
        let mut crc: u16 = ((self[0] as u16) << 8) | (self[1] as u16);
        let ghost seed = crc;
        let ghost data = stream_bits(self@.skip(2));
        let mut y: usize = 0;
        while y < 6
            invariant
                y <= 6,
                data == stream_bits(self@.skip(2)),
                data.len() == 48,
                crc == crc_fold(seed, data.take(8 * y)),
            decreases 6 - y,
        {
            let byte: u8 = self[2 + y];
            let mut next: u8 = byte;
            let mut x: usize = 0;
            proof {
                assert(byte << 0usize == byte) by (bit_vector);
            }
            while x < 8
                invariant
                    y < 6,
                    x <= 8,
                    byte == self@.skip(2)[y as int],
                    next == byte << x,
                    data == stream_bits(self@.skip(2)),
                    data.len() == 48,
                    crc == crc_fold(seed, data.take(8 * y + x)),
                decreases 8 - x,
        {
                let b: u16 = if next & 0x80 == 0 {
                    0
                } else {
                    1
                };
                proof {
                    let i = 8 * y + x;
                    assert(i / 8 == y as int && i % 8 == x as int) by (nonlinear_arith)
                        requires
                            0 <= x < 8,
                            0 <= y,
                            i == 8 * y + x,
                    ;
                    assert(data[8 * y + x] == byte_bit(byte, x as int));
                    assert((next & 0x80 != 0) <==> ((byte >> ((7 - x) as u8)) & 1 == 1))
                        by (bit_vector)
                        requires
                            next == byte << x,
                            x < 8usize,
                    ;
                    assert(byte_bit(byte, x as int) == ((byte >> ((7 - x) as u8)) & 1 == 1));
                    assert(data.take(8 * y + x + 1) =~= data.take(8 * y + x).push(
                        data[8 * y + x],
                    ));
                    lemma_crc_fold_push(seed, data.take(8 * y + x), data[8 * y + x]);
                }
                if crc & 0x8000 == 0 {
                    crc = (crc << 1) | b;
                } else {
                    crc = ((crc << 1) | b) ^ GP;
                }
                next = next << 1;
                proof {
                    assert((byte << x) << 1 == byte << (x + 1)) by (bit_vector)
                        requires
                            x < 8usize,
                    ;
                }
                x += 1;
            }
            y += 1;
        }
        proof {
            assert(data.take(48) =~= data);
        }
        crc ^ 1
    }
}

// ---------------------------------------------------------------------------
// Inverting the R-CRC: choosing a seed that makes a block check out.
// ---------------------------------------------------------------------------

/// The inverse of `crc_step`: the register value that `crc_step` maps to `c`
/// under incoming bit `b`.
pub open spec fn crc_unstep(c: u16, b: bool) -> u16 {
    if (c & 1) == (if b {
        1u16
    } else {
        0u16
    }) {
        c >> 1u16
    } else {
        ((c ^ GP) >> 1u16) | 0x8000
    }
}

/// Running `crc_unstep` backwards over a whole bit string, starting from the
/// register value 1 that the final inversion turns into 0.
pub open spec fn unfold_seed(d: Seq<bool>) -> u16
    decreases d.len(),
{
    if d.len() == 0 {
        1u16
    } else {
        crc_unstep(unfold_seed(d.skip(1)), d[0])
    }
}

proof fn lemma_step_unstep(c: u16, b: bool)
    ensures
        crc_step(crc_unstep(c, b), b) == c,
{
    if b {
        assert(crc_step(crc_unstep(c, true), true) == c) by (bit_vector);
    } else {
        assert(crc_step(crc_unstep(c, false), false) == c) by (bit_vector);
    }
}

proof fn lemma_unfold_seed(d: Seq<bool>)
    ensures
        crc_fold(unfold_seed(d), d) == 1,
    decreases d.len(),
{
    if d.len() == 0 {
    } else {
        lemma_unfold_seed(d.skip(1));
        lemma_step_unstep(unfold_seed(d.skip(1)), d[0]);
    }
}

/// The 16-bit seed under which the given 6-byte tail-and-header block passes
/// the R-CRC check.
pub fn seed_for(block: &[u8; 6]) -> (seed: u16)
    ensures
        seed == unfold_seed(stream_bits(block@)),
        crc_spec(seq![(seed >> 8) as u8, (seed as u8)].add(block@)) == 0,
{
    let ghost data = stream_bits(block@);
    let mut c: u16 = 1;
    let mut i: usize = 48;
    proof {
        assert(data.skip(48) =~= Seq::<bool>::empty());
    }
    while i > 0
        invariant
            i <= 48,
            data == stream_bits(block@),
            data.len() == 48,
            c == unfold_seed(data.skip(i as int)),
        decreases i,
    {
        i -= 1;
        let bit: bool = (block[i / 8] >> ((7 - i % 8) as u8)) & 1 == 1;
        proof {
            assert(data.skip(i as int)[0] == data[i as int]);
            assert(data.skip(i as int).skip(1) =~= data.skip(i as int + 1));
            assert(bit == data[i as int]);
        }
        c = if (c & 1) == (if bit {
            1u16
        } else {
            0u16
        }) {
            c >> 1u16
        } else {
            ((c ^ GP) >> 1u16) | 0x8000
        };
    }
    proof {
        assert(data.skip(0) =~= data);
        lemma_unfold_seed(data);
        let h = (c >> 8) as u8;
        let l = c as u8;
        assert((((h as u16) << 8) | (l as u16)) == c) by (bit_vector)
            requires
                h == (c >> 8) as u8,
                l == c as u8,
        ;
        let full = seq![(c >> 8) as u8, (c as u8)].add(block@);
        assert(full.skip(2) =~= block@);
        assert(full[0] == h && full[1] == l);
        assert(1u16 ^ 1 == 0) by (bit_vector);
        assert(crc_spec(full) == 0);
    }
    c
}

/// For every 6-byte tail-and-header block there is a 16-bit seed under which
/// the R-CRC of seed-then-block is zero.
pub proof fn lemma_crc_seed_exists(block: Seq<u8>)
    requires
        block.len() == 6,
    ensures
        exists|seed: u16| crc_spec(seq![(seed >> 8) as u8, (seed as u8)].add(block)) == 0,
{
    let seed = unfold_seed(stream_bits(block));
    let full = seq![(seed >> 8) as u8, (seed as u8)].add(block);
    assert(full.skip(2) =~= block);
    lemma_unfold_seed(stream_bits(block));
    let h = (seed >> 8) as u8;
    let l = seed as u8;
    assert((((h as u16) << 8) | (l as u16)) == seed) by (bit_vector)
        requires
            h == (seed >> 8) as u8,
            l == seed as u8,
    ;
    assert(full[0] == h && full[1] == l);
    assert(1u16 ^ 1 == 0) by (bit_vector);
    assert(crc_spec(full) == 0);
}

// ---------------------------------------------------------------------------
// Field model: tail identification and payload-size classes.
// ---------------------------------------------------------------------------

/// Tail identification of frames sent by the fixed part (ETSI EN 300 175-3,
/// clause 7.1).
#[derive(Debug, Clone, Copy, PartialEq, Eq)]
pub enum TailIdentificationRFP {
    CtDataPktNum0,
    CtDataPktNum1,
    NtIdentitiesInfoBearer,
    NtIdentitiesInfo,
    QtMultiFrameSyncAndSysInfo,
    CombinedCoding,
    MtMACLayerControl,
    MtPagingTail,
}

/// The fixed-part tail identification encoded by the low three bits of `v`.
pub open spec fn tail_rfp_of(v: u8) -> TailIdentificationRFP {
    let m = v & 7;
    if m == 0 {
        TailIdentificationRFP::CtDataPktNum0
    } else if m == 1 {
        TailIdentificationRFP::CtDataPktNum1
    } else if m == 2 {
        TailIdentificationRFP::NtIdentitiesInfoBearer
    } else if m == 3 {
        TailIdentificationRFP::NtIdentitiesInfo
    } else if m == 4 {
        TailIdentificationRFP::QtMultiFrameSyncAndSysInfo
    } else if m == 5 {
        TailIdentificationRFP::CombinedCoding
    } else if m == 6 {
        TailIdentificationRFP::MtMACLayerControl
    } else {
        TailIdentificationRFP::MtPagingTail
    }
}

impl From<u8> for TailIdentificationRFP {
    /// Total over all byte values: the field is masked to its 3-bit width.
    fn from(ident: u8) -> (r: Self) {
        let m = ident & 7;
        proof {
            assert(ident & 7 < 8) by (bit_vector);
        }
        if m == 0 {
            TailIdentificationRFP::CtDataPktNum0
        } else if m == 1 {
            TailIdentificationRFP::CtDataPktNum1
        } else if m == 2 {
            TailIdentificationRFP::NtIdentitiesInfoBearer
        } else if m == 3 {
            TailIdentificationRFP::NtIdentitiesInfo
        } else if m == 4 {
            TailIdentificationRFP::QtMultiFrameSyncAndSysInfo
        } else if m == 5 {
            TailIdentificationRFP::CombinedCoding
        } else if m == 6 {
            TailIdentificationRFP::MtMACLayerControl
        } else {
            TailIdentificationRFP::MtPagingTail
        }
    }
}

impl vstd::std_specs::convert::FromSpecImpl<u8> for TailIdentificationRFP {
    open spec fn obeys_from_spec() -> bool {
        true
    }

    open spec fn from_spec(v: u8) -> Self {
        tail_rfp_of(v)
    }
}

/// Tail identification of frames sent by the portable part (ETSI EN 300
/// 175-3, clause 7.1).
#[derive(Debug, Clone, Copy, PartialEq, Eq)]
pub enum TailIdentificationPP {
    CtDataPktNum0,
    CtDataPktNum1,
    NtULE,
    NtIdentitiesInfo,
    QtMultiFrameSyncAndSysInfo,
    CombinedCoding,
    MtMACLayerControl,
    MtFirstPPTransmission,
}

/// The portable-part tail identification encoded by the low three bits of `v`.
pub open spec fn tail_pp_of(v: u8) -> TailIdentificationPP {
    let m = v & 7;
    if m == 0 {
        TailIdentificationPP::CtDataPktNum0
    } else if m == 1 {
        TailIdentificationPP::CtDataPktNum1
    } else if m == 2 {
        TailIdentificationPP::NtULE
    } else if m == 3 {
        TailIdentificationPP::NtIdentitiesInfo
    } else if m == 4 {
        TailIdentificationPP::QtMultiFrameSyncAndSysInfo
    } else if m == 5 {
        TailIdentificationPP::CombinedCoding
    } else if m == 6 {
        TailIdentificationPP::MtMACLayerControl
    } else {
        TailIdentificationPP::MtFirstPPTransmission
    }
}

impl From<u8> for TailIdentificationPP {
    /// Total over all byte values: the field is masked to its 3-bit width.
    fn from(ident: u8) -> (r: Self) {
        let m = ident & 7;
        proof {
            assert(ident & 7 < 8) by (bit_vector);
        }
        if m == 0 {
            TailIdentificationPP::CtDataPktNum0
        } else if m == 1 {
            TailIdentificationPP::CtDataPktNum1
        } else if m == 2 {
            TailIdentificationPP::NtULE
        } else if m == 3 {
            TailIdentificationPP::NtIdentitiesInfo
        } else if m == 4 {
            TailIdentificationPP::QtMultiFrameSyncAndSysInfo
        } else if m == 5 {
            TailIdentificationPP::CombinedCoding
        } else if m == 6 {
            TailIdentificationPP::MtMACLayerControl
        } else {
            TailIdentificationPP::MtFirstPPTransmission
        }
    }
}

impl vstd::std_specs::convert::FromSpecImpl<u8> for TailIdentificationPP {
    open spec fn obeys_from_spec() -> bool {
        true
    }

    open spec fn from_spec(v: u8) -> Self {
        tail_pp_of(v)
    }
}

/// Payload-size class announced in the header's B-field identification bits.
#[derive(Debug, Clone, Copy, PartialEq, Eq)]
pub enum BFieldIdentification {
    NoValidErrorDetectChanData,
    NoValidINChannelData,
    DoubleSlotRequired,
    NotAllCLFPacketNum1,
    HalfSlotRequired,
    LongSlotRequiredJ640,
    LongSlotRequiredJ672,
    NoSlotRequired,
}

/// The payload-size class encoded by the low three bits of `v`.
pub open spec fn b_field_of(v: u8) -> BFieldIdentification {
    let m = v & 7;
    if m == 0 {
        BFieldIdentification::NoValidErrorDetectChanData
    } else if m == 1 {
        BFieldIdentification::NoValidINChannelData
    } else if m == 2 {
        BFieldIdentification::DoubleSlotRequired
    } else if m == 3 {
        BFieldIdentification::NotAllCLFPacketNum1
    } else if m == 4 {
        BFieldIdentification::HalfSlotRequired
    } else if m == 5 {
        BFieldIdentification::LongSlotRequiredJ640
    } else if m == 6 {
        BFieldIdentification::LongSlotRequiredJ672
    } else {
        BFieldIdentification::NoSlotRequired
    }
}

impl From<u8> for BFieldIdentification {
    /// Total over all byte values: the field is masked to its 3-bit width.
    fn from(ident: u8) -> (r: Self) {
        let m = ident & 7;
        proof {
            assert(ident & 7 < 8) by (bit_vector);
        }
        if m == 0 {
            BFieldIdentification::NoValidErrorDetectChanData
        } else if m == 1 {
            BFieldIdentification::NoValidINChannelData
        } else if m == 2 {
            BFieldIdentification::DoubleSlotRequired
        } else if m == 3 {
            BFieldIdentification::NotAllCLFPacketNum1
        } else if m == 4 {
            BFieldIdentification::HalfSlotRequired
        } else if m == 5 {
            BFieldIdentification::LongSlotRequiredJ640
        } else if m == 6 {
            BFieldIdentification::LongSlotRequiredJ672
        } else {
            BFieldIdentification::NoSlotRequired
        }
    }
}

impl vstd::std_specs::convert::FromSpecImpl<u8> for BFieldIdentification {
    open spec fn obeys_from_spec() -> bool {
        true
    }

    open spec fn from_spec(v: u8) -> Self {
        b_field_of(v)
    }
}

/// The number of payload bits a payload-size class announces.
pub open spec fn b_field_len(ident: BFieldIdentification) -> nat {
    match ident {
        BFieldIdentification::DoubleSlotRequired => 100,
        BFieldIdentification::HalfSlotRequired => 10,
        BFieldIdentification::NoSlotRequired => 0,
        _ => 40,
    }
}

/// Payload length as a pure function of the payload-size class: 100 bits for
/// a double slot, 10 for a half slot, none when no slot is required, and the
/// default 40 bits otherwise.
pub fn b_field_length(ident: BFieldIdentification) -> (n: usize)
    ensures
        n == b_field_len(ident),
{
    match ident {
        BFieldIdentification::DoubleSlotRequired => 100,
        BFieldIdentification::HalfSlotRequired => 10,
        BFieldIdentification::NoSlotRequired => 0,
        _ => 40,
    }
}

/// Which of the two tail-identification tables a value was read against.
#[derive(Debug, Clone, Copy, PartialEq, Eq)]
pub enum TailIdentification {
    Rfp(TailIdentificationRFP),
    Pp(TailIdentificationPP),
}

/// The decoded fields of the A-field header byte.
#[derive(Debug, Clone, Copy, PartialEq, Eq)]
pub struct MACHeader {
    pub tail_ident: TailIdentification,
    pub q1_bck_bit: bool,
    pub b_field_ident: BFieldIdentification,
    pub q2_bit: bool,
}

/// The header decoded from a header byte: bits 7-5 the tail identification
/// (portable-part table), bit 4 the q1/bck flag, bits 3-1 the payload-size
/// class, bit 0 the q2 flag.
pub open spec fn header_of(b: u8) -> MACHeader {
    MACHeader {
        tail_ident: TailIdentification::Pp(tail_pp_of(b >> 5)),
        q1_bck_bit: (b >> 4) & 1 == 1,
        b_field_ident: b_field_of((b >> 1) & 7),
        q2_bit: b & 1 == 1,
    }
}

/// A fully assembled MAC packet: header, the five tail bytes, and the
/// optional payload bits.
#[derive(Debug, Clone, PartialEq, Eq)]
pub struct MACPacket {
    pub header: MACHeader,
    pub tail: [u8; 5],
    pub b_field: Option<Vec<bool>>,
}

// DECT defines four tail message families: N, Q, P, M.
#[derive(Debug, Copy, Clone, PartialEq, Eq)]
pub struct NtIdentifiesInfo(pub u64);

#[derive(Debug, Copy, Clone, PartialEq, Eq)]
pub struct QtMultiFrameAndSysInfo(pub u64);

#[derive(Debug, Copy, Clone, PartialEq, Eq)]
pub struct PtPagingTail(pub u64);

#[derive(Debug, Copy, Clone, PartialEq, Eq)]
pub struct MtMACControl(pub u64);

#[derive(Debug, Clone, PartialEq, Eq)]
pub enum TailMessage {
    Nt(NtIdentifiesInfo),
    Qt(QtMultiFrameAndSysInfo),
    Pt(PtPagingTail),
    Mt(MtMACControl),
}

/// Header of an M-type (MAC control) tail message.
#[derive(Debug, Clone, Copy, PartialEq, Eq)]
pub enum MtMACControlHeader {
    BasicConnectionControl,
    AdvConnectionControl,
    MACLayerTestMessages,
    QualityControl,
    BrdAndConnlessServices,
    EncryptionControl,
    FirstBearerRequest,
    Escape,
    TARIMessage,
    REPConnectionControl,
    AdvConnectionControl2,
    Reserved,
}

} // verus!
