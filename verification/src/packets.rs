//! A binary protocol decoder: hex text to bytes, bytes to a bit stream, and
//! the bit stream to a tree of versioned packets that evaluates to a number.

use vstd::prelude::*;
use vstd::string::*;

verus! {

/// Bit `i` of the byte buffer, most significant bit of each byte first.
pub open spec fn bit_at(bytes: Seq<u8>, i: int) -> bool
    recommends
        0 <= i < bytes.len() * 8,
{
    (bytes[i / 8] >> (7 - (i % 8)) as u8) & 1 == 1
}

/// The value of the `n` bits starting at `pos`, most significant first.
pub open spec fn bits_val(bytes: Seq<u8>, pos: int, n: nat) -> nat
    recommends
        0 <= pos && pos + n <= bytes.len() * 8,
    decreases n,
{
    if n == 0 {
        0
    } else {
        bits_val(bytes, pos, (n - 1) as nat) * 2 + if bit_at(bytes, pos + n - 1) {
            1nat
        } else {
            0nat
        }
    }
}

/// Two to the `n`th.
pub open spec fn pow2n(n: nat) -> nat
    decreases n,
{
    if n == 0 {
        1
    } else {
        2 * pow2n((n - 1) as nat)
    }
}

/// A bit-field value fits in its width.
proof fn lemma_bits_val_bound(bytes: Seq<u8>, pos: int, n: nat)
    ensures
        bits_val(bytes, pos, n) < pow2n(n),
    decreases n,
{
    if n > 0 {
        lemma_bits_val_bound(bytes, pos, (n - 1) as nat);
    }
}

/// Failure of the packet decode: the bit stream ran out, or a literal value
/// did not fit the numeric range.
#[derive(Clone, Copy, Debug, PartialEq, Eq, Structural)]
pub struct DecodeError;

/// Read `n` bits from position `pos`, returning their value and the next
/// position; an error exactly when fewer than `n` bits remain.
#[verifier::rlimit(100)]
fn take_bits(bytes: &Vec<u8>, pos: usize, n: usize) -> (r: Result<(u64, usize), DecodeError>)
    requires
        n <= 32,
        bytes@.len() <= 0x1000_0000,
        pos <= bytes@.len() * 8,
    ensures
        match r {
            Ok((v, p2)) => {
                &&& pos + n <= bytes@.len() * 8
                &&& p2 == pos + n
                &&& v == bits_val(bytes@, pos as int, n as nat)
            },
            Err(_) => pos + n > bytes@.len() * 8,
        },
{
    let total = 8 * bytes.len();
    if total - pos < n {
        return Err(DecodeError);
    }
    let mut val: u64 = 0;
    let mut k: usize = 0;
    while k < n
        invariant
            n <= 32,
            pos + n <= bytes@.len() * 8,
            bytes@.len() <= 0x1000_0000,
            k <= n,
            val == bits_val(bytes@, pos as int, k as nat),
            val < pow2n(k as nat),
        decreases n - k,
    {
        let i = pos + k;
        let byte = bytes[i / 8];
        let bit = (byte >> (7 - (i % 8)) as u8) & 1;
        proof {
            assert(i / 8 < bytes@.len());
            assert((bit == 1) == bit_at(bytes@, pos + k as int));
            lemma_bits_val_bound(bytes@, pos as int, (k + 1) as nat);
            assert(pow2n((k + 1) as nat) <= pow2n(32)) by {
                lemma_pow2n_le((k + 1) as nat, 32);
            }
            assert(pow2n(32) == 0x1_0000_0000) by {
                reveal_with_fuel(pow2n, 33);
            }
        }
        val = val * 2 + if bit == 1 {
            1
        } else {
            0
        };
        k = k + 1;
    }
    Ok((val, pos + n))
}

/// Powers of two grow with the exponent.
proof fn lemma_pow2n_le(a: nat, b: nat)
    requires
        a <= b,
    ensures
        pow2n(a) <= pow2n(b),
    decreases b,
{
    if a < b {
        lemma_pow2n_le(a, (b - 1) as nat);
    }
}

/// The six-bit header of every packet: a version and a type.
#[derive(Debug, Copy, Clone, PartialEq, Eq, Structural)]
pub struct Header {
    pub version: u8,
    pub type_id: u8,
}

impl Header {
    /// Pack the two header fields.
    pub fn new(version: u8, type_id: u8) -> (h: Self)
        ensures
            h == (Header { version, type_id }),
    {
        Self { version, type_id }
    }
}

/// One decoded packet: its header, its exact bit length, and its payload.
#[derive(Debug, PartialEq, Eq)]
pub struct Packet {
    pub header: Header,
    pub length: u64,
    pub kind: PacketVariant,
}

/// A packet payload: a literal number, or the sub-packets of an operator.
#[derive(Debug, PartialEq, Eq)]
pub enum PacketVariant {
    Literal(u64),
    Operator(Vec<Packet>),
}

/// The groups of a literal payload are five bits each: a continuation bit,
/// then four value bits.  `g` groups from `q` are well formed when every
/// continuation bit but the last is set.
pub open spec fn lit_groups_wf(bytes: Seq<u8>, q: int, g: nat) -> bool {
    forall|k: int| 0 <= k < g ==> #[trigger] bit_at(bytes, q + 5 * k) == (k < g - 1)
}

/// The number carried by `g` literal groups starting at `q`.
pub open spec fn lit_groups_val(bytes: Seq<u8>, q: int, g: nat) -> nat
    decreases g,
{
    if g == 0 {
        0
    } else {
        lit_groups_val(bytes, q, (g - 1) as nat) * 16 + bits_val(bytes, q + 5 * (g - 1) + 1, 4)
    }
}

/// The packet `p` is the exact decode of the bits from `pos` to `end`.
pub open spec fn packet_at(bytes: Seq<u8>, pos: int, p: Packet, end: int) -> bool
    decreases p, 1int,
{
    &&& 0 <= pos
    &&& end <= bytes.len() * 8
    &&& end == pos + p.length
    &&& p.header.version == bits_val(bytes, pos, 3)
    &&& p.header.type_id == bits_val(bytes, pos + 3, 3)
    &&& match p.kind {
        PacketVariant::Literal(v) => {
            &&& p.header.type_id == 4
            &&& exists|g: nat|
                {
                    &&& g >= 1
                    &&& end == pos + 6 + 5 * g
                    &&& #[trigger] lit_groups_wf(bytes, pos + 6, g)
                    &&& v == lit_groups_val(bytes, pos + 6, g)
                }
        },
        PacketVariant::Operator(subs) => {
            &&& p.header.type_id != 4
            &&& subs@.len() >= 1
            &&& if !bit_at(bytes, pos + 6) {
                end == pos + 22 + bits_val(bytes, pos + 7, 15) && packets_at(
                    bytes,
                    pos + 22,
                    subs@,
                    0,
                    end,
                )
            } else {
                subs@.len() == bits_val(bytes, pos + 7, 11) && packets_at(
                    bytes,
                    pos + 18,
                    subs@,
                    0,
                    end,
                )
            }
        },
    }
}

/// The sub-packets from index `i` on decode the bits from `q` to `end`,
/// back to back.
pub open spec fn packets_at(bytes: Seq<u8>, q: int, subs: Seq<Packet>, i: int, end: int) -> bool
    recommends
        0 <= i <= subs.len(),
    decreases subs, (subs.len() - i),
{
    if i < 0 || i >= subs.len() {
        q == end
    } else {
        packet_at(bytes, q, subs[i], q + subs[i].length) && packets_at(
            bytes,
            q + subs[i].length,
            subs,
            i + 1,
            end,
        )
    }
}

/// Appending one more decoded packet extends a back-to-back run.
proof fn lemma_packets_at_snoc(
    bytes: Seq<u8>,
    q: int,
    subs: Seq<Packet>,
    i: int,
    m: int,
    p: Packet,
    e: int,
)
    requires
        0 <= i <= subs.len(),
        packets_at(bytes, q, subs, i, m),
        packet_at(bytes, m, p, e),
    ensures
        packets_at(bytes, q, subs.push(p), i, e),
    decreases subs.len() - i,
{
    if i == subs.len() {
        assert(q == m);
        assert(subs.push(p)[i] == p);
        assert(e == m + p.length);
        assert(packets_at(bytes, e, subs.push(p), i + 1, e));
    } else {
        let m1 = q + subs[i].length;
        lemma_packets_at_snoc(bytes, m1, subs, i + 1, m, p, e);
        assert(subs.push(p)[i] == subs[i]);
    }
}

impl Packet {
    /// Decode one packet starting at bit `pos`: the packet and the position
    /// just after it.  Whatever is returned is the exact decode of the
    /// consumed bits.
    pub fn parse(bytes: &Vec<u8>, pos: usize) -> (r: Result<(Packet, usize), DecodeError>)
        requires
            bytes@.len() <= 0x1000_0000,
            pos <= bytes@.len() * 8,
        ensures
            r matches Ok(pe) ==> {
                &&& packet_at(bytes@, pos as int, pe.0, pe.1 as int)
                &&& pos < pe.1 <= bytes@.len() * 8
            },
        decreases bytes@.len() * 8 - pos, 2int,
    {
        let (version, p1) = match take_bits(bytes, pos, 3) {
            Ok(x) => x,
            Err(e) => {
                return Err(e);
            },
        };
        let (type_id, p2) = match take_bits(bytes, p1, 3) {
            Ok(x) => x,
            Err(e) => {
                return Err(e);
            },
        };
        let header = Header::new(version as u8, type_id as u8);
        proof {
            lemma_bits_val_bound(bytes@, pos as int, 3);
            lemma_bits_val_bound(bytes@, pos + 3, 3);
            assert(pow2n(3) == 8) by {
                reveal_with_fuel(pow2n, 4);
            }
        }
        let (kind, p3) = match PacketVariant::parse(bytes, p2, header.type_id) {
            Ok(x) => x,
            Err(e) => {
                return Err(e);
            },
        };
        let length = (p3 - pos) as u64;
        proof {
            assert(p2 == pos + 6);
            let packet = Packet { header, length, kind };
            match kind {
                PacketVariant::Literal(v) => {
                    let g = choose|g: nat|
                        {
                            &&& g >= 1
                            &&& p3 == p2 + 5 * g
                            &&& #[trigger] lit_groups_wf(bytes@, p2 as int, g)
                            &&& v == lit_groups_val(bytes@, p2 as int, g)
                        };
                    assert(g >= 1 && p3 == pos + 6 + 5 * g && lit_groups_wf(bytes@, pos + 6, g)
                        && v == lit_groups_val(bytes@, pos + 6, g));
                },
                PacketVariant::Operator(_) => {},
            }
            assert(packet_at(bytes@, pos as int, packet, p3 as int));
        }
        Ok((Packet { header, length, kind }, p3))
    }
}

impl PacketVariant {
    /// Decode the payload of a packet whose header names type `id`, the
    /// header already consumed: bits from `pos` on.
    pub fn parse(bytes: &Vec<u8>, pos: usize, id: u8) -> (r: Result<
        (PacketVariant, usize),
        DecodeError,
    >)
        requires
            bytes@.len() <= 0x1000_0000,
            pos <= bytes@.len() * 8,
            pos >= 6,
        ensures
            r matches Ok(ke) ==> {
                &&& pos < ke.1 <= bytes@.len() * 8
                &&& match ke.0 {
                    PacketVariant::Literal(v) => id == 4 && exists|g: nat|
                        {
                            &&& g >= 1
                            &&& ke.1 == pos + 5 * g
                            &&& #[trigger] lit_groups_wf(bytes@, pos as int, g)
                            &&& v == lit_groups_val(bytes@, pos as int, g)
                        },
                    PacketVariant::Operator(subs) => {
                        &&& id != 4
                        &&& subs@.len() >= 1
                        &&& if !bit_at(bytes@, pos as int) {
                            ke.1 == pos + 16 + bits_val(bytes@, pos + 1, 15) && packets_at(
                                bytes@,
                                pos + 16,
                                subs@,
                                0,
                                ke.1 as int,
                            )
                        } else {
                            subs@.len() == bits_val(bytes@, pos + 1, 11) && packets_at(
                                bytes@,
                                pos + 12,
                                subs@,
                                0,
                                ke.1 as int,
                            )
                        }
                    },
                }
            },
        decreases bytes@.len() * 8 - pos, 1int,
    {
        if id == 4 {
            Self::parse_literal(bytes, pos)
        } else {
            Self::parse_operator(bytes, pos, id)
        }
    }

    /// Decode a literal payload: five-bit groups while the continuation bit
    /// stays set.
    fn parse_literal(bytes: &Vec<u8>, pos: usize) -> (r: Result<
        (PacketVariant, usize),
        DecodeError,
    >)
        requires
            bytes@.len() <= 0x1000_0000,
            pos <= bytes@.len() * 8,
        ensures
            r matches Ok(ke) ==> {
                &&& pos < ke.1 <= bytes@.len() * 8
                &&& ke.0 matches PacketVariant::Literal(v) && exists|g: nat|
                    {
                        &&& g >= 1
                        &&& ke.1 == pos + 5 * g
                        &&& #[trigger] lit_groups_wf(bytes@, pos as int, g)
                        &&& v == lit_groups_val(bytes@, pos as int, g)
                    }
            },
        decreases bytes@.len() * 8 - pos, 0int,
    {
        let mut val: u64 = 0;
        let mut cur = pos;
        let ghost mut g: nat = 0nat;
        loop
            invariant
                bytes@.len() <= 0x1000_0000,
                pos <= bytes@.len() * 8,
                cur == pos + 5 * g,
                cur <= bytes@.len() * 8,
                val == lit_groups_val(bytes@, pos as int, g),
                forall|k: int| 0 <= k < g ==> #[trigger] bit_at(bytes@, pos + 5 * k),
            decreases bytes@.len() * 8 - cur,
        {
            let (five, next) = match take_bits(bytes, cur, 5) {
                Ok(x) => x,
                Err(e) => {
                    return Err(e);
                },
            };
            let group = five & 0b1111;
            let cont = five & 0b1_0000 != 0;
            proof {
                lemma_bits_val_bound(bytes@, cur as int, 5);
                assert(pow2n(5) == 32) by {
                    reveal_with_fuel(pow2n, 6);
                }
                lemma_bits_val_shift(bytes@, cur as int, 4);
                assert(pow2n(4) == 16) by {
                    reveal_with_fuel(pow2n, 5);
                }
                let b0: nat = if bit_at(bytes@, cur as int) {
                    1
                } else {
                    0
                };
                let rest = bits_val(bytes@, cur + 1, 4);
                lemma_bits_val_bound(bytes@, cur + 1, 4);
                assert(five == 16 * b0 + rest);
                assert(five & 0b1111 == five % 16) by (bit_vector);
                assert((five & 0b1_0000 != 0) == (five >= 16)) by (bit_vector)
                    requires
                        five < 32,
                ;
                assert(five % 16 == rest);
                assert((five >= 16) == (b0 == 1));
                assert(group == bits_val(bytes@, cur + 1, 4));
                assert(cont == bit_at(bytes@, cur as int));
            }
            if val > (u64::MAX - 15) / 16 {
                // The literal does not fit the numeric range.
                return Err(DecodeError);
            }
            val = val * 16 + group;
            proof {
                g = g + 1;
                assert(cur + 1 == pos + 5 * (g - 1) + 1);
                assert(val == lit_groups_val(bytes@, pos as int, g));
            }
            if !cont {
                proof {
                    assert(lit_groups_wf(bytes@, pos as int, g)) by {
                        assert(forall|k: int|
                            0 <= k < g - 1 ==> #[trigger] bit_at(bytes@, pos + 5 * k));
                        assert(forall|k: int|
                            0 <= k < g - 1 ==> #[trigger] bit_at(bytes@, pos + 5 * k) == (k < g
                                - 1));
                        assert(!bit_at(bytes@, pos + 5 * (g - 1)));
                    }
                }
                return Ok((PacketVariant::Literal(val), next));
            }
            cur = next;
        }
    }

    /// Decode an operator payload: a length-type bit, then either a bit
    /// total or a packet count, then the sub-packets.
    fn parse_operator(bytes: &Vec<u8>, pos: usize, id: u8) -> (r: Result<
        (PacketVariant, usize),
        DecodeError,
    >)
        requires
            bytes@.len() <= 0x1000_0000,
            pos <= bytes@.len() * 8,
            pos >= 6,
            id != 4,
        ensures
            r matches Ok(ke) ==> {
                &&& pos < ke.1 <= bytes@.len() * 8
                &&& ke.0 matches PacketVariant::Operator(subs)
                &&& subs@.len() >= 1
                &&& if !bit_at(bytes@, pos as int) {
                    ke.1 == pos + 16 + bits_val(bytes@, pos + 1, 15) && packets_at(
                        bytes@,
                        pos + 16,
                        subs@,
                        0,
                        ke.1 as int,
                    )
                } else {
                    subs@.len() == bits_val(bytes@, pos + 1, 11) && packets_at(
                        bytes@,
                        pos + 12,
                        subs@,
                        0,
                        ke.1 as int,
                    )
                }
            },
        decreases bytes@.len() * 8 - pos, 0int,
    {
        let (length_type_id, p1) = match take_bits(bytes, pos, 1) {
            Ok(x) => x,
            Err(e) => {
                return Err(e);
            },
        };
        proof {
            assert(bits_val(bytes@, pos as int, 0) == 0);
            assert(bits_val(bytes@, pos as int, 1) == if bit_at(bytes@, pos as int) {
                1nat
            } else {
                0nat
            });
        }
        if length_type_id == 0 {
            let (total_len, start) = match take_bits(bytes, p1, 15) {
                Ok(x) => x,
                Err(e) => {
                    return Err(e);
                },
            };
            let mut packets: Vec<Packet> = Vec::new();
            let mut cur = start;
            loop
                invariant
                    bytes@.len() <= 0x1000_0000,
                    pos + 16 == start,
                    start <= cur <= bytes@.len() * 8,
                    pos >= 6,
                    packets_at(bytes@, start as int, packets@, 0, cur as int),
                    packets@.len() >= 1 ==> cur > start,
                    total_len == bits_val(bytes@, pos + 1, 15),
                    !bit_at(bytes@, pos as int),
                decreases bytes@.len() * 8 - cur,
            {
                let (packet, next) = match Packet::parse(bytes, cur) {
                    Ok(x) => x,
                    Err(e) => {
                        return Err(e);
                    },
                };
                proof {
                    lemma_packets_at_snoc(
                        bytes@,
                        start as int,
                        packets@,
                        0,
                        cur as int,
                        packet,
                        next as int,
                    );
                }
                packets.push(packet);
                cur = next;
                if (cur - start) as u64 == total_len {
                    return Ok((PacketVariant::Operator(packets), cur));
                }
            }
        } else {
            let (total_sub, start) = match take_bits(bytes, p1, 11) {
                Ok(x) => x,
                Err(e) => {
                    return Err(e);
                },
            };
            let mut packets: Vec<Packet> = Vec::new();
            let mut cur = start;
            loop
                invariant
                    bytes@.len() <= 0x1000_0000,
                    pos + 12 == start,
                    start <= cur <= bytes@.len() * 8,
                    pos >= 6,
                    packets_at(bytes@, start as int, packets@, 0, cur as int),
                    packets@.len() >= 1 ==> cur > start,
                    total_sub == bits_val(bytes@, pos + 1, 11),
                    bit_at(bytes@, pos as int),
                decreases bytes@.len() * 8 - cur,
            {
                let (packet, next) = match Packet::parse(bytes, cur) {
                    Ok(x) => x,
                    Err(e) => {
                        return Err(e);
                    },
                };
                proof {
                    lemma_packets_at_snoc(
                        bytes@,
                        start as int,
                        packets@,
                        0,
                        cur as int,
                        packet,
                        next as int,
                    );
                }
                packets.push(packet);
                cur = next;
                if packets.len() as u64 == total_sub {
                    return Ok((PacketVariant::Operator(packets), cur));
                }
            }
        }
    }
}

/// Splitting a bit field after its first bit: the first bit carries the
/// weight of the remaining width.
proof fn lemma_bits_val_shift(bytes: Seq<u8>, q: int, n: nat)
    ensures
        bits_val(bytes, q, (n + 1) as nat) == pow2n(n) * (if bit_at(bytes, q) {
            1nat
        } else {
            0nat
        }) + bits_val(bytes, q + 1, n),
    decreases n,
{
    if n == 0 {
        assert(bits_val(bytes, q, 1) == bits_val(bytes, q, 0) * 2 + (if bit_at(bytes, q) {
            1nat
        } else {
            0nat
        }));
    } else {
        lemma_bits_val_shift(bytes, q, (n - 1) as nat);
        assert(bits_val(bytes, q, (n + 1) as nat) == bits_val(bytes, q, n) * 2 + (if bit_at(
            bytes,
            q + n,
        ) {
            1nat
        } else {
            0nat
        }));
        assert(bits_val(bytes, q + 1, n) == bits_val(bytes, q + 1, (n - 1) as nat) * 2 + (
        if bit_at(bytes, q + n) {
            1nat
        } else {
            0nat
        }));
    }
}

/// The sum of the values of the first `k` sub-packets.
pub open spec fn sum_upto(subs: Seq<Packet>, k: int) -> nat
    recommends
        0 <= k <= subs.len(),
    decreases subs, k,
{
    if k <= 0 || k > subs.len() {
        0
    } else {
        sum_upto(subs, k - 1) + spec_decode(subs[k - 1])
    }
}

/// The product of the values of the first `k` sub-packets.
pub open spec fn prod_upto(subs: Seq<Packet>, k: int) -> nat
    recommends
        0 <= k <= subs.len(),
    decreases subs, k,
{
    if k <= 0 || k > subs.len() {
        1
    } else {
        prod_upto(subs, k - 1) * spec_decode(subs[k - 1])
    }
}

/// The least value among the first `k` sub-packets.
pub open spec fn min_upto(subs: Seq<Packet>, k: int) -> nat
    recommends
        1 <= k <= subs.len(),
    decreases subs, k,
{
    if subs.len() == 0 {
        0
    } else if k <= 1 || k > subs.len() {
        spec_decode(subs[0])
    } else if spec_decode(subs[k - 1]) < min_upto(subs, k - 1) {
        spec_decode(subs[k - 1])
    } else {
        min_upto(subs, k - 1)
    }
}

/// The greatest value among the first `k` sub-packets.
pub open spec fn max_upto(subs: Seq<Packet>, k: int) -> nat
    recommends
        1 <= k <= subs.len(),
    decreases subs, k,
{
    if subs.len() == 0 {
        0
    } else if k <= 1 || k > subs.len() {
        spec_decode(subs[0])
    } else if spec_decode(subs[k - 1]) > max_upto(subs, k - 1) {
        spec_decode(subs[k - 1])
    } else {
        max_upto(subs, k - 1)
    }
}

/// The number a packet evaluates to: a literal is its value; an operator
/// combines its sub-packet values by its type: sum, product, minimum,
/// maximum, or the comparisons greater-than, less-than and equality of its
/// first two.
pub open spec fn spec_decode(p: Packet) -> nat
    decreases p, 1int,
{
    match p.kind {
        PacketVariant::Literal(v) => v as nat,
        PacketVariant::Operator(subs) => {
            let t = p.header.type_id;
            if t == 0 {
                sum_upto(subs@, subs@.len() as int)
            } else if t == 1 {
                prod_upto(subs@, subs@.len() as int)
            } else if t == 2 {
                min_upto(subs@, subs@.len() as int)
            } else if t == 3 {
                max_upto(subs@, subs@.len() as int)
            } else if subs@.len() < 2 {
                0
            } else if t == 5 {
                if spec_decode(subs@[0]) > spec_decode(subs@[1]) {
                    1
                } else {
                    0
                }
            } else if t == 6 {
                if spec_decode(subs@[0]) < spec_decode(subs@[1]) {
                    1
                } else {
                    0
                }
            } else {
                if spec_decode(subs@[0]) == spec_decode(subs@[1]) {
                    1
                } else {
                    0
                }
            }
        },
    }
}

/// The packet tree is evaluable: operator types are among the seven defined
/// ones, comparisons have two sub-packets, minima and maxima at least one,
/// and every intermediate value fits the numeric range.
pub open spec fn decode_wf(p: Packet) -> bool
    decreases p, 1int,
{
    match p.kind {
        PacketVariant::Literal(_) => true,
        PacketVariant::Operator(subs) => {
            let t = p.header.type_id;
            &&& (t == 0 || t == 1 || t == 2 || t == 3 || t == 5 || t == 6 || t == 7)
            &&& subs@.len() >= 1
            &&& (t == 5 || t == 6 || t == 7 ==> subs@.len() >= 2)
            &&& (t == 0 ==> sum_upto(subs@, subs@.len() as int) <= u64::MAX)
            &&& (t == 1 ==> forall|k: int|
                0 <= k <= subs@.len() ==> #[trigger] prod_upto(subs@, k) <= u64::MAX)
            &&& subs_wf(subs@, subs@.len() as int)
        },
    }
}

/// The first `k` sub-packets are evaluable and their values fit.
pub open spec fn subs_wf(subs: Seq<Packet>, k: int) -> bool
    decreases subs, k,
{
    if k <= 0 || k > subs.len() {
        true
    } else {
        subs_wf(subs, k - 1) && decode_wf(subs[k - 1]) && spec_decode(subs[k - 1]) <= u64::MAX
    }
}

/// Well-formedness of a prefix follows from the whole.
proof fn lemma_subs_wf_at(subs: Seq<Packet>, k: int, i: int)
    requires
        subs_wf(subs, k),
        0 <= i < k <= subs.len(),
    ensures
        decode_wf(subs[i]),
        spec_decode(subs[i]) <= u64::MAX,
        subs_wf(subs, i + 1),
    decreases k - i,
{
    if i + 1 < k {
        lemma_subs_wf_at(subs, k - 1, i);
    }
}

impl Packet {
    /// Evaluate the packet to its number.
    pub fn decode(&self) -> (r: u64)
        requires
            decode_wf(*self),
            spec_decode(*self) <= u64::MAX,
        ensures
            r == spec_decode(*self),
        decreases *self, 2int,
    {
        match &self.kind {
            PacketVariant::Literal(v) => *v,
            PacketVariant::Operator(subs) => {
                let t = self.header.type_id;
                let n = subs.len();
                proof {
                    assert(subs_wf(subs@, subs@.len() as int));
                    lemma_subs_wf_at(subs@, subs@.len() as int, 0);
                }
                if t == 5 || t == 6 || t == 7 {
                    proof {
                        lemma_subs_wf_at(subs@, subs@.len() as int, 1);
                    }
                    let a = subs[0].decode();
                    let b = subs[1].decode();
                    let hit = if t == 5 {
                        a > b
                    } else if t == 6 {
                        a < b
                    } else {
                        a == b
                    };
                    if hit {
                        1
                    } else {
                        0
                    }
                } else if t == 2 || t == 3 {
                    let mut best = subs[0].decode();
                    let mut k: usize = 1;
                    while k < n
                        invariant
                            decode_wf(*self),
                            self.kind matches PacketVariant::Operator(s2) && s2@ == subs@,
                            t == self.header.type_id,
                            t == 2 || t == 3,
                            n == subs@.len(),
                            1 <= k <= n,
                            best == if t == 2 {
                                min_upto(subs@, k as int)
                            } else {
                                max_upto(subs@, k as int)
                            },
                            best <= u64::MAX,
                        decreases n - k,
                    {
                        proof {
                            assert(subs_wf(subs@, subs@.len() as int));
                            lemma_subs_wf_at(subs@, subs@.len() as int, k as int);
                        }
                        let v = subs[k].decode();
                        if t == 2 {
                            if v < best {
                                best = v;
                            }
                        } else {
                            if v > best {
                                best = v;
                            }
                        }
                        k = k + 1;
                    }
                    best
                } else if t == 0 {
                    let mut acc: u64 = 0;
                    let mut k: usize = 0;
                    while k < n
                        invariant
                            decode_wf(*self),
                            self.kind matches PacketVariant::Operator(s2) && s2@ == subs@,
                            t == self.header.type_id,
                            t == 0,
                            n == subs@.len(),
                            k <= n,
                            acc == sum_upto(subs@, k as int),
                        decreases n - k,
                    {
                        proof {
                            assert(subs_wf(subs@, subs@.len() as int));
                            lemma_subs_wf_at(subs@, subs@.len() as int, k as int);
                            lemma_sum_upto_le(subs@, k + 1, subs@.len() as int);
                        }
                        let v = subs[k].decode();
                        acc = acc + v;
                        k = k + 1;
                    }
                    acc
                } else {
                    let mut acc: u64 = 1;
                    let mut k: usize = 0;
                    while k < n
                        invariant
                            decode_wf(*self),
                            self.kind matches PacketVariant::Operator(s2) && s2@ == subs@,
                            t == self.header.type_id,
                            t == 1,
                            n == subs@.len(),
                            k <= n,
                            acc == prod_upto(subs@, k as int),
                            acc <= u64::MAX,
                        decreases n - k,
                    {
                        proof {
                            assert(subs_wf(subs@, subs@.len() as int));
                            lemma_subs_wf_at(subs@, subs@.len() as int, k as int);
                            assert(prod_upto(subs@, k + 1) <= u64::MAX);
                        }
                        let v = subs[k].decode();
                        proof {
                            assert(prod_upto(subs@, k + 1) == acc * v);
                        }
                        acc = mul_checked_exact(acc, v);
                        k = k + 1;
                    }
                    acc
                }
            },
        }
    }
}

/// Multiply two numbers whose exact product is known to fit.
fn mul_checked_exact(a: u64, b: u64) -> (r: u64)
    requires
        a * b <= u64::MAX,
    ensures
        r == a * b,
{
    a * b
}

/// Partial sums never exceed the total.
proof fn lemma_sum_upto_le(subs: Seq<Packet>, k: int, n: int)
    requires
        0 <= k <= n <= subs.len(),
    ensures
        sum_upto(subs, k) <= sum_upto(subs, n),
    decreases n - k,
{
    if k < n {
        lemma_sum_upto_le(subs, k + 1, n);
    }
}

/// The sum of the versions of the first `k` sub-packets and everything
/// below them.
pub open spec fn versions_upto(subs: Seq<Packet>, k: int) -> nat
    decreases subs, k,
{
    if k <= 0 || k > subs.len() {
        0
    } else {
        versions_upto(subs, k - 1) + spec_versions(subs[k - 1])
    }
}

/// The sum of all version fields in the packet tree.
pub open spec fn spec_versions(p: Packet) -> nat
    decreases p, 1int,
{
    (p.header.version + match p.kind {
        PacketVariant::Literal(_) => 0nat,
        PacketVariant::Operator(subs) => versions_upto(subs@, subs@.len() as int),
    }) as nat
}

/// Version prefix sums never exceed the total.
proof fn lemma_versions_upto_le(subs: Seq<Packet>, k: int, n: int)
    requires
        0 <= k <= n <= subs.len(),
    ensures
        versions_upto(subs, k) <= versions_upto(subs, n),
    decreases n - k,
{
    if k < n {
        lemma_versions_upto_le(subs, k + 1, n);
    }
}

/// Sum every version field in the packet tree.
pub fn add_versions(packet: &Packet) -> (r: u64)
    requires
        spec_versions(*packet) <= u64::MAX,
    ensures
        r == spec_versions(*packet),
    decreases *packet, 2int,
{
    let mut sum: u64 = packet.header.version as u64;
    if let PacketVariant::Operator(subs) = &packet.kind {
        let n = subs.len();
        let mut k: usize = 0;
        while k < n
            invariant
                spec_versions(*packet) <= u64::MAX,
                packet.kind matches PacketVariant::Operator(s2) && s2@ == subs@,
                n == subs@.len(),
                k <= n,
                sum == packet.header.version + versions_upto(subs@, k as int),
            decreases n - k,
        {
            proof {
                lemma_versions_upto_le(subs@, k + 1, subs@.len() as int);
            }
            let v = add_versions(&subs[k]);
            sum = sum + v;
            k = k + 1;
        }
    }
    sum
}

/// The value of a hexadecimal digit character.
pub open spec fn hex_val(c: char) -> nat {
    if c == '0' {
        0
    } else if c == '1' {
        1
    } else if c == '2' {
        2
    } else if c == '3' {
        3
    } else if c == '4' {
        4
    } else if c == '5' {
        5
    } else if c == '6' {
        6
    } else if c == '7' {
        7
    } else if c == '8' {
        8
    } else if c == '9' {
        9
    } else if c == 'a' || c == 'A' {
        10
    } else if c == 'b' || c == 'B' {
        11
    } else if c == 'c' || c == 'C' {
        12
    } else if c == 'd' || c == 'D' {
        13
    } else if c == 'e' || c == 'E' {
        14
    } else {
        15
    }
}

/// A hexadecimal digit character.
pub open spec fn is_hex_char(c: char) -> bool {
    ||| c == '0' || c == '1' || c == '2' || c == '3' || c == '4'
    ||| c == '5' || c == '6' || c == '7' || c == '8' || c == '9'
    ||| c == 'a' || c == 'b' || c == 'c' || c == 'd' || c == 'e' || c == 'f'
    ||| c == 'A' || c == 'B' || c == 'C' || c == 'D' || c == 'E' || c == 'F'
}

/// The value of one hexadecimal digit, or `None` for any other character.
fn hex_digit(c: char) -> (r: Option<u8>)
    ensures
        match r {
            Some(v) => is_hex_char(c) && v == hex_val(c),
            None => !is_hex_char(c),
        },
{
    match c {
        '0' => Some(0),
        '1' => Some(1),
        '2' => Some(2),
        '3' => Some(3),
        '4' => Some(4),
        '5' => Some(5),
        '6' => Some(6),
        '7' => Some(7),
        '8' => Some(8),
        '9' => Some(9),
        'a' | 'A' => Some(10),
        'b' | 'B' => Some(11),
        'c' | 'C' => Some(12),
        'd' | 'D' => Some(13),
        'e' | 'E' => Some(14),
        'f' | 'F' => Some(15),
        _ => None,
    }
}

/// Turn a hex string into its bytes, two digits per byte.
pub fn hex_string_to_bytes(s: &str) -> (r: Vec<u8>)
    requires
        s@.len() % 2 == 0,
        forall|i: int| 0 <= i < s@.len() ==> is_hex_char(#[trigger] s@[i]),
    ensures
        r@.len() * 2 == s@.len(),
        forall|i: int|
            0 <= i < r@.len() ==> #[trigger] r@[i] == hex_val(s@[2 * i]) * 16 + hex_val(
                s@[2 * i + 1],
            ),
{
    let n = s.unicode_len();
    let mut r: Vec<u8> = Vec::new();
    let mut i: usize = 0;
    while i + 1 < n || i + 1 == n
        invariant
            n == s@.len(),
            n % 2 == 0,
            forall|k: int| 0 <= k < s@.len() ==> is_hex_char(#[trigger] s@[k]),
            i % 2 == 0,
            i <= n,
            r@.len() * 2 == i,
            forall|k: int|
                0 <= k < r@.len() ==> #[trigger] r@[k] == hex_val(s@[2 * k]) * 16 + hex_val(
                    s@[2 * k + 1],
                ),
        decreases n - i,
    {
        let hi = match hex_digit(s.get_char(i)) {
            Some(v) => v,
            None => {
                proof {
                    assert(false);
                }
                vstd::pervasive::unreached()
            },
        };
        let lo = match hex_digit(s.get_char(i + 1)) {
            Some(v) => v,
            None => {
                proof {
                    assert(false);
                }
                vstd::pervasive::unreached()
            },
        };
        r.push(hi * 16 + lo);
        i = i + 2;
    }
    r
}

/// Write every bit of the buffer as a `0` or `1` character, most
/// significant bit of each byte first.
pub fn bytes_to_binary_string(bytes: &Vec<u8>) -> (r: String)
    requires
        bytes@.len() <= 0x1000_0000,
    ensures
        r@.len() == bytes@.len() * 8,
        forall|i: int|
            0 <= i < bytes@.len() * 8 ==> r@[i] == (if bit_at(bytes@, i) {
                '1'
            } else {
                '0'
            }),
{
    let mut r = String::new();
    let total = 8 * bytes.len();
    let mut i: usize = 0;
    while i < total
        invariant
            bytes@.len() <= 0x1000_0000,
            total == bytes@.len() * 8,
            i <= total,
            r@.len() == i,
            forall|k: int|
                0 <= k < i ==> r@[k] == (if bit_at(bytes@, k) {
                    '1'
                } else {
                    '0'
                }),
        decreases total - i,
    {
        let byte = bytes[i / 8];
        let bit = (byte >> (7 - (i % 8)) as u8) & 1;
        proof {
            assert(i / 8 < bytes@.len());
            assert((bit == 1) == bit_at(bytes@, i as int));
        }
        if bit == 1 {
            r.append("1");
        } else {
            r.append("0");
        }
        proof {
            reveal_strlit("0");
            reveal_strlit("1");
        }
        i = i + 1;
    }
    r
}

} // verus!
