use crate::errors::DbError;
use vstd::arithmetic::div_mod::lemma_mod_breakdown;
use vstd::arithmetic::power2::{lemma2_to64, lemma2_to64_rest, lemma_pow2_adds, pow2};
use vstd::prelude::*;

verus! {

// ---------------------------------------------------------------------------
// Big-endian fixed-width integers
// ---------------------------------------------------------------------------

/// The big-endian 16-bit value stored at byte offset `off` of `b`.
pub open spec fn be_u16_at(b: Seq<u8>, off: int) -> int {
    b[off] * 0x100 + b[off + 1]
}

/// The big-endian 32-bit value stored at byte offset `off` of `b`.
pub open spec fn be_u32_at(b: Seq<u8>, off: int) -> int {
    ((b[off] * 0x100 + b[off + 1]) * 0x100 + b[off + 2]) * 0x100 + b[off + 3]
}

/// Reads the big-endian `u16` at `start`.
pub fn read_u16(buf: &[u8], start: usize) -> (r: u16)
    requires
        start + 2 <= buf@.len(),
    ensures
        r == be_u16_at(buf@, start as int),
{
    let hi = buf[start];
    let lo = buf[start + 1];
    (hi as u16) * 0x100 + (lo as u16)
}

/// Reads the big-endian `u32` at `start`.
pub fn read_u32(buf: &[u8], start: usize) -> (r: u32)
    requires
        start + 4 <= buf@.len(),
    ensures
        r == be_u32_at(buf@, start as int),
{
    let b0 = buf[start];
    let b1 = buf[start + 1];
    let b2 = buf[start + 2];
    let b3 = buf[start + 3];
    (((b0 as u32) * 0x100 + (b1 as u32)) * 0x100 + (b2 as u32)) * 0x100 + (b3 as u32)
}

// ---------------------------------------------------------------------------
// The variable-length integer ("varint")
// ---------------------------------------------------------------------------
//
// A varint is one to nine bytes long. Each of the first eight bytes carries
// seven significant bits, most significant group first, and its high bit says
// whether another byte follows. If a ninth byte is reached, all eight of its
// bits are significant, so the encoding covers a full 64-bit value in at most
// nine bytes.

/// The length in bytes of the varint at `off`, seen from byte index `i` of the
/// varint with all earlier bytes known to carry a continuation bit.
pub open spec fn varint_len_from(b: Seq<u8>, off: int, i: int) -> int
    decreases 8 - i,
{
    if i >= 8 {
        9
    } else if b[off + i] < 0x80 {
        i + 1
    } else {
        varint_len_from(b, off, i + 1)
    }
}

/// The length in bytes of the varint stored at byte offset `off` of `b`.
pub open spec fn varint_len(b: Seq<u8>, off: int) -> int {
    varint_len_from(b, off, 0)
}

/// The value of the varint at `off`, seen from byte index `i` with `acc`
/// holding the bits of the first `i` (continuation) bytes.
pub open spec fn varint_value_from(b: Seq<u8>, off: int, i: int, acc: int) -> int
    decreases 8 - i,
{
    if i >= 8 {
        acc * 0x100 + b[off + 8]
    } else if b[off + i] < 0x80 {
        acc * 0x80 + b[off + i]
    } else {
        varint_value_from(b, off, i + 1, acc * 0x80 + (b[off + i] - 0x80))
    }
}

/// The value of the varint stored at byte offset `off` of `b`.
pub open spec fn varint_value(b: Seq<u8>, off: int) -> int {
    varint_value_from(b, off, 0, 0)
}

/// Whether the varint at `off` lies entirely within `b`.
pub open spec fn varint_complete(b: Seq<u8>, off: int) -> bool {
    0 <= off && off + varint_len(b, off) <= b.len()
}

/// A varint is between one and nine bytes long.
pub proof fn lemma_varint_len_from_bounds(b: Seq<u8>, off: int, i: int)
    requires
        0 <= i <= 8,
    ensures
        i + 1 <= varint_len_from(b, off, i) <= 9,
    decreases 8 - i,
{
    if i < 8 && b[off + i] >= 0x80 {
        lemma_varint_len_from_bounds(b, off, i + 1);
    }
}

/// Decodes the varint at byte offset `offset` of `buf`, returning its value
/// and the number of bytes consumed, or `BoundsViolation` if the varint would
/// extend past the end of the buffer.
pub fn read_var_int(buf: &[u8], offset: usize) -> (r: Result<(u64, usize), DbError>)
    ensures
        varint_complete(buf@, offset as int) ==> (r matches Ok(p)
            && p.0 == varint_value(buf@, offset as int)
            && p.1 == varint_len(buf@, offset as int)),
        !varint_complete(buf@, offset as int) ==> r == Err::<(u64, usize), DbError>(
            DbError::BoundsViolation,
        ),
{
    let ghost b = buf@;
    let ghost off = offset as int;
    proof {
        lemma_varint_len_from_bounds(b, off, 0);
        lemma2_to64();
    }
    if offset >= buf.len() {
        return Err(DbError::BoundsViolation);
    }
    let mut result: u64 = 0;
    let mut i: usize = 0;
    loop
        invariant
            0 <= i <= 8,
            offset + i <= buf@.len(),
            b == buf@,
            off == offset as int,
            forall|j: int| 0 <= j < i ==> #[trigger] b[off + j] >= 0x80,
            varint_len(b, off) == varint_len_from(b, off, i as int),
            varint_value(b, off) == varint_value_from(b, off, i as int, result as int),
            result < pow2((7 * i) as nat),
        decreases 9 - i,
    {
        if buf.len() - offset <= i {
            proof {
                lemma_varint_len_from_bounds(b, off, i as int);
            }
            return Err(DbError::BoundsViolation);
        }
        let byte = buf[offset + i];
        proof {
            lemma2_to64();
            lemma2_to64_rest();
            lemma_pow2_adds((7 * i) as nat, 7);
            assert(result * 0x80 + 0x80 <= pow2((7 * i) as nat) * 0x80) by (nonlinear_arith)
                requires
                    result + 1 <= pow2((7 * i) as nat),
            ;
            assert(pow2((7 * i) as nat) <= pow2(56)) by {
                lemma_pow2_adds((7 * i) as nat, (56 - 7 * i) as nat);
                assert(pow2((7 * i) as nat) <= pow2(56)) by (nonlinear_arith)
                    requires
                        pow2((7 * i) as nat) * pow2((56 - 7 * i) as nat) == pow2(56),
                        pow2((56 - 7 * i) as nat) >= 1,
                        pow2((7 * i) as nat) >= 1,
                ;
            }
        }
        if i == 8 {
            assert(result * 0x100 + byte <= (pow2(56) - 1) * 0x100 + 0xff) by (nonlinear_arith)
                requires
                    result <= pow2(56) - 1,
                    byte <= 0xff,
            ;
            let value = result * 0x100 + (byte as u64);
            return Ok((value, 9));
        }
        if byte < 0x80 {
            let value = result * 0x80 + (byte as u64);
            return Ok((value, i + 1));
        }
        result = result * 0x80 + ((byte - 0x80) as u64);
        i = i + 1;
    }
}

// ---------------------------------------------------------------------------
// Varint encoding
// ---------------------------------------------------------------------------

/// `u` encoded as exactly `n` continuation bytes: the low `7 * n` bits of `u`,
/// most significant seven-bit group first, each byte with its high bit set.
pub open spec fn encode_cont(u: int, n: nat) -> Seq<u8>
    decreases n,
{
    if n == 0 {
        Seq::empty()
    } else {
        encode_cont(u / 0x80, (n - 1) as nat) + seq![(u % 0x80 + 0x80) as u8]
    }
}

/// The number of bytes the varint encoding of `v` takes.
pub open spec fn varint_size(v: int) -> int {
    if v < 0x80 {
        1
    } else if v < 0x4000 {
        2
    } else if v < 0x200000 {
        3
    } else if v < 0x10000000 {
        4
    } else if v < 0x800000000 {
        5
    } else if v < 0x40000000000 {
        6
    } else if v < 0x2000000000000 {
        7
    } else if v < 0x100000000000000 {
        8
    } else {
        9
    }
}

/// The varint encoding of `v`: up to eight seven-bit groups for values below
/// `2^56`, and otherwise eight continuation bytes holding the high 56 bits
/// followed by one byte holding the low eight bits.
pub open spec fn spec_encode_varint(v: int) -> Seq<u8> {
    if v < 0x100000000000000 {
        encode_cont(v / 0x80, (varint_size(v) - 1) as nat) + seq![(v % 0x80) as u8]
    } else {
        encode_cont(v / 0x100, 8) + seq![(v % 0x100) as u8]
    }
}

/// `encode_cont` yields exactly `n` bytes, each with its high bit set.
pub proof fn lemma_encode_cont_props(u: int, n: nat)
    requires
        0 <= u,
    ensures
        encode_cont(u, n).len() == n,
        forall|k: int| 0 <= k < n ==> #[trigger] encode_cont(u, n)[k] >= 0x80,
    decreases n,
{
    if n > 0 {
        lemma_encode_cont_props(u / 0x80, (n - 1) as nat);
    }
}

/// Decoding walks over `n` continuation bytes that encode `u` exactly as the
/// encoder laid them down: the accumulator picks up the low `7 * n` bits of
/// `u`, and the length scan moves past them.
proof fn lemma_decode_cont(b: Seq<u8>, off: int, i: int, acc: int, u: int, n: nat)
    requires
        0 <= i,
        i + n <= 8,
        0 <= u,
        0 <= acc,
        forall|k: int| 0 <= k < n ==> b[off + i + k] == #[trigger] encode_cont(u, n)[k],
    ensures
        varint_value_from(b, off, i, acc) == varint_value_from(
            b,
            off,
            i + n,
            acc * pow2(7 * n) + u % pow2(7 * n) as int,
        ),
        varint_len_from(b, off, i) == varint_len_from(b, off, i + n),
    decreases n,
{
    lemma2_to64();
    if n == 0 {
        assert(pow2(0) == 1);
        assert(u % pow2(0) as int == 0);
        assert(acc * pow2(0) + u % pow2(0) as int == acc);
        assert(varint_value_from(b, off, i, acc) == varint_value_from(
            b,
            off,
            i + n,
            acc * pow2(7 * n) + u % pow2(7 * n) as int,
        ));
    } else {
        let m = (n - 1) as nat;
        lemma_encode_cont_props(u, n);
        lemma_encode_cont_props(u / 0x80, m);
        assert(forall|k: int| 0 <= k < m ==> b[off + i + k] == #[trigger] encode_cont(
            u / 0x80,
            m,
        )[k]) by {
            assert(forall|k: int| 0 <= k < m ==> encode_cont(u, n)[k] == #[trigger] encode_cont(
                u / 0x80,
                m,
            )[k]);
        }
        lemma_decode_cont(b, off, i, acc, u / 0x80, m);
        let accm = acc * pow2(7 * m) + (u / 0x80) % pow2(7 * m) as int;
        assert(varint_value_from(b, off, i, acc) == varint_value_from(b, off, i + m, accm));
        let last = b[off + i + n - 1];
        assert(last == encode_cont(u, n)[n - 1]);
        assert(last == u % 0x80 + 0x80);
        assert(varint_value_from(b, off, i + m, accm) == varint_value_from(
            b,
            off,
            i + n,
            accm * 0x80 + (last - 0x80),
        ));
        assert(varint_len_from(b, off, i + m) == varint_len_from(b, off, i + n));
        assert(accm * 0x80 + (u % 0x80) == acc * pow2(7 * n) + u % pow2(7 * n) as int) by {
            lemma_pow2_adds(7 * m, 7);
            vstd::arithmetic::power2::lemma_pow2_pos(7 * m);
            lemma_mod_breakdown(u, 0x80, pow2(7 * m) as int);
            assert(u % (0x80 * pow2(7 * m) as int) == 0x80 * ((u / 0x80) % pow2(7 * m) as int) + u
                % 0x80);
            assert(accm * 0x80 == acc * (pow2(7 * m) as int * 0x80) + ((u / 0x80) % pow2(
                7 * m,
            ) as int) * 0x80) by (nonlinear_arith)
                requires
                    accm == acc * pow2(7 * m) + (u / 0x80) % pow2(7 * m) as int,
            ;
            assert(pow2(7 * m) as int * 0x80 == pow2(7 * n) as int);
            assert(0x80 * pow2(7 * m) as int == pow2(7 * n) as int);
        }
        assert(varint_value_from(b, off, i, acc) == varint_value_from(
            b,
            off,
            i + n,
            acc * pow2(7 * n) + u % pow2(7 * n) as int,
        ));
    }
}

/// The varint round-trip law: for every 64-bit value `v`, the encoding of `v`
/// is between one and nine bytes long, decoding it consumes exactly those
/// bytes, and the decoded value is `v` again. A value of `2^56` or above takes
/// exactly nine bytes, and the ninth byte is fully significant: it holds the
/// low eight bits of `v`.
pub proof fn lemma_varint_round_trip(v: u64)
    ensures
        ({
            let b = spec_encode_varint(v as int);
            &&& 1 <= b.len() <= 9
            &&& b.len() == varint_size(v as int)
            &&& varint_complete(b, 0)
            &&& varint_len(b, 0) == b.len()
            &&& varint_value(b, 0) == v
            &&& (v >= 0x100000000000000 ==> b.len() == 9 && b[8] == v % 0x100)
        }),
{
    lemma2_to64();
    lemma2_to64_rest();
    let b = spec_encode_varint(v as int);
    let vi = v as int;
    if vi < 0x100000000000000 {
        let n = (varint_size(vi) - 1) as nat;
        lemma_encode_cont_props(vi / 0x80, n);
        assert(b.len() == n + 1);
        assert(forall|k: int| 0 <= k < n ==> b[k] == #[trigger] encode_cont(vi / 0x80, n)[k]);
        lemma_decode_cont(b, 0, 0, 0, vi / 0x80, n);
        assert(vi / 0x80 < pow2(7 * n)) by {
            assert(pow2(7 * n) * 0x80 == pow2(7 * (n + 1))) by {
                lemma_pow2_adds(7 * n, 7);
            }
            assert(vi < pow2(7 * (n + 1)));
            assert(vi / 0x80 < pow2(7 * n)) by (nonlinear_arith)
                requires
                    0 <= vi,
                    vi < pow2(7 * n) * 0x80,
            ;
        }
        assert((vi / 0x80) % pow2(7 * n) as int == vi / 0x80) by {
            vstd::arithmetic::div_mod::lemma_small_mod((vi / 0x80) as nat, pow2(7 * n));
        }
        assert(varint_value_from(b, 0, 0, 0) == varint_value_from(b, 0, n as int, vi / 0x80));
        assert(b[n as int] == vi % 0x80);
        assert(varint_value_from(b, 0, n as int, vi / 0x80) == (vi / 0x80) * 0x80 + vi % 0x80);
        assert((vi / 0x80) * 0x80 + vi % 0x80 == vi) by {
            vstd::arithmetic::div_mod::lemma_fundamental_div_mod(vi, 0x80);
        }
        assert(varint_len_from(b, 0, n as int) == n + 1);
    } else {
        lemma_encode_cont_props(vi / 0x100, 8);
        assert(b.len() == 9);
        assert(forall|k: int| 0 <= k < 8 ==> b[k] == #[trigger] encode_cont(vi / 0x100, 8)[k]);
        lemma_decode_cont(b, 0, 0, 0, vi / 0x100, 8);
        assert(vi / 0x100 < pow2(56)) by {
            assert(pow2(56) * 0x100 == pow2(64)) by {
                lemma_pow2_adds(56, 8);
            }
            assert(vi / 0x100 < pow2(56)) by (nonlinear_arith)
                requires
                    0 <= vi,
                    vi < pow2(56) * 0x100,
            ;
        }
        assert((vi / 0x100) % pow2(56) as int == vi / 0x100) by {
            vstd::arithmetic::div_mod::lemma_small_mod((vi / 0x100) as nat, pow2(56));
        }
        assert(varint_value_from(b, 0, 0, 0) == varint_value_from(b, 0, 8, vi / 0x100));
        assert(b[8] == vi % 0x100);
        assert(varint_value_from(b, 0, 8, vi / 0x100) == (vi / 0x100) * 0x100 + vi % 0x100);
        assert((vi / 0x100) * 0x100 + vi % 0x100 == vi) by {
            vstd::arithmetic::div_mod::lemma_fundamental_div_mod(vi, 0x100);
        }
    }
}

/// Appends the `n`-byte continuation encoding of `u` to `out`.
fn push_cont(out: &mut Vec<u8>, u: u64, n: usize)
    requires
        n <= 8,
    ensures
        final(out)@ == old(out)@ + encode_cont(u as int, n as nat),
    decreases n,
{
    if n > 0 {
        push_cont(out, u / 0x80, n - 1);
        out.push(((u % 0x80) as u8) + 0x80);
        assert(out@ =~= old(out)@ + encode_cont(u as int, n as nat));
    } else {
        assert(out@ =~= old(out)@ + encode_cont(u as int, 0));
    }
}

/// The number of bytes the varint encoding of `v` takes.
pub fn varint_size_of(v: u64) -> (n: usize)
    ensures
        n == varint_size(v as int),
{
    if v < 0x80 {
        1
    } else if v < 0x4000 {
        2
    } else if v < 0x200000 {
        3
    } else if v < 0x10000000 {
        4
    } else if v < 0x800000000 {
        5
    } else if v < 0x40000000000 {
        6
    } else if v < 0x2000000000000 {
        7
    } else if v < 0x100000000000000 {
        8
    } else {
        9
    }
}

/// Encodes `v` with the format's varint rule.
pub fn encode_var_int(v: u64) -> (r: Vec<u8>)
    ensures
        r@ == spec_encode_varint(v as int),
        1 <= r@.len() <= 9,
{
    proof {
        lemma_varint_round_trip(v);
    }
    let mut out: Vec<u8> = Vec::new();
    if v < 0x100000000000000 {
        let n = varint_size_of(v);
        push_cont(&mut out, v / 0x80, n - 1);
        out.push((v % 0x80) as u8);
    } else {
        push_cont(&mut out, v / 0x100, 8);
        out.push((v % 0x100) as u8);
    }
    assert(out@ =~= spec_encode_varint(v as int));
    out
}

/// Copies `count` bytes of `page` starting at `start` into a fresh vector.
pub fn copy_bytes(page: &[u8], start: usize, count: usize) -> (r: Vec<u8>)
    requires
        start + count <= page@.len(),
    ensures
        r@ == page@.subrange(start as int, start + count),
{
    let page_len = page.len();
    let mut out: Vec<u8> = Vec::new();
    let mut j: usize = 0;
    while j < count
        invariant
            0 <= j <= count,
            start + count <= page_len,
            page_len == page@.len(),
            out@ == page@.subrange(start as int, start + j),
        decreases count - j,
    {
        out.push(page[start + j]);
        proof {
            assert(out@ =~= page@.subrange(start as int, start + j + 1));
        }
        j = j + 1;
    }
    out
}

} // verus!
