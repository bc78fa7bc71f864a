//! Reading and writing unsigned integers as bytes, and the byte order of keys.

use vstd::prelude::*;
use vstd::slice::slice_subrange;

verus! {

/// The value of `bytes` read as a big-endian unsigned integer.
pub open spec fn be_uint(bytes: Seq<u8>) -> nat
    decreases bytes.len(),
{
    if bytes.len() == 0 {
        0
    } else {
        be_uint(bytes.drop_last()) * 256 + bytes.last() as nat
    }
}

/// The value of `bytes` read as a little-endian unsigned integer.
pub open spec fn le_uint(bytes: Seq<u8>) -> nat
    decreases bytes.len(),
{
    if bytes.len() == 0 {
        0
    } else {
        bytes[0] as nat + 256 * le_uint(bytes.drop_first())
    }
}

/// 256 to the power `n`.
pub open spec fn pow256(n: nat) -> nat
    decreases n,
{
    if n == 0 {
        1
    } else {
        256 * pow256((n - 1) as nat)
    }
}

/// The `n` bytes that hold `x` in big-endian order (the low `n` bytes of `x`).
pub open spec fn be_bytes(x: nat, n: nat) -> Seq<u8>
    decreases n,
{
    if n == 0 {
        Seq::empty()
    } else {
        be_bytes(x / 256, (n - 1) as nat).push((x % 256) as u8)
    }
}

/// The `n` bytes that hold `x` in little-endian order (the low `n` bytes of
/// `x`).
pub open spec fn le_bytes(x: nat, n: nat) -> Seq<u8>
    decreases n,
{
    if n == 0 {
        Seq::empty()
    } else {
        seq![(x % 256) as u8] + le_bytes(x / 256, (n - 1) as nat)
    }
}

/// The bytes of `buf` from `pos` on, `n` of them, where there are that many.
pub open spec fn window(buf: Seq<u8>, pos: int, n: int) -> Option<Seq<u8>> {
    if 0 <= pos && 0 <= n && pos + n <= buf.len() {
        Some(buf.subrange(pos, pos + n))
    } else {
        None
    }
}

/// A big-endian integer is below 256 to the number of its bytes.
pub proof fn lemma_be_uint_bound(bytes: Seq<u8>)
    ensures
        be_uint(bytes) < pow256(bytes.len()),
    decreases bytes.len(),
{
    if bytes.len() > 0 {
        lemma_be_uint_bound(bytes.drop_last());
    }
}

/// The powers of 256 that fit the machine's integers.
pub proof fn lemma_pow256_values()
    ensures
        pow256(0) == 1,
        pow256(1) == 0x100,
        pow256(2) == 0x1_0000,
        pow256(3) == 0x100_0000,
        pow256(4) == 0x1_0000_0000,
        pow256(5) == 0x100_0000_0000,
        pow256(6) == 0x1_0000_0000_0000,
        pow256(7) == 0x100_0000_0000_0000,
        pow256(8) == 0x1_0000_0000_0000_0000,
{
    reveal_with_fuel(pow256, 9);
}

/// Writing a number in `n` bytes and reading it back gives the number, where
/// it fits in `n` bytes.
pub proof fn lemma_be_round_trip(x: nat, n: nat)
    requires
        x < pow256(n),
    ensures
        be_bytes(x, n).len() == n,
        be_uint(be_bytes(x, n)) == x,
    decreases n,
{
    if n > 0 {
        lemma_be_round_trip(x / 256, (n - 1) as nat);
        let prefix = be_bytes(x / 256, (n - 1) as nat);
        assert(be_bytes(x, n).drop_last() =~= prefix);
    } else {
        assert(be_bytes(x, n).len() == 0);
    }
}

/// The length of a number written in `n` bytes.
pub proof fn lemma_be_bytes_len(x: nat, n: nat)
    ensures
        be_bytes(x, n).len() == n,
    decreases n,
{
    if n > 0 {
        lemma_be_bytes_len(x / 256, (n - 1) as nat);
    }
}

/// Reads at most the first eight bytes of `buf` as one unsigned integer, in
/// big-endian order when `be` is set and in little-endian order otherwise.
pub fn bytes_to_u64(buf: &[u8], be: bool) -> (value: u64)
    ensures
        ({
            let used = buf@.take(if buf@.len() > 8 { 8 } else { buf@.len() as int });
            value as nat == if be { be_uint(used) } else { le_uint(used) }
        }),
{
    let end: usize = if buf.len() > 8 { 8 } else { buf.len() };
    let ghost used = buf@.take(end as int);
    let mut value: u64 = 0;
    let mut i: usize = 0;
    proof {
        lemma_pow256_values();
    }
    while i < end
        invariant
            i <= end <= 8,
            end <= buf@.len(),
            used == buf@.take(end as int),
            be ==> value as nat == be_uint(used.take(i as int)),
            !be ==> value as nat == le_uint(used.skip(end - i)),
            (value as nat) < pow256(i as nat),
        decreases end - i,
    {
        let byte: u8 = if be { buf[i] } else { buf[end - 1 - i] };
        let ghost before = value;
        proof {
            lemma_pow256_values();
            assert(pow256(i as nat) <= pow256(7)) by {
                lemma_pow256_monotone(i as nat, 7);
            }
            assert(pow256((i + 1) as nat) == 256 * pow256(i as nat));
        }
        assert((before << 8) | (byte as u64) == before * 256 + byte as u64) by (bit_vector)
            requires
                before < 0x100_0000_0000_0000u64,
        ;
        value = (value << 8) | (byte as u64);
        proof {
            if be {
                assert(used.take(i + 1).drop_last() =~= used.take(i as int));
                assert(used.take(i + 1).last() == byte);
            } else {
                let tail = used.skip(end - i - 1);
                assert(tail.drop_first() =~= used.skip(end - i));
                assert(tail[0] == byte);
                lemma_le_uint_bound(used.skip(end - i));
            }
        }
        i = i + 1;
    }
    proof {
        assert(used.take(end as int) =~= used);
        assert(used.skip(0) =~= used);
    }
    value
}

/// The powers of 256 grow with the exponent.
pub proof fn lemma_pow256_monotone(a: nat, b: nat)
    requires
        a <= b,
    ensures
        pow256(a) <= pow256(b),
        pow256(a) >= 1,
    decreases b,
{
    if a < b {
        lemma_pow256_monotone(a, (b - 1) as nat);
    } else if a > 0 {
        lemma_pow256_monotone((a - 1) as nat, (a - 1) as nat);
    }
}

/// A little-endian integer is below 256 to the number of its bytes.
pub proof fn lemma_le_uint_bound(bytes: Seq<u8>)
    ensures
        le_uint(bytes) < pow256(bytes.len()),
    decreases bytes.len(),
{
    if bytes.len() > 0 {
        lemma_le_uint_bound(bytes.drop_first());
    }
}

/// The big-endian integer that the `width` bytes of `buf` at `pos` hold;
/// `None` where `buf` ends before them.
pub open spec fn uint_at(buf: Seq<u8>, pos: int, width: int) -> Option<u64> {
    match window(buf, pos, width) {
        Some(bytes) => Some(be_uint(bytes) as u64),
        None => None,
    }
}

/// The little-endian integer that the four bytes of `buf` at `pos` hold;
/// `None` where `buf` ends before them.
pub open spec fn le32_at(buf: Seq<u8>, pos: int) -> Option<u32> {
    match window(buf, pos, 4) {
        Some(bytes) => Some(le_uint(bytes) as u32),
        None => None,
    }
}

/// An integer of at most eight bytes fits in 64 bits.
pub proof fn lemma_uint_fits(bytes: Seq<u8>)
    requires
        bytes.len() <= 8,
    ensures
        be_uint(bytes) <= u64::MAX,
        le_uint(bytes) <= u64::MAX,
        bytes.len() <= 4 ==> be_uint(bytes) <= u32::MAX && le_uint(bytes) <= u32::MAX,
        bytes.len() <= 2 ==> be_uint(bytes) <= u16::MAX,
{
    lemma_be_uint_bound(bytes);
    lemma_le_uint_bound(bytes);
    lemma_pow256_values();
    lemma_pow256_monotone(bytes.len(), 8);
    if bytes.len() <= 4 {
        lemma_pow256_monotone(bytes.len(), 4);
    }
    if bytes.len() <= 2 {
        lemma_pow256_monotone(bytes.len(), 2);
    }
}

/// Reads the `width` bytes of `buf` at `pos` as a big-endian integer; `None`
/// where `buf` ends before them.
pub fn read_be(buf: &[u8], pos: usize, width: usize) -> (value: Option<u64>)
    requires
        width <= 8,
    ensures
        value == uint_at(buf@, pos as int, width as int),
{
    if pos > buf.len() || width > buf.len() - pos {
        return None;
    }
    let part = slice_subrange(buf, pos, pos + width);
    let value = bytes_to_u64(part, true);
    proof {
        assert(part@.take(part@.len() as int) =~= part@);
        lemma_uint_fits(part@);
    }
    Some(value)
}

/// Reads the four bytes of `buf` at `pos` as a little-endian integer; `None`
/// where `buf` ends before them.
pub fn read_le_u32(buf: &[u8], pos: usize) -> (value: Option<u32>)
    ensures
        value == le32_at(buf@, pos as int),
{
    if pos > buf.len() || 4 > buf.len() - pos {
        return None;
    }
    let part = slice_subrange(buf, pos, pos + 4);
    let value = bytes_to_u64(part, false);
    proof {
        assert(part@.take(part@.len() as int) =~= part@);
        lemma_uint_fits(part@);
    }
    Some(value as u32)
}

/// Appends `x` to `out` as `width` bytes in big-endian order.
pub fn push_be(out: &mut Vec<u8>, x: u64, width: usize)
    requires
        1 <= width <= 8,
    ensures
        final(out)@ == old(out)@ + be_bytes(x as nat, width as nat),
{
    let ghost start = out@;
    let mut i: usize = 0;
    proof {
        lemma_be_bytes_len((x as nat) / pow256(width as nat), 0);
        assert(start + be_bytes((x as nat) / pow256(width as nat), 0) =~= start);
    }
    while i < width
        invariant
            i <= width <= 8,
            out@ == start + be_bytes((x as nat) / pow256((width - i) as nat), i as nat),
        decreases width - i,
    {
        let shift: usize = width - 1 - i;
        let ghost low = pow256(shift as nat);
        let byte: u8 = shifted_byte(x, shift);
        proof {
            lemma_pow256_monotone(shift as nat, 7);
            assert(pow256((width - i) as nat) == 256 * low);
            let hi = (x as nat) / pow256((width - i) as nat);
            let whole = (x as nat) / low;
            assert(whole / 256 == hi && whole % 256 == byte as nat) by {
                lemma_div_twice(x as nat, low);
            }
            assert(be_bytes(whole, (i + 1) as nat) =~= be_bytes(hi, i as nat).push(byte));
        }
        out.push(byte);
        i = i + 1;
    }
    proof {
        assert(pow256(0) == 1);
        assert((x as nat) / 1 == x as nat);
    }
}

/// Appends `x` to `out` as four bytes in little-endian order.
pub fn push_le_u32(out: &mut Vec<u8>, x: u32)
    ensures
        final(out)@ == old(out)@ + le_bytes(x as nat, 4),
{
    let ghost start = out@;
    let wide: u64 = x as u64;
    let b0: u8 = shifted_byte(wide, 0);
    let b1: u8 = shifted_byte(wide, 1);
    let b2: u8 = shifted_byte(wide, 2);
    let b3: u8 = shifted_byte(wide, 3);
    out.push(b0);
    out.push(b1);
    out.push(b2);
    out.push(b3);
    proof {
        lemma_pow256_values();
        reveal_with_fuel(le_bytes, 5);
        let n = x as nat;
        assert(n / 256 / 256 == n / 0x1_0000 && n / 256 / 256 / 256 == n / 0x100_0000) by {
            lemma_div_twice(n, 256);
            lemma_div_twice(n, 0x1_0000);
        }
        assert(le_bytes(n, 4) =~= seq![b0, b1, b2, b3]);
        assert(out@ =~= start + le_bytes(n, 4));
    }
}

/// Dividing by `low` and then by 256 is dividing by their product.
proof fn lemma_div_twice(x: nat, low: nat)
    requires
        low >= 1,
    ensures
        (x / low) / 256 == x / (256 * low),
{
    vstd::arithmetic::div_mod::lemma_div_denominator(x as int, low as int, 256);
    assert(low * 256 == 256 * low) by (nonlinear_arith);
}

/// The byte of `x` that stands `shift` bytes above the lowest.
fn shifted_byte(x: u64, shift: usize) -> (byte: u8)
    requires
        shift <= 7,
    ensures
        byte as nat == ((x as nat) / pow256(shift as nat)) % 256,
{
    proof {
        lemma_pow256_values();
    }
    let bits: u64 = (shift as u64) * 8;
    let moved: u64 = x >> bits;
    assert(bits == 0 ==> x >> bits == x / 0x1) by (bit_vector);
    assert(bits == 8 ==> x >> bits == x / 0x100) by (bit_vector);
    assert(bits == 16 ==> x >> bits == x / 0x1_0000) by (bit_vector);
    assert(bits == 24 ==> x >> bits == x / 0x100_0000) by (bit_vector);
    assert(bits == 32 ==> x >> bits == x / 0x1_0000_0000) by (bit_vector);
    assert(bits == 40 ==> x >> bits == x / 0x100_0000_0000) by (bit_vector);
    assert(bits == 48 ==> x >> bits == x / 0x1_0000_0000_0000) by (bit_vector);
    assert(bits == 56 ==> x >> bits == x / 0x100_0000_0000_0000) by (bit_vector);
    assert(moved & 0xff == moved % 256) by (bit_vector);
    (moved & 0xff) as u8
}

/// Lexicographic order on byte strings: `a` comes strictly before `b`.
pub open spec fn bytes_lt(a: Seq<u8>, b: Seq<u8>) -> bool
    decreases a.len(),
{
    if b.len() == 0 {
        false
    } else if a.len() == 0 {
        true
    } else if a[0] != b[0] {
        a[0] < b[0]
    } else {
        bytes_lt(a.drop_first(), b.drop_first())
    }
}

/// No byte string comes before itself.
pub proof fn lemma_bytes_lt_irreflexive(a: Seq<u8>)
    ensures
        !bytes_lt(a, a),
    decreases a.len(),
{
    if a.len() > 0 {
        lemma_bytes_lt_irreflexive(a.drop_first());
    }
}

/// The order is transitive.
pub proof fn lemma_bytes_lt_transitive(a: Seq<u8>, b: Seq<u8>, c: Seq<u8>)
    requires
        bytes_lt(a, b),
        bytes_lt(b, c),
    ensures
        bytes_lt(a, c),
    decreases a.len(),
{
    if a.len() > 0 && a[0] == b[0] && b[0] == c[0] {
        lemma_bytes_lt_transitive(a.drop_first(), b.drop_first(), c.drop_first());
    }
}

/// The order is total: of two different byte strings one comes first.
pub proof fn lemma_bytes_lt_total(a: Seq<u8>, b: Seq<u8>)
    ensures
        a == b || bytes_lt(a, b) || bytes_lt(b, a),
        !(bytes_lt(a, b) && bytes_lt(b, a)),
    decreases a.len(),
{
    if a.len() == 0 || b.len() == 0 {
        if a.len() == 0 && b.len() == 0 {
            assert(a =~= b);
        }
    } else if a[0] == b[0] {
        lemma_bytes_lt_total(a.drop_first(), b.drop_first());
        if a.drop_first() == b.drop_first() {
            assert(a =~= seq![a[0]] + a.drop_first());
            assert(b =~= seq![b[0]] + b.drop_first());
        }
    }
}

/// Whether `a` comes strictly before `b` in lexicographic byte order.
pub fn bytes_before(a: &[u8], b: &[u8]) -> (before: bool)
    ensures
        before == bytes_lt(a@, b@),
{
    let mut i: usize = 0;
    proof {
        assert(a@.skip(0) =~= a@);
        assert(b@.skip(0) =~= b@);
    }
    while i < a.len() && i < b.len()
        invariant
            i <= a@.len(),
            i <= b@.len(),
            bytes_lt(a@, b@) == bytes_lt(a@.skip(i as int), b@.skip(i as int)),
        decreases a@.len() - i,
    {
        proof {
            assert(a@.skip(i as int).drop_first() =~= a@.skip(i + 1));
            assert(b@.skip(i as int).drop_first() =~= b@.skip(i + 1));
        }
        if a[i] != b[i] {
            return a[i] < b[i];
        }
        i = i + 1;
    }
    i < b.len()
}

/// Whether `a` and `b` hold the same bytes.
pub fn bytes_equal(a: &[u8], b: &[u8]) -> (same: bool)
    ensures
        same == (a@ == b@),
{
    if a.len() != b.len() {
        return false;
    }
    let mut i: usize = 0;
    while i < a.len()
        invariant
            i <= a@.len(),
            a@.len() == b@.len(),
            a@.take(i as int) == b@.take(i as int),
        decreases a@.len() - i,
    {
        if a[i] != b[i] {
            return false;
        }
        proof {
            assert(a@.take(i + 1) =~= a@.take(i as int).push(a@[i as int]));
            assert(b@.take(i + 1) =~= b@.take(i as int).push(b@[i as int]));
        }
        i = i + 1;
    }
    proof {
        assert(a@.take(a@.len() as int) =~= a@);
        assert(b@.take(b@.len() as int) =~= b@);
    }
    true
}

} // verus!
