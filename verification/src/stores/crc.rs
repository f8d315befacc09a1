//! CRC-32 (IEEE 802.3, reflected, polynomial 0xEDB88320), table-driven.

use vstd::prelude::*;

verus! {

/// One step of the shift register: shifts one bit out, and feeds the
/// polynomial back in where that bit was set.
pub open spec fn crc_bit(register: u32) -> u32 {
    if register & 1 != 0 {
        (register >> 1) ^ 0xEDB8_8320
    } else {
        register >> 1
    }
}

/// Eight steps of the shift register.
pub open spec fn crc_byte(register: u32) -> u32 {
    crc_bit(crc_bit(crc_bit(crc_bit(crc_bit(crc_bit(crc_bit(crc_bit(register))))))))
}

/// The shift register after `bytes`: it starts with all bits set, and each
/// byte is added to its low end before eight steps.
pub open spec fn crc_register(bytes: Seq<u8>) -> u32
    decreases bytes.len(),
{
    if bytes.len() == 0 {
        0xFFFF_FFFF
    } else {
        crc_byte(crc_register(bytes.drop_last()) ^ (bytes.last() as u32))
    }
}

/// The CRC-32 of `bytes`.
pub open spec fn crc_of(bytes: Seq<u8>) -> u32 {
    crc_register(bytes) ^ 0xFFFF_FFFF
}

/// `n` steps of the shift register.
spec fn crc_bits(register: u32, n: nat) -> u32
    decreases n,
{
    if n == 0 {
        register
    } else {
        crc_bit(crc_bits(register, (n - 1) as nat))
    }
}

/// Eight steps shift the upper bytes down; what they feed back in depends on
/// the low byte alone.
proof fn lemma_crc_byte_splits(register: u32)
    ensures
        crc_byte(register) == (register >> 8) ^ crc_byte(register & 0xFF),
{
    assert(crc_byte(register) == (register >> 8) ^ crc_byte(register & 0xFF)) by (bit_vector);
}

/// For each low byte, what eight steps make of it.
fn crc32_table() -> (r: [u32; 256])
    ensures
        forall|i: int| 0 <= i < 256 ==> #[trigger] r@[i] == crc_byte(i as u32),
{
    let mut table: [u32; 256] = [0u32; 256];
    let mut i: usize = 0;
    while i < 256
        invariant
            i <= 256,
            forall|k: int| 0 <= k < i ==> #[trigger] table@[k] == crc_byte(k as u32),
        decreases 256 - i,
    {
        let mut crc: u32 = i as u32;
        let mut j: usize = 0;
        while j < 8
            invariant
                j <= 8,
                crc == crc_bits(i as u32, j as nat),
            decreases 8 - j,
        {
            crc = if crc & 1 != 0 {
                (crc >> 1) ^ 0xEDB8_8320
            } else {
                crc >> 1
            };
            j = j + 1;
        }
        proof {
            reveal_with_fuel(crc_bits, 9);
        }
        table[i] = crc;
        i = i + 1;
    }
    table
}

/// The CRC-32 of `bytes`.
pub fn crc32(bytes: &[u8]) -> (r: u32)
    ensures
        r == crc_of(bytes@),
{
    let table = crc32_table();
    let mut crc: u32 = 0xFFFF_FFFF;
    let mut i: usize = 0;
    while i < bytes.len()
        invariant
            i <= bytes@.len(),
            crc == crc_register(bytes@.take(i as int)),
            forall|k: int| 0 <= k < 256 ==> #[trigger] table@[k] == crc_byte(k as u32),
        decreases bytes@.len() - i,
    {
        let byte: u8 = bytes[i];
        let mixed: u32 = crc ^ (byte as u32);
        let index: u32 = mixed & 0xFF;
        proof {
            assert(index < 256) by (bit_vector)
                requires
                    index == mixed & 0xFF,
            ;
            assert(mixed >> 8 == crc >> 8) by (bit_vector)
                requires
                    mixed == crc ^ (byte as u32),
            ;
            lemma_crc_byte_splits(mixed);
            assert(bytes@.take(i + 1).drop_last() =~= bytes@.take(i as int));
        }
        crc = (crc >> 8) ^ table[index as usize];
        i = i + 1;
    }
    assert(bytes@.take(i as int) =~= bytes@);
    crc ^ 0xFFFF_FFFF
}

/// Eight steps of the sum of two registers are the sum of their eight steps.
proof fn lemma_crc_byte_linear(a: u32, b: u32)
    ensures
        crc_byte(a) ^ crc_byte(b) == crc_byte(a ^ b),
{
    lemma_crc_bit_linear(a, b);
    let (a1, b1) = (crc_bit(a), crc_bit(b));
    lemma_crc_bit_linear(a1, b1);
    let (a2, b2) = (crc_bit(a1), crc_bit(b1));
    lemma_crc_bit_linear(a2, b2);
    let (a3, b3) = (crc_bit(a2), crc_bit(b2));
    lemma_crc_bit_linear(a3, b3);
    let (a4, b4) = (crc_bit(a3), crc_bit(b3));
    lemma_crc_bit_linear(a4, b4);
    let (a5, b5) = (crc_bit(a4), crc_bit(b4));
    lemma_crc_bit_linear(a5, b5);
    let (a6, b6) = (crc_bit(a5), crc_bit(b5));
    lemma_crc_bit_linear(a6, b6);
    lemma_crc_bit_linear(crc_bit(a6), crc_bit(b6));
}

/// One step of the sum of two registers is the sum of their steps.
proof fn lemma_crc_bit_linear(a: u32, b: u32)
    ensures
        crc_bit(a) ^ crc_bit(b) == crc_bit(a ^ b),
{
    assert(crc_bit(a) ^ crc_bit(b) == crc_bit(a ^ b)) by (bit_vector);
}

/// No register but zero comes to zero.
proof fn lemma_crc_byte_keeps(a: u32)
    ensures
        crc_byte(a) == 0 ==> a == 0,
        crc_byte(0) == 0,
{
    assert(crc_byte(a) == 0 ==> a == 0) by (bit_vector);
    assert(crc_byte(0) == 0) by (bit_vector);
}

/// What is added above the low byte comes down unchanged.
proof fn lemma_crc_byte_shifts(a: u32, b: u32)
    requires
        b < 0x100_0000,
    ensures
        crc_byte(a ^ (b << 8)) == crc_byte(a) ^ b,
{
    assert(b < 0x100_0000 ==> crc_byte(a ^ (b << 8)) == crc_byte(a) ^ b) by (bit_vector);
}

/// Thirty-two steps of the shift register.
spec fn crc_word(register: u32) -> u32 {
    crc_byte(crc_byte(crc_byte(crc_byte(register))))
}

/// Four bytes, the first of them lowest.
spec fn word_of(a: u8, b: u8, c: u8, d: u8) -> u32 {
    (a as u32) ^ ((b as u32) << 8) ^ ((c as u32) << 16) ^ ((d as u32) << 24)
}

/// Four bytes on top of a register are one word on top of it.
proof fn lemma_four_bytes(register: u32, a: u8, b: u8, c: u8, d: u8)
    ensures
        crc_byte(
            crc_byte(crc_byte(crc_byte(register ^ (a as u32)) ^ (b as u32)) ^ (c as u32)) ^ (
            d as u32),
        ) == crc_word(register ^ word_of(a, b, c, d)),
{
    let (p, q, r, t) = (a as u32, b as u32, c as u32, d as u32);
    let low = register ^ p;
    // Each later byte is as good as added further up before.
    let upper = q ^ (r << 8) ^ (t << 16);
    let middle = r ^ (t << 8);
    assert(upper < 0x100_0000 && middle < 0x100_0000 && t < 0x100_0000 && middle << 8 == (r << 8)
        ^ (t << 16) && upper == q ^ (middle << 8) && middle == r ^ (t << 8) && register ^ (p ^ (q
        << 8) ^ (r << 16) ^ (t << 24)) == low ^ (upper << 8)) by (bit_vector)
        requires
            p < 256,
            q < 256,
            r < 256,
            t < 256,
            low == register ^ p,
            upper == q ^ (r << 8) ^ (t << 16),
            middle == r ^ (t << 8),
    ;
    lemma_crc_byte_shifts(low, upper);
    let one = crc_byte(low);
    assert(one ^ upper == (one ^ q) ^ (middle << 8)) by (bit_vector)
        requires
            upper == q ^ (middle << 8),
    ;
    lemma_crc_byte_shifts(one ^ q, middle);
    let two = crc_byte(one ^ q);
    assert(two ^ middle == (two ^ r) ^ (t << 8)) by (bit_vector)
        requires
            middle == r ^ (t << 8),
    ;
    lemma_crc_byte_shifts(two ^ r, t);
}

/// The register after four more bytes.
proof fn lemma_register_after_four(bytes: Seq<u8>, a: u8, b: u8, c: u8, d: u8)
    ensures
        crc_register(bytes + seq![a, b, c, d]) == crc_word(
            crc_register(bytes) ^ word_of(a, b, c, d),
        ),
{
    let one = bytes.push(a);
    let two = one.push(b);
    let three = two.push(c);
    let four = three.push(d);
    assert(four =~= bytes + seq![a, b, c, d]);
    assert(one.drop_last() =~= bytes);
    assert(two.drop_last() =~= one);
    assert(three.drop_last() =~= two);
    assert(four.drop_last() =~= three);
    assert(crc_register(one) == crc_byte(crc_register(bytes) ^ (a as u32)));
    assert(crc_register(two) == crc_byte(crc_register(one) ^ (b as u32)));
    assert(crc_register(three) == crc_byte(crc_register(two) ^ (c as u32)));
    assert(crc_register(four) == crc_byte(crc_register(three) ^ (d as u32)));
    lemma_four_bytes(crc_register(bytes), a, b, c, d);
}

/// How far apart the registers of two byte strings are, after one more byte
/// each.
proof fn lemma_registers_apart(a: Seq<u8>, b: Seq<u8>)
    requires
        a.len() > 0,
        b.len() > 0,
    ensures
        crc_register(a) ^ crc_register(b) == crc_byte(
            (crc_register(a.drop_last()) ^ crc_register(b.drop_last())) ^ ((a.last() as u32) ^ (
            b.last() as u32)),
        ),
{
    let (ra, rb) = (crc_register(a.drop_last()), crc_register(b.drop_last()));
    let (x, y) = (a.last() as u32, b.last() as u32);
    lemma_crc_byte_linear(ra ^ x, rb ^ y);
    assert((ra ^ x) ^ (rb ^ y) == (ra ^ rb) ^ (x ^ y)) by (bit_vector);
}

/// Registers that differ go on differing while the bytes are the same, and
/// registers that are the same stay the same.
proof fn lemma_same_bytes_keep(a: Seq<u8>, b: Seq<u8>, n: int)
    requires
        a.len() == b.len(),
        0 <= n <= a.len(),
        forall|i: int| n <= i < a.len() ==> a[i] == b[i],
    ensures
        crc_register(a) == crc_register(b) <==> crc_register(a.take(n)) == crc_register(b.take(n)),
    decreases a.len() - n,
{
    if n == a.len() {
        assert(a.take(n) =~= a);
        assert(b.take(n) =~= b);
    } else {
        let (shorter_a, shorter_b) = (a.drop_last(), b.drop_last());
        lemma_same_bytes_keep(shorter_a, shorter_b, n);
        assert(shorter_a.take(n) =~= a.take(n));
        assert(shorter_b.take(n) =~= b.take(n));
        lemma_registers_apart(a, b);
        let (p, q) = (crc_register(shorter_a), crc_register(shorter_b));
        let x = a.last() as u32;
        assert(a[a.len() - 1] == b[b.len() - 1]);
        let apart = (p ^ q) ^ (x ^ x);
        assert(apart == p ^ q && (p ^ q == 0 <==> p == q)) by (bit_vector)
            requires
                apart == (p ^ q) ^ (x ^ x),
        ;
        lemma_crc_byte_keeps(apart);
        let (ra, rb) = (crc_register(a), crc_register(b));
        assert(ra ^ rb == 0 <==> ra == rb) by (bit_vector);
    }
}

/// Two byte strings that differ only within four bytes in a row.
proof fn lemma_short_error(a: Seq<u8>, b: Seq<u8>, k: int)
    requires
        a.len() == b.len(),
        a != b,
        0 <= k <= a.len() - 4,
        forall|i: int| 0 <= i < a.len() && !(k <= i < k + 4) ==> a[i] == b[i],
    ensures
        crc_of(a) != crc_of(b),
{
    let (head_a, head_b) = (a.take(k), b.take(k));
    assert(head_a =~= head_b);
    lemma_register_after_four(head_a, a[k], a[k + 1], a[k + 2], a[k + 3]);
    lemma_register_after_four(head_b, b[k], b[k + 1], b[k + 2], b[k + 3]);
    assert(a.take(k + 4) =~= head_a + seq![a[k], a[k + 1], a[k + 2], a[k + 3]]);
    assert(b.take(k + 4) =~= head_b + seq![b[k], b[k + 1], b[k + 2], b[k + 3]]);
    lemma_words_apart(
        crc_register(head_a),
        a[k],
        a[k + 1],
        a[k + 2],
        a[k + 3],
        b[k],
        b[k + 1],
        b[k + 2],
        b[k + 3],
    );
    if crc_register(a.take(k + 4)) == crc_register(b.take(k + 4)) {
        assert forall|i: int| 0 <= i < a.len() implies a[i] == b[i] by {
            if k <= i < k + 4 {
                assert(i == k || i == k + 1 || i == k + 2 || i == k + 3);
            }
        }
        assert(a =~= b);
    }
    lemma_same_bytes_keep(a, b, k + 4);
    lemma_of_registers(crc_register(a), crc_register(b));
}

/// The checksum covers every byte: two byte strings of the same length that
/// differ, and differ only within four bytes in a row, wherever these are,
/// have different checksums.
pub proof fn a_short_error_changes_the_checksum(a: Seq<u8>, b: Seq<u8>, k: int)
    requires
        a.len() == b.len(),
        a != b,
        forall|i: int| 0 <= i < a.len() && !(k <= i < k + 4) ==> a[i] == b[i],
    ensures
        crc_of(a) != crc_of(b),
{
    if a.len() < 4 {
        lemma_short_strings(a, b);
    } else {
        let within: int = if k < 0 {
            0
        } else if k > a.len() - 4 {
            a.len() - 4
        } else {
            k
        };
        lemma_short_error(a, b, within);
    }
}

/// One byte that is overwritten by another changes the checksum, wherever it
/// stands.
pub proof fn an_overwritten_byte_changes_the_checksum(bytes: Seq<u8>, k: int, byte: u8)
    requires
        0 <= k < bytes.len(),
        byte != bytes[k],
    ensures
        crc_of(bytes.update(k, byte)) != crc_of(bytes),
{
    let other = bytes.update(k, byte);
    assert(other[k] != bytes[k]);
    a_short_error_changes_the_checksum(other, bytes, k);
}

proof fn lemma_of_registers(a: u32, b: u32)
    ensures
        a ^ 0xFFFF_FFFF == b ^ 0xFFFF_FFFF ==> a == b,
{
    assert(a ^ 0xFFFF_FFFF == b ^ 0xFFFF_FFFF ==> a == b) by (bit_vector);
}

/// Different words on top of one register make different registers.
proof fn lemma_words_apart(
    register: u32,
    a: u8,
    b: u8,
    c: u8,
    d: u8,
    p: u8,
    q: u8,
    r: u8,
    t: u8,
)
    ensures
        crc_word(register ^ word_of(a, b, c, d)) == crc_word(register ^ word_of(p, q, r, t)) ==> a
            == p && b == q && c == r && d == t,
{
    let x = register ^ word_of(a, b, c, d);
    let y = register ^ word_of(p, q, r, t);
    lemma_crc_byte_apart(x, y);
    lemma_crc_byte_apart(crc_byte(x), crc_byte(y));
    lemma_crc_byte_apart(crc_byte(crc_byte(x)), crc_byte(crc_byte(y)));
    lemma_crc_byte_apart(crc_byte(crc_byte(crc_byte(x))), crc_byte(crc_byte(crc_byte(y))));
    assert(register ^ ((a as u32) ^ ((b as u32) << 8) ^ ((c as u32) << 16) ^ ((d as u32) << 24))
        == register ^ ((p as u32) ^ ((q as u32) << 8) ^ ((r as u32) << 16) ^ ((t as u32) << 24))
        ==> a == p && b == q && c == r && d == t) by (bit_vector);
}

proof fn lemma_crc_byte_apart(x: u32, y: u32)
    ensures
        crc_byte(x) == crc_byte(y) ==> x == y,
{
    lemma_crc_byte_linear(x, y);
    lemma_crc_byte_keeps(x ^ y);
    let (p, q) = (crc_byte(x), crc_byte(y));
    assert((p == q ==> p ^ q == 0) && (x ^ y == 0 ==> x == y)) by (bit_vector);
}

/// Byte strings of fewer than four bytes with the same register are the same.
proof fn lemma_short_strings(a: Seq<u8>, b: Seq<u8>)
    requires
        a.len() == b.len() < 4,
        a != b,
    ensures
        crc_of(a) != crc_of(b),
{
    let zeros = Seq::new((4 - a.len()) as nat, |i: int| 0u8);
    let (long_a, long_b) = (a + zeros, b + zeros);
    let none = Seq::<u8>::empty();
    assert(long_a =~= none + seq![long_a[0], long_a[1], long_a[2], long_a[3]]);
    assert(long_b =~= none + seq![long_b[0], long_b[1], long_b[2], long_b[3]]);
    lemma_register_after_four(none, long_a[0], long_a[1], long_a[2], long_a[3]);
    lemma_register_after_four(none, long_b[0], long_b[1], long_b[2], long_b[3]);
    lemma_words_apart(
        crc_register(none),
        long_a[0],
        long_a[1],
        long_a[2],
        long_a[3],
        long_b[0],
        long_b[1],
        long_b[2],
        long_b[3],
    );
    if crc_register(long_a) == crc_register(long_b) {
        assert forall|i: int| 0 <= i < a.len() implies a[i] == b[i] by {
            assert(long_a[i] == a[i] && long_b[i] == b[i]);
            assert(i == 0 || i == 1 || i == 2);
        }
        assert(a =~= b);
    }
    lemma_same_bytes_keep(long_a, long_b, a.len() as int);
    assert(long_a.take(a.len() as int) =~= a);
    assert(long_b.take(a.len() as int) =~= b);
    lemma_of_registers(crc_register(a), crc_register(b));
}

/// The bytes of `word`, the lowest first.
pub open spec fn little_endian(word: u32) -> Seq<u8> {
    seq![
        (word & 0xFF) as u8,
        ((word >> 8) & 0xFF) as u8,
        ((word >> 16) & 0xFF) as u8,
        ((word >> 24) & 0xFF) as u8,
    ]
}

/// Every message leaves the same residue: followed by its own checksum, its
/// lowest byte first, it has the checksum 0x2144DF1C, whatever the message
/// is. So the checksum is the remainder of the whole message.
pub proof fn every_message_leaves_the_residue(bytes: Seq<u8>)
    ensures
        crc_of(bytes + little_endian(crc_of(bytes))) == 0x2144_DF1C,
{
    let register = crc_register(bytes);
    let sum = crc_of(bytes);
    let (a, b, c, d) = (
        (sum & 0xFF) as u8,
        ((sum >> 8) & 0xFF) as u8,
        ((sum >> 16) & 0xFF) as u8,
        ((sum >> 24) & 0xFF) as u8,
    );
    assert(little_endian(sum) =~= seq![a, b, c, d]);
    lemma_register_after_four(bytes, a, b, c, d);
    assert(register ^ (((sum & 0xFF) as u8 as u32) ^ ((((sum >> 8) & 0xFF) as u8 as u32) << 8) ^ (((
    (sum >> 16) & 0xFF) as u8 as u32) << 16) ^ ((((sum >> 24) & 0xFF) as u8 as u32) << 24))
        == 0xFFFF_FFFFu32) by (bit_vector)
        requires
            sum == register ^ 0xFFFF_FFFF,
    ;
    assert(crc_byte(crc_byte(crc_byte(crc_byte(0xFFFF_FFFFu32)))) ^ 0xFFFF_FFFF == 0x2144_DF1Cu32)
        by (bit_vector);
}

/// Checksums add up: of three messages of the same length, the checksums sum
/// to the checksum of their sum, byte by byte without carry.
pub proof fn checksums_add_up(a: Seq<u8>, b: Seq<u8>, c: Seq<u8>, sum: Seq<u8>)
    requires
        a.len() == b.len() == c.len() == sum.len(),
        forall|i: int| 0 <= i < sum.len() ==> #[trigger] sum[i] == a[i] ^ b[i] ^ c[i],
    ensures
        crc_of(sum) == crc_of(a) ^ crc_of(b) ^ crc_of(c),
    decreases a.len(),
{
    if a.len() == 0 {
        assert(0xFFFF_FFFFu32 ^ 0xFFFF_FFFFu32 == (0xFFFF_FFFFu32 ^ 0xFFFF_FFFFu32) ^ (
        0xFFFF_FFFFu32 ^ 0xFFFF_FFFFu32) ^ (0xFFFF_FFFFu32 ^ 0xFFFF_FFFFu32)) by (bit_vector);
    } else {
        let (p, q, r, t) = (a.drop_last(), b.drop_last(), c.drop_last(), sum.drop_last());
        assert forall|i: int| 0 <= i < t.len() implies #[trigger] t[i] == p[i] ^ q[i] ^ r[i] by {
            assert(t[i] == sum[i]);
        }
        checksums_add_up(p, q, r, t);
        let (rp, rq, rr, rt) = (
            crc_register(p),
            crc_register(q),
            crc_register(r),
            crc_register(t),
        );
        let (x, y, z, w) = (a.last(), b.last(), c.last(), sum.last());
        assert(sum[sum.len() - 1] == x ^ y ^ z);
        assert(rt == rp ^ rq ^ rr) by (bit_vector)
            requires
                rt ^ 0xFFFF_FFFF == (rp ^ 0xFFFF_FFFF) ^ (rq ^ 0xFFFF_FFFF) ^ (rr ^ 0xFFFF_FFFF),
        ;
        let (ux, uy, uz, uw) = (x as u32, y as u32, z as u32, w as u32);
        assert(w as u32 == (x as u32) ^ (y as u32) ^ (z as u32)) by (bit_vector)
            requires
                w == x ^ y ^ z,
        ;
        lemma_crc_byte_linear(rp ^ ux, rq ^ uy);
        lemma_crc_byte_linear((rp ^ ux) ^ (rq ^ uy), rr ^ uz);
        assert(rt ^ uw == (rp ^ ux) ^ (rq ^ uy) ^ (rr ^ uz)) by (bit_vector)
            requires
                rt == rp ^ rq ^ rr,
                uw == ux ^ uy ^ uz,
        ;
        let (ra, rb, rc, rs) = (
            crc_register(a),
            crc_register(b),
            crc_register(c),
            crc_register(sum),
        );
        assert(rs ^ 0xFFFF_FFFF == (ra ^ 0xFFFF_FFFF) ^ (rb ^ 0xFFFF_FFFF) ^ (rc ^ 0xFFFF_FFFF))
            by (bit_vector)
            requires
                rs == ra ^ rb ^ rc,
        ;
    }
}

} // verus!
