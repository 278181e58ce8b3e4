//! MIDI variable-length quantities: base-128 integers, most significant
//! group first, with the high bit set on every byte but the last.

use vstd::prelude::*;

verus! {

/// The continuation bytes that precede the final group of an encoding of a
/// value whose final group has been stripped off (`m` is the value divided
/// by 128): each carries seven bits and has its high bit set.
pub open spec fn vlq_prefix(m: nat) -> Seq<u8>
    decreases m,
{
    if m == 0 {
        Seq::empty()
    } else {
        vlq_prefix(m / 128).push((m % 128 + 128) as u8)
    }
}

/// The minimal encoding of `n`: continuation groups, then the low seven bits
/// with the high bit clear.
pub open spec fn vlq(n: nat) -> Seq<u8> {
    vlq_prefix(n / 128).push((n % 128) as u8)
}

/// Reading a quantity from `pos` on, with `acc` already accumulated: the
/// value (unbounded) and the position after its final byte, or `None` when
/// the bytes run out before a byte with a clear high bit.
pub open spec fn vlq_decode_from(bytes: Seq<u8>, pos: nat, acc: nat) -> Option<(nat, nat)>
    decreases bytes.len() - pos,
{
    if pos >= bytes.len() {
        None
    } else {
        let b = bytes[pos as int];
        let next = acc * 128 + (b % 128) as nat;
        if b < 128 {
            Some((next, pos + 1))
        } else {
            vlq_decode_from(bytes, pos + 1, next)
        }
    }
}

/// Decoding the quantity that starts at `pos`.
pub open spec fn vlq_decode(bytes: Seq<u8>, pos: nat) -> Option<(nat, nat)> {
    vlq_decode_from(bytes, pos, 0)
}

/// Why a quantity could not be read.
#[derive(Debug, Clone, Copy, PartialEq, Eq, Structural)]
pub enum VlqError {
    /// The bytes ended before a byte with a clear high bit.
    Unterminated,
}

/// Encodes `number` as a variable-length quantity: the low seven bits are
/// taken off repeatedly until nothing is left (at least once), every group
/// but the least significant gets the continuation bit, and the groups are
/// emitted most significant first.
pub fn to_variable_length_bytes(number: usize) -> (r: Vec<u8>)
    ensures
        r@ == vlq(number as nat),
{
    let mut groups: Vec<u8> = Vec::new();
    let mut first_pass = true;
    let mut working_number: usize = number;
    while working_number > 0 || first_pass
        invariant
            first_pass ==> working_number == number && groups@.len() == 0,
            !first_pass ==> vlq(number as nat) == vlq_prefix(working_number as nat)
                + groups@.reverse(),
        decreases working_number, if first_pass { 1nat } else { 0nat },
    {
        let mut tmp: usize = working_number % 128;
        let ghost prev = working_number;
        working_number = working_number / 128;
        if !first_pass {
            tmp = tmp + 128;
        }
        groups.push(tmp as u8);
        proof {
            if !first_pass {
                assert(vlq_prefix(prev as nat) == vlq_prefix(working_number as nat).push(
                    tmp as u8,
                ));
            }
            assert(groups@.reverse() =~= seq![tmp as u8] + groups@.drop_last().reverse());
            if first_pass {
                assert(groups@.drop_last() =~= Seq::<u8>::empty());
            }
            assert(vlq(number as nat) =~= vlq_prefix(working_number as nat) + groups@.reverse());
        }
        first_pass = false;
    }
    let mut output: Vec<u8> = Vec::new();
    let mut k: usize = groups.len();
    while k > 0
        invariant
            k <= groups@.len(),
            output@ =~= groups@.subrange(k as int, groups@.len() as int).reverse(),
        decreases k,
    {
        k = k - 1;
        output.push(groups[k]);
        assert(groups@.subrange(k as int, groups@.len() as int).reverse() =~= groups@.subrange(
            k + 1,
            groups@.len() as int,
        ).reverse().push(groups@[k as int]));
    }
    assert(groups@.subrange(0, groups@.len() as int) =~= groups@);
    output
}

/// Reads one quantity from `bytes` at `*cursor`, moving the cursor past
/// its final byte. Seven bits are taken from each byte until one with a
/// clear high bit; the value is kept modulo 2^64. Running out of bytes
/// first is an error, and the cursor then stays where it was.
pub fn get_variable_length_number(bytes: &[u8], cursor: &mut usize) -> (r: Result<u64, VlqError>)
    ensures
        match vlq_decode(bytes@, *old(cursor) as nat) {
            Some((v, next)) => r == Ok::<u64, VlqError>((v % 0x1_0000_0000_0000_0000) as u64)
                && *final(cursor) as nat == next,
            None => r == Err::<u64, VlqError>(VlqError::Unterminated) && *final(cursor)
                == *old(cursor),
        },
{
    let start = *cursor;
    let mut pos: usize = start;
    let mut n: u64 = 0;
    let ghost mut acc: nat = 0;
    loop
        invariant
            start <= pos,
            vlq_decode(bytes@, start as nat) == vlq_decode_from(bytes@, pos as nat, acc),
            n as nat == acc % 0x1_0000_0000_0000_0000,
            *cursor == start,
            start == *old(cursor),
        decreases bytes@.len() - pos,
    {
        if pos >= bytes.len() {
            return Err(VlqError::Unterminated);
        }
        let x = bytes[pos];
        let low: u64 = (x & 0x7F) as u64;
        assert(x & 0x7F == x % 128) by (bit_vector);
        let shifted = n << 7u64;
        let next = shifted | low;
        assert(next == (n * 128) % 0x1_0000_0000_0000_0000 + low) by (bit_vector)
            requires
                shifted == n << 7u64,
                next == shifted | low,
                low < 128,
        ;
        proof {
            lemma_mod_step(acc, low as nat);
            acc = acc * 128 + low as nat;
        }
        n = next;
        pos = pos + 1;
        if x & 0x80 == 0 {
            assert(x & 0x80 == 0 ==> x < 128) by (bit_vector);
            *cursor = pos;
            return Ok(n);
        }
        assert(x & 0x80 != 0 ==> x >= 128) by (bit_vector);
    }
}

proof fn lemma_mod_step(acc: nat, low: nat)
    requires
        low < 128,
    ensures
        ((acc % 0x1_0000_0000_0000_0000) * 128 % 0x1_0000_0000_0000_0000 + low) as nat
            == (acc * 128 + low) % 0x1_0000_0000_0000_0000,
{
    let m: int = 0x1_0000_0000_0000_0000;
    let a: int = acc as int;
    let l: int = low as int;
    vstd::arithmetic::div_mod::lemma_mul_mod_noop_left(a, 128, m);
    // m is a multiple of 128, so (a * 128) % m leaves room for the low seven bits.
    let q: int = (a * 128) / m;
    let r: int = (a * 128) % m;
    vstd::arithmetic::div_mod::lemma_fundamental_div_mod(a * 128, m);
    assert(r % 128 == 0) by (nonlinear_arith)
        requires
            a * 128 == m * q + r,
            m == 0x1_0000_0000_0000_0000,
            0 <= r < m,
    ;
    assert(r + l < m);
    vstd::arithmetic::div_mod::lemma_mod_add_multiples_vanish(r + l, m);
    assert((a * 128 + l) % m == r + l) by {
        assert(a * 128 + l == m * q + (r + l));
        vstd::arithmetic::div_mod::lemma_fundamental_div_mod_converse(a * 128 + l, m, q, r + l);
    }
}

/// Every byte of a continuation prefix has its high bit set, so a reader
/// passes over all of them, gathering their seven-bit groups into `m`.
proof fn lemma_decode_prefix(bytes: Seq<u8>, pos: nat, m: nat)
    requires
        pos + vlq_prefix(m).len() <= bytes.len(),
        bytes.subrange(pos as int, (pos + vlq_prefix(m).len()) as int) == vlq_prefix(m),
    ensures
        vlq_decode_from(bytes, pos, 0) == vlq_decode_from(bytes, pos + vlq_prefix(m).len(), m),
    decreases m,
{
    if m > 0 {
        let p = vlq_prefix(m / 128);
        assert(vlq_prefix(m) == p.push((m % 128 + 128) as u8));
        let whole = bytes.subrange(pos as int, (pos + vlq_prefix(m).len()) as int);
        assert(bytes.subrange(pos as int, (pos + p.len()) as int) =~= whole.subrange(0, p.len() as int));
        assert(vlq_prefix(m).subrange(0, p.len() as int) =~= p);
        lemma_decode_prefix(bytes, pos, m / 128);
        let b = bytes[(pos + p.len()) as int];
        assert(b == vlq_prefix(m)[p.len() as int]);
        assert(b == (m % 128 + 128) as u8);
        assert((m / 128) * 128 + m % 128 == m) by (nonlinear_arith);
    }
}

/// Decoding the encoding of `n`, followed by anything at all, gives back `n`
/// and stops right after the encoding.
pub proof fn lemma_vlq_round_trip(n: nat, rest: Seq<u8>)
    ensures
        vlq_decode(vlq(n) + rest, 0) == Some((n, vlq(n).len())),
{
    let bytes = vlq(n) + rest;
    let p = vlq_prefix(n / 128);
    assert(bytes.subrange(0, p.len() as int) =~= p);
    lemma_decode_prefix(bytes, 0, n / 128);
    assert(bytes[p.len() as int] == (n % 128) as u8);
    assert((n / 128) * 128 + n % 128 == n) by (nonlinear_arith);
}

/// The first byte of a non-empty continuation prefix carries a non-zero group.
proof fn lemma_prefix_leading(m: nat)
    requires
        m > 0,
    ensures
        vlq_prefix(m).len() > 0,
        vlq_prefix(m)[0] > 0x80,
    decreases m,
{
    assert(vlq_prefix(m) == vlq_prefix(m / 128).push((m % 128 + 128) as u8));
    if m / 128 > 0 {
        lemma_prefix_leading(m / 128);
    } else {
        assert(vlq_prefix(m / 128).len() == 0);
    }
}

/// Encodings are minimal: zero is the single byte `0x00`, one byte suffices
/// exactly below 128, and a longer encoding never starts with `0x80`, the
/// one leading byte that could be dropped without changing the value.
pub proof fn lemma_vlq_minimal(n: nat)
    ensures
        vlq(0) == seq![0u8],
        vlq(n).len() == 1 <==> n < 128,
        vlq(n).len() > 1 ==> vlq(n)[0] > 0x80,
{
    assert(vlq(0) =~= seq![0u8]);
    if n / 128 > 0 {
        lemma_prefix_leading(n / 128);
    }
}

} // verus!
