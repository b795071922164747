//! Mathematical model of the codec: the alphabet, positional digit
//! strings in an arbitrary base, and the meaning of `encode` and
//! `decode` as functions on sequences.

use vstd::prelude::*;
use vstd::arithmetic::div_mod::{
    lemma_div_denominator, lemma_fundamental_div_mod, lemma_fundamental_div_mod_converse,
};

verus! {

/// The 24 symbols in order: the digit of value `d` is written `alphabet()[d]`.
pub open spec fn alphabet() -> Seq<char> {
    seq![
        'Z', 'A', 'C', '2', 'B', '3', 'E', 'F', '4', 'G', 'H', '5',
        'T', 'K', '6', '7', 'P', '8', 'R', 'S', '9', 'W', 'X', 'Y',
    ]
}

/// The reverse table: digit value of one character, accepting the
/// canonical symbol and its lowercase form alike; `None` for every
/// character outside the alphabet.
pub open spec fn digit_of(c: char) -> Option<u8> {
    if c == 'Z' || c == 'z' {
        Some(0u8)
    } else if c == 'A' || c == 'a' {
        Some(1u8)
    } else if c == 'C' || c == 'c' {
        Some(2u8)
    } else if c == '2' {
        Some(3u8)
    } else if c == 'B' || c == 'b' {
        Some(4u8)
    } else if c == '3' {
        Some(5u8)
    } else if c == 'E' || c == 'e' {
        Some(6u8)
    } else if c == 'F' || c == 'f' {
        Some(7u8)
    } else if c == '4' {
        Some(8u8)
    } else if c == 'G' || c == 'g' {
        Some(9u8)
    } else if c == 'H' || c == 'h' {
        Some(10u8)
    } else if c == '5' {
        Some(11u8)
    } else if c == 'T' || c == 't' {
        Some(12u8)
    } else if c == 'K' || c == 'k' {
        Some(13u8)
    } else if c == '6' {
        Some(14u8)
    } else if c == '7' {
        Some(15u8)
    } else if c == 'P' || c == 'p' {
        Some(16u8)
    } else if c == '8' {
        Some(17u8)
    } else if c == 'R' || c == 'r' {
        Some(18u8)
    } else if c == 'S' || c == 's' {
        Some(19u8)
    } else if c == '9' {
        Some(20u8)
    } else if c == 'W' || c == 'w' {
        Some(21u8)
    } else if c == 'X' || c == 'x' {
        Some(22u8)
    } else if c == 'Y' || c == 'y' {
        Some(23u8)
    } else {
        None
    }
}

/// A character every position of `s` resolves in the reverse table.
pub open spec fn all_valid(s: Seq<char>) -> bool {
    forall|i: int| 0 <= i < s.len() ==> digit_of(s[i]) is Some
}

/// The digit values of a string of symbols (meaningful where `all_valid` holds).
pub open spec fn digits_seq(s: Seq<char>) -> Seq<u8> {
    s.map_values(|c: char| digit_of(c).unwrap())
}

/// `b` raised to the `n`th power.
pub open spec fn pow_of(b: nat, n: nat) -> nat
    decreases n,
{
    if n == 0 {
        1
    } else {
        b * pow_of(b, (n - 1) as nat)
    }
}

/// The `n` base-`b` digits of `v`, most significant first
/// (the low `n` digits, where `v` has more).
pub open spec fn digits_of(b: nat, v: nat, n: nat) -> Seq<u8>
    decreases n,
{
    if n == 0 {
        Seq::empty()
    } else {
        digits_of(b, v / b, (n - 1) as nat).push((v % b) as u8)
    }
}

/// The value of a base-`b` digit string read most significant first:
/// a left fold of `acc * b + digit`.
pub open spec fn val_of(b: nat, ds: Seq<u8>) -> nat
    decreases ds.len(),
{
    if ds.len() == 0 {
        0
    } else {
        (val_of(b, ds.drop_last()) * b + ds.last()) as nat
    }
}

pub proof fn lemma_pow_of_pos(b: nat, n: nat)
    requires
        b >= 1,
    ensures
        pow_of(b, n) >= 1,
    decreases n,
{
    if n > 0 {
        lemma_pow_of_pos(b, (n - 1) as nat);
        assert(b * pow_of(b, (n - 1) as nat) >= 1) by (nonlinear_arith)
            requires
                b >= 1,
                pow_of(b, (n - 1) as nat) >= 1,
        ;
    }
}

/// Folding the digit string of `v` back up yields `v` modulo `b^n`.
pub proof fn lemma_val_of_digits_of(b: nat, v: nat, n: nat)
    requires
        2 <= b <= 256,
    ensures
        val_of(b, digits_of(b, v, n)) == v % pow_of(b, n),
    decreases n,
{
    if n == 0 {
        vstd::arithmetic::div_mod::lemma_mod_multiples_basic(v as int, 1);
    } else {
        let ds = digits_of(b, v, n);
        let dsp = digits_of(b, v / b, (n - 1) as nat);
        let p: nat = pow_of(b, (n - 1) as nat);
        lemma_digits_of_bounds(b, v / b, (n - 1) as nat);
        assert(ds == dsp.push((v % b) as u8));
        assert(ds.drop_last() =~= dsp);
        assert(ds.last() == (v % b) as u8);
        assert(val_of(b, ds) == val_of(b, dsp) * b + v % b);
        lemma_val_of_digits_of(b, v / b, (n - 1) as nat);
        assert(val_of(b, dsp) == (v / b) % p);
        lemma_pow_of_pos(b, (n - 1) as nat);
        vstd::arithmetic::div_mod::lemma_breakdown(v as int, b as int, p as int);
        assert(v % (b * p) == b * ((v / b) % p) + v % b);
        assert(((v / b) % p) * b == b * ((v / b) % p)) by (nonlinear_arith);
        assert(pow_of(b, n) == b * p);
    }
}

/// Digit strings are bounded by the base, position by position.
pub proof fn lemma_digits_of_bounds(b: nat, v: nat, n: nat)
    requires
        1 <= b <= 256,
    ensures
        digits_of(b, v, n).len() == n,
        forall|i: int| 0 <= i < n ==> digits_of(b, v, n)[i] < b,
    decreases n,
{
    if n > 0 {
        lemma_digits_of_bounds(b, v / b, (n - 1) as nat);
        let ds = digits_of(b, v, n);
        let dsp = digits_of(b, v / b, (n - 1) as nat);
        assert(forall|i: int| 0 <= i < n - 1 ==> ds[i] == dsp[i]);
        assert(ds[n - 1] == (v % b) as u8);
    }
}

/// The value of an in-range digit string is below `b^n`.
pub proof fn lemma_val_of_bound(b: nat, ds: Seq<u8>)
    requires
        1 <= b,
        forall|i: int| 0 <= i < ds.len() ==> ds[i] < b,
    ensures
        val_of(b, ds) < pow_of(b, ds.len()),
    decreases ds.len(),
{
    if ds.len() > 0 {
        let dsp = ds.drop_last();
        assert(forall|i: int| 0 <= i < dsp.len() ==> dsp[i] == ds[i]);
        lemma_val_of_bound(b, dsp);
        assert(val_of(b, dsp) <= pow_of(b, dsp.len()) - 1);
        assert(val_of(b, dsp) * b + b <= pow_of(b, dsp.len()) * b) by (nonlinear_arith)
            requires
                val_of(b, dsp) <= pow_of(b, dsp.len()) - 1,
                b >= 1,
        ;
        assert(ds.last() < b);
        assert(val_of(b, ds) == val_of(b, dsp) * b + ds.last());
        assert(pow_of(b, ds.len()) == b * pow_of(b, dsp.len()));
        assert(pow_of(b, dsp.len()) * b == b * pow_of(b, dsp.len())) by (nonlinear_arith);
    }
}

/// Taking the digits of a folded-up in-range digit string gives the
/// string back: the two directions are mutually inverse.
pub proof fn lemma_digits_of_val_of(b: nat, ds: Seq<u8>)
    requires
        2 <= b <= 256,
        forall|i: int| 0 <= i < ds.len() ==> ds[i] < b,
    ensures
        digits_of(b, val_of(b, ds), ds.len()) == ds,
    decreases ds.len(),
{
    if ds.len() > 0 {
        let dsp = ds.drop_last();
        let w: nat = val_of(b, ds);
        assert(forall|i: int| 0 <= i < dsp.len() ==> dsp[i] == ds[i]);
        assert(w == val_of(b, dsp) * b + ds.last());
        lemma_fundamental_div_mod_converse(w as int, b as int, val_of(b, dsp) as int, ds.last() as int);
        assert(w / b == val_of(b, dsp));
        assert(w % b == ds.last());
        lemma_digits_of_val_of(b, dsp);
        assert(digits_of(b, w, ds.len()) =~= ds);
    }
}

/// Each digit read off directly: position `i` (from the most
/// significant end) of the digits of `v` is `v / b^(n-1-i) mod b`.
pub proof fn lemma_digits_of_index(b: nat, v: nat, n: nat, i: int)
    requires
        2 <= b <= 256,
        0 <= i < n,
    ensures
        digits_of(b, v, n)[i] == (v / pow_of(b, (n - 1 - i) as nat)) % b,
    decreases n,
{
    let sub = digits_of(b, v / b, (n - 1) as nat);
    lemma_digits_of_bounds(b, v / b, (n - 1) as nat);
    assert(digits_of(b, v, n) == sub.push((v % b) as u8));
    if i == n - 1 {
        assert(digits_of(b, v, n)[i] == (v % b) as u8);
        assert(pow_of(b, 0) == 1);
        assert(v / 1 == v) by (nonlinear_arith);
    } else {
        lemma_digits_of_index(b, v / b, (n - 1) as nat, i);
        assert(digits_of(b, v, n)[i] == sub[i]);
        let k: nat = (n - 2 - i) as nat;
        lemma_pow_of_pos(b, k);
        lemma_div_denominator(v as int, b as int, pow_of(b, k) as int);
        assert(pow_of(b, (n - 1 - i) as nat) == b * pow_of(b, k));
        assert((v / b) / pow_of(b, k) == v / (b * pow_of(b, k)));
    }
}

/// `c` is one of the 24 canonical symbols: the exact case the alphabet uses.
pub open spec fn is_canonical_char(c: char) -> bool {
    digit_of(c) is Some && alphabet()[digit_of(c).unwrap() as int] == c
}

/// Every character of `s` is a canonical symbol.
pub open spec fn canonical(s: Seq<char>) -> bool {
    forall|i: int| 0 <= i < s.len() ==> is_canonical_char(s[i])
}

/// The 7 symbols of one chunk, most significant first.
pub open spec fn encode_chunk(v: nat) -> Seq<char> {
    digits_of(24, v, 7).map_values(|d: u8| alphabet()[d as int])
}

/// The number one 7-symbol group denotes (meaningful where `all_valid` holds).
pub open spec fn group_val(s: Seq<char>) -> nat {
    val_of(24, digits_seq(s))
}

/// The 4 bytes one 7-symbol group decodes to. Groups denote numbers up
/// to `24^7 - 1`, which exceeds `2^32 - 1`; taking the low four base-256
/// digits keeps exactly the low 32 bits, the wraparound the library
/// promises for out-of-range groups.
pub open spec fn decode_chunk(s: Seq<char>) -> Seq<u8> {
    digits_of(256, group_val(s), 4)
}

/// What `encode` returns on an accepted input (byte length a multiple of 4):
/// each 4-byte chunk, read big endian, written as 7 symbols.
pub open spec fn encode_spec(bts: Seq<u8>) -> Seq<char>
    decreases bts.len(),
{
    if bts.len() < 4 {
        Seq::empty()
    } else {
        encode_chunk(val_of(256, bts.take(4))) + encode_spec(bts.skip(4))
    }
}

/// What `decode` returns on an accepted input (character count a multiple
/// of 7, every character in the reverse table): each 7-symbol group,
/// folded in radix 24, written as 4 big-endian bytes.
pub open spec fn decode_spec(s: Seq<char>) -> Seq<u8>
    decreases s.len(),
{
    if s.len() < 7 {
        Seq::empty()
    } else {
        decode_chunk(s.take(7)) + decode_spec(s.skip(7))
    }
}

/// The forward and reverse tables agree: symbol `d` looks back up as `d`.
pub proof fn lemma_alphabet_digit(d: int)
    requires
        0 <= d < 24,
    ensures
        digit_of(alphabet()[d]) == Some(d as u8),
        alphabet().len() == 24,
{
    assert(alphabet()[0] == 'Z');
    assert(alphabet()[1] == 'A');
    assert(alphabet()[2] == 'C');
    assert(alphabet()[3] == '2');
    assert(alphabet()[4] == 'B');
    assert(alphabet()[5] == '3');
    assert(alphabet()[6] == 'E');
    assert(alphabet()[7] == 'F');
    assert(alphabet()[8] == '4');
    assert(alphabet()[9] == 'G');
    assert(alphabet()[10] == 'H');
    assert(alphabet()[11] == '5');
    assert(alphabet()[12] == 'T');
    assert(alphabet()[13] == 'K');
    assert(alphabet()[14] == '6');
    assert(alphabet()[15] == '7');
    assert(alphabet()[16] == 'P');
    assert(alphabet()[17] == '8');
    assert(alphabet()[18] == 'R');
    assert(alphabet()[19] == 'S');
    assert(alphabet()[20] == '9');
    assert(alphabet()[21] == 'W');
    assert(alphabet()[22] == 'X');
    assert(alphabet()[23] == 'Y');
}

/// A base-`b` value of four digits, spelled out.
pub proof fn lemma_val_of_4(b: nat, s: Seq<u8>)
    requires
        s.len() == 4,
    ensures
        val_of(b, s) == ((s[0] * b + s[1]) * b + s[2]) * b + s[3],
{
    let s3 = s.drop_last();
    let s2 = s3.drop_last();
    let s1 = s2.drop_last();
    let s0 = s1.drop_last();
    assert(s0 =~= Seq::<u8>::empty());
    assert(val_of(b, s0) == 0);
    assert(s1.last() == s[0]);
    assert(s2.last() == s[1]);
    assert(s3.last() == s[2]);
    assert(s.last() == s[3]);
    assert(val_of(b, s1) == val_of(b, s0) * b + s1.last());
    assert(val_of(b, s1) == s[0]);
    assert(val_of(b, s2) == s[0] * b + s[1]);
    assert(val_of(b, s3) == (s[0] * b + s[1]) * b + s[2]);
}

/// Only the low `n` digits of `v` exist, so reducing `v` mod `b^n`
/// first changes nothing.
pub proof fn lemma_digits_of_mod(b: nat, v: nat, n: nat)
    requires
        2 <= b <= 256,
    ensures
        digits_of(b, v % pow_of(b, n), n) == digits_of(b, v, n),
{
    let ds = digits_of(b, v, n);
    lemma_digits_of_bounds(b, v, n);
    lemma_val_of_digits_of(b, v, n);
    lemma_digits_of_val_of(b, ds);
}

/// Powers grow with the exponent.
pub proof fn lemma_pow_of_le(b: nat, m: nat, n: nat)
    requires
        1 <= b,
        m <= n,
    ensures
        pow_of(b, m) <= pow_of(b, n),
    decreases n,
{
    if m < n {
        lemma_pow_of_le(b, m, (n - 1) as nat);
        lemma_pow_of_pos(b, (n - 1) as nat);
        assert(pow_of(b, (n - 1) as nat) <= b * pow_of(b, (n - 1) as nat)) by (nonlinear_arith)
            requires
                b >= 1,
                pow_of(b, (n - 1) as nat) >= 1,
        ;
    }
}

/// The concrete sizes of the two chunk spaces: powers of 24 up to
/// `24^7`, and of 256 up to `256^4`.
pub proof fn lemma_chunk_space()
    ensures
        pow_of(24, 6) == 191102976,
        pow_of(24, 7) == 4586471424,
        pow_of(256, 1) == 256,
        pow_of(256, 2) == 65536,
        pow_of(256, 3) == 16777216,
        pow_of(256, 4) == 4294967296,
{
    assert(pow_of(24, 0) == 1);
    assert(pow_of(24, 1) == 24);
    assert(pow_of(24, 2) == 576);
    assert(pow_of(24, 3) == 13824);
    assert(pow_of(24, 4) == 331776);
    assert(pow_of(24, 5) == 7962624);
    assert(pow_of(24, 6) == 191102976);
    assert(pow_of(24, 7) == 4586471424);
    assert(pow_of(256, 0) == 1);
    assert(pow_of(256, 1) == 256);
    assert(pow_of(256, 2) == 65536);
    assert(pow_of(256, 3) == 16777216);
    assert(pow_of(256, 4) == 4294967296);
}

/// An encoded chunk is 7 canonical symbols whose group value is
/// `v mod 24^7`.
pub proof fn lemma_encode_chunk_props(v: nat)
    ensures
        encode_chunk(v).len() == 7,
        all_valid(encode_chunk(v)),
        canonical(encode_chunk(v)),
        digits_seq(encode_chunk(v)) == digits_of(24, v, 7),
        group_val(encode_chunk(v)) == v % pow_of(24, 7),
{
    let ds = digits_of(24, v, 7);
    let cs = encode_chunk(v);
    lemma_digits_of_bounds(24, v, 7);
    assert forall|i: int| 0 <= i < 7 implies digit_of(cs[i]) == Some(ds[i]) by {
        lemma_alphabet_digit(ds[i] as int);
    }
    assert(digits_seq(cs) =~= ds);
    lemma_val_of_digits_of(24, v, 7);
}

/// `encode_spec` distributes over concatenation at chunk boundaries.
pub proof fn lemma_encode_spec_append(x: Seq<u8>, y: Seq<u8>)
    requires
        x.len() % 4 == 0,
    ensures
        encode_spec(x + y) == encode_spec(x) + encode_spec(y),
    decreases x.len(),
{
    if x.len() == 0 {
        assert(x + y =~= y);
        assert(encode_spec(x) + encode_spec(y) =~= encode_spec(y));
    } else {
        assert((x + y).take(4) =~= x.take(4));
        assert((x + y).skip(4) =~= x.skip(4) + y);
        lemma_fundamental_div_mod(x.len() as int, 4);
        lemma_fundamental_div_mod_converse(x.len() - 4, 4, x.len() / 4 - 1, 0);
        lemma_encode_spec_append(x.skip(4), y);
        assert(encode_chunk(val_of(256, x.take(4))) + (encode_spec(x.skip(4)) + encode_spec(y))
            =~= (encode_chunk(val_of(256, x.take(4))) + encode_spec(x.skip(4))) + encode_spec(y));
    }
}

/// `decode_spec` distributes over concatenation at group boundaries.
pub proof fn lemma_decode_spec_append(x: Seq<char>, y: Seq<char>)
    requires
        x.len() % 7 == 0,
    ensures
        decode_spec(x + y) == decode_spec(x) + decode_spec(y),
    decreases x.len(),
{
    if x.len() == 0 {
        assert(x + y =~= y);
        assert(decode_spec(x) + decode_spec(y) =~= decode_spec(y));
    } else {
        assert((x + y).take(7) =~= x.take(7));
        assert((x + y).skip(7) =~= x.skip(7) + y);
        lemma_fundamental_div_mod(x.len() as int, 7);
        lemma_fundamental_div_mod_converse(x.len() - 7, 7, x.len() / 7 - 1, 0);
        lemma_decode_spec_append(x.skip(7), y);
        assert(decode_chunk(x.take(7)) + (decode_spec(x.skip(7)) + decode_spec(y))
            =~= (decode_chunk(x.take(7)) + decode_spec(x.skip(7))) + decode_spec(y));
    }
}

/// Four bytes in give seven symbols out, chunk for chunk.
pub proof fn lemma_encode_spec_len(bts: Seq<u8>)
    requires
        bts.len() % 4 == 0,
    ensures
        encode_spec(bts).len() == bts.len() / 4 * 7,
    decreases bts.len(),
{
    if bts.len() >= 4 {
        lemma_fundamental_div_mod(bts.len() as int, 4);
        lemma_fundamental_div_mod_converse(bts.len() - 4, 4, bts.len() / 4 - 1, 0);
        lemma_encode_spec_len(bts.skip(4));
        lemma_encode_chunk_props(val_of(256, bts.take(4)));
    }
}

/// Seven symbols in give four bytes out, group for group.
pub proof fn lemma_decode_spec_len(s: Seq<char>)
    requires
        s.len() % 7 == 0,
    ensures
        decode_spec(s).len() == s.len() / 7 * 4,
    decreases s.len(),
{
    if s.len() >= 7 {
        lemma_fundamental_div_mod(s.len() as int, 7);
        lemma_fundamental_div_mod_converse(s.len() - 7, 7, s.len() / 7 - 1, 0);
        lemma_decode_spec_len(s.skip(7));
        lemma_digits_of_bounds(256, group_val(s.take(7)), 4);
    }
}

} // verus!
