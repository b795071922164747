//! Base24: a bijective codec between binary data and a 24-symbol
//! alphabet free of look-alike characters. Binary input is consumed in
//! 4-byte chunks; each chunk, read as a big-endian 32-bit number, is
//! written as exactly 7 radix-24 symbols. Decoding accepts the
//! canonical case and lowercase interchangeably and inverts the
//! transform group by group, keeping the low 32 bits of each group
//! (groups above `2^32 - 1` wrap around, which never arises on encoded
//! text).

pub mod errors;
pub mod model;
pub mod props;

use vstd::prelude::*;
use vstd::arithmetic::div_mod::{lemma_div_denominator, lemma_fundamental_div_mod};

use crate::errors::Base24Error;
use crate::model::{
    all_valid, alphabet, decode_chunk, decode_spec, digit_of, digits_of, digits_seq, encode_chunk,
    encode_spec, group_val, lemma_chunk_space, lemma_decode_spec_append, lemma_digits_of_bounds,
    lemma_digits_of_index, lemma_digits_of_mod, lemma_encode_chunk_props, lemma_encode_spec_append,
    lemma_pow_of_le, lemma_pow_of_pos, lemma_val_of_4, lemma_val_of_bound, pow_of, val_of,
};

verus! {

/// The codec: the forward table, built once from the alphabet.
/// (The reverse table is the total function `Base24::digit`.)
pub struct Base24 {
    forward: Vec<char>,
}

/// Relies on `String`'s `FromIterator<char>` impl: collecting an
/// iterator of characters yields the string of exactly those
/// characters, in order.
#[verifier::external_body]
fn chars_to_string(cs: &Vec<char>) -> (r: String)
    ensures
        r@ == cs@,
{
    cs.iter().collect()
}

impl Base24 {
    /// The forward table is the alphabet, symbol by symbol.
    /// `new` establishes this; every call site has it from there.
    pub closed spec fn wf(&self) -> bool {
        self.forward@ == alphabet()
    }

    pub fn new() -> (codec: Base24)
        ensures
            codec.wf(),
    {
        let forward: Vec<char> = vec![
            'Z', 'A', 'C', '2', 'B', '3', 'E', 'F', '4', 'G', 'H', '5',
            'T', 'K', '6', '7', 'P', '8', 'R', 'S', '9', 'W', 'X', 'Y',
        ];
        proof {
            assert(forward@ =~= alphabet());
        }
        Base24 { forward }
    }

    /// The reverse table: digit value of `c`, canonical case or
    /// lowercase; `None` for a character outside the alphabet.
    fn digit(&self, c: char) -> (r: Option<u8>)
        ensures
            r == digit_of(c),
    {
        match c {
            'Z' | 'z' => Some(0),
            'A' | 'a' => Some(1),
            'C' | 'c' => Some(2),
            '2' => Some(3),
            'B' | 'b' => Some(4),
            '3' => Some(5),
            'E' | 'e' => Some(6),
            'F' | 'f' => Some(7),
            '4' => Some(8),
            'G' | 'g' => Some(9),
            'H' | 'h' => Some(10),
            '5' => Some(11),
            'T' | 't' => Some(12),
            'K' | 'k' => Some(13),
            '6' => Some(14),
            '7' => Some(15),
            'P' | 'p' => Some(16),
            '8' => Some(17),
            'R' | 'r' => Some(18),
            'S' | 's' => Some(19),
            '9' => Some(20),
            'W' | 'w' => Some(21),
            'X' | 'x' => Some(22),
            'Y' | 'y' => Some(23),
            _ => None,
        }
    }

    /// Append the 7 symbols of one chunk value: digits least
    /// significant first into a scratch buffer, then reversed, as the
    /// chunk's most-significant-first spelling.
    fn push_group(&self, v: u32, out: &mut Vec<char>)
        requires
            self.wf(),
        ensures
            final(out)@ == old(out)@ + encode_chunk(v as nat),
    {
        let ghost vn: nat = v as nat;
        proof {
            assert(pow_of(24, 0) == 1);
            assert(vn / 1 == vn) by (nonlinear_arith);
        }
        let mut tmp: Vec<u8> = Vec::new();
        let mut vv: u32 = v;
        let mut j: usize = 0;
        while j < 7
            invariant
                j <= 7,
                tmp@.len() == j,
                vv as nat == vn / pow_of(24, j as nat),
                forall|k: int| 0 <= k < j ==> tmp@[k] as nat == (vn / pow_of(24, k as nat)) % 24,
            decreases 7 - j,
        {
            let d: u8 = (vv % 24) as u8;
            tmp.push(d);
            vv = vv / 24;
            proof {
                let jn: nat = j as nat;
                lemma_pow_of_pos(24, jn);
                lemma_div_denominator(vn as int, pow_of(24, jn) as int, 24);
                assert(pow_of(24, (jn + 1) as nat) == 24 * pow_of(24, jn));
                assert((vn / pow_of(24, jn)) / 24 == vn / (pow_of(24, jn) * 24));
            }
            j += 1;
        }
        proof {
            lemma_digits_of_bounds(24, vn, 7);
            assert forall|i: int| 0 <= i < 7 implies alphabet()[tmp@[6 - i] as int]
                == encode_chunk(vn)[i] by {
                lemma_digits_of_index(24, vn, 7, i);
                assert(encode_chunk(vn)[i] == alphabet()[digits_of(24, vn, 7)[i] as int]);
            }
            lemma_encode_chunk_props(vn);
        }
        let mut i: usize = 0;
        while i < 7
            invariant
                i <= 7,
                self.wf(),
                tmp@.len() == 7,
                forall|k: int| 0 <= k < 7 ==> tmp@[k] < 24,
                forall|k: int| 0 <= k < 7 ==> alphabet()[tmp@[6 - k] as int] == encode_chunk(
                    vn,
                )[k],
                encode_chunk(vn).len() == 7,
                out@ == old(out)@ + encode_chunk(vn).take(i as int),
            decreases 7 - i,
        {
            let d: u8 = tmp[6 - i];
            proof {
                assert(alphabet().len() == 24);
            }
            out.push(self.forward[d as usize]);
            proof {
                assert(encode_chunk(vn).take(i as int).push(encode_chunk(vn)[i as int]) =~= encode_chunk(
                    vn,
                ).take(i as int + 1));
                assert(out@ =~= old(out)@ + encode_chunk(vn).take(i as int + 1));
            }
            i += 1;
        }
        proof {
            assert(encode_chunk(vn).take(7) =~= encode_chunk(vn));
        }
    }

    /// Write `data` as text: each 4-byte chunk, read big endian,
    /// becomes 7 canonical-case symbols, chunks in input order, no
    /// separators. A byte length not divisible by 4 is rejected whole.
    pub fn encode(&self, data: &[u8]) -> (r: Result<String, Base24Error>)
        requires
            self.wf(),
        ensures
            r is Ok <==> data@.len() % 4 == 0,
            data@.len() % 4 == 0 ==> r->Ok_0@ == encode_spec(data@),
            data@.len() % 4 != 0 ==> r->Err_0 == Base24Error::EncodeInputLengthInvalid,
    {
        if data.len() % 4 != 0 {
            return Err(Base24Error::EncodeInputLengthInvalid);
        }
        let len: usize = data.len();
        let n: usize = len / 4;
        proof {
            lemma_fundamental_div_mod(len as int, 4);
            assert(4 * n as int <= len as int);
        }
        let mut out: Vec<char> = Vec::new();
        let mut ci: usize = 0;
        while ci < n
            invariant
                self.wf(),
                data@.len() % 4 == 0,
                len == data@.len(),
                n == data@.len() / 4,
                4 * n as int <= len as int,
                ci <= n,
                out@ == encode_spec(data@.take(4 * ci as int)),
            decreases n - ci,
        {
            let base: usize = 4 * ci;
            let b0: u8 = data[base];
            let b1: u8 = data[base + 1];
            let b2: u8 = data[base + 2];
            let b3: u8 = data[base + 3];
            let v: u32 = (b0 as u32) * 0x1000000 + (b1 as u32) * 0x10000 + (b2 as u32) * 0x100
                + (b3 as u32);
            let ghost ch = data@.subrange(4 * ci as int, 4 * ci as int + 4);
            proof {
                lemma_val_of_4(256, ch);
                assert(v as nat == val_of(256, ch));
            }
            self.push_group(v, &mut out);
            proof {
                let pre = data@.take(4 * ci as int);
                assert(pre.len() % 4 == 0) by {
                    vstd::arithmetic::div_mod::lemma_mod_multiples_basic(ci as int, 4);
                }
                assert(data@.take(4 * (ci + 1) as int) =~= pre + ch);
                lemma_encode_spec_append(pre, ch);
                assert(ch.len() == 4);
                assert(ch.take(4) =~= ch);
                assert(ch.skip(4) =~= Seq::<u8>::empty());
                assert(encode_spec(ch.skip(4)) =~= Seq::<char>::empty());
                assert(encode_spec(ch) == encode_chunk(val_of(256, ch.take(4)))
                    + encode_spec(ch.skip(4)));
                assert(encode_spec(ch) =~= encode_chunk(val_of(256, ch)));
                assert(out@ =~= encode_spec(data@.take(4 * (ci + 1) as int)));
            }
            ci += 1;
        }
        proof {
            lemma_fundamental_div_mod(data@.len() as int, 4);
            assert(data@.take(4 * n as int) =~= data@);
        }
        Ok(chars_to_string(&out))
    }

    /// Fold one 7-symbol group most-significant-first: `acc * 24 + digit`.
    fn group_value(&self, cs: &Vec<char>, base: usize) -> (acc: u64)
        requires
            base + 7 <= cs@.len(),
            forall|k: int| base <= k < base + 7 ==> digit_of(cs@[k]) is Some,
        ensures
            acc as nat == group_val(cs@.subrange(base as int, base as int + 7)),
            acc < 4586471424,
    {
        proof {
            lemma_chunk_space();
            assert(cs@.subrange(base as int, base as int) =~= Seq::<char>::empty());
            assert(digits_seq(Seq::<char>::empty()) =~= Seq::<u8>::empty());
        }
        let cl: usize = cs.len();
        let mut acc: u64 = 0;
        let mut j: usize = 0;
        while j < 7
            invariant
                j <= 7,
                cl == cs@.len(),
                base + 7 <= cs@.len(),
                forall|k: int| base <= k < base + 7 ==> digit_of(cs@[k]) is Some,
                acc as nat == group_val(cs@.subrange(base as int, base as int + j as int)),
                (acc as nat) < pow_of(24, j as nat),
                pow_of(24, 6) == 191102976,
                pow_of(24, 7) == 4586471424,
            decreases 7 - j,
        {
            let c: char = cs[base + j];
            let d: u8 = self.digit(c).unwrap();
            proof {
                lemma_pow_of_le(24, j as nat, 6);
            }
            acc = acc * 24 + (d as u64);
            proof {
                let sub = cs@.subrange(base as int, base as int + j + 1);
                let subp = cs@.subrange(base as int, base as int + j);
                assert(sub =~= subp.push(cs@[base as int + j]));
                let dsub = digits_seq(sub);
                let dsubp = digits_seq(subp);
                assert(dsub =~= dsubp.push(d));
                assert(dsub.drop_last() =~= dsubp);
                assert(val_of(24, dsub) == val_of(24, dsubp) * 24 + d);
                assert forall|i: int| 0 <= i < dsub.len() implies dsub[i] < 24 by {
                    assert(digit_of(sub[i]) is Some);
                }
                lemma_val_of_bound(24, dsub);
            }
            j += 1;
        }
        acc
    }

    /// Read `data` back to bytes. The character count must divide by 7
    /// and every character must resolve in the reverse table, in either
    /// case; the scan rejects the whole input on the first foreign
    /// character, before any output is assembled. Each accepted group
    /// folds to a number whose low 32 bits leave as 4 big-endian bytes.
    pub fn decode(&self, data: &str) -> (r: Result<Vec<u8>, Base24Error>)
        requires
            self.wf(),
        ensures
            r is Ok <==> (data@.len() % 7 == 0 && all_valid(data@)),
            r is Ok ==> r->Ok_0@ == decode_spec(data@),
            data@.len() % 7 != 0 ==> r->Err_0 == Base24Error::DecodeInputLengthInvalid,
            data@.len() % 7 == 0 && !all_valid(data@) ==> (exists|i: int|
                0 <= i < data@.len() && digit_of(data@[i]) is None && (forall|k: int|
                    0 <= k < i ==> digit_of(data@[k]) is Some) && r->Err_0
                    == Base24Error::DecodeUnsupportedCharacter(data@[i])),
    {
        let n: usize = data.unicode_len();
        if n % 7 != 0 {
            return Err(Base24Error::DecodeInputLengthInvalid);
        }
        let mut cs: Vec<char> = Vec::new();
        let mut i: usize = 0;
        while i < n
            invariant
                i <= n,
                n == data@.len(),
                cs@ == data@.take(i as int),
            decreases n - i,
        {
            cs.push(data.get_char(i));
            proof {
                assert(data@.take(i + 1) =~= data@.take(i as int).push(data@[i as int]));
            }
            i += 1;
        }
        proof {
            assert(data@.take(n as int) =~= data@);
        }
        let mut i: usize = 0;
        while i < n
            invariant
                i <= n,
                n == data@.len(),
                n % 7 == 0,
                cs@ == data@,
                forall|k: int| 0 <= k < i ==> digit_of(data@[k]) is Some,
            decreases n - i,
        {
            let c: char = cs[i];
            if self.digit(c).is_none() {
                return Err(Base24Error::DecodeUnsupportedCharacter(c));
            }
            i += 1;
        }
        let g: usize = n / 7;
        proof {
            lemma_fundamental_div_mod(n as int, 7);
            assert(7 * g as int <= n as int);
        }
        let mut out: Vec<u8> = Vec::new();
        let mut gi: usize = 0;
        while gi < g
            invariant
                gi <= g,
                n == data@.len(),
                n % 7 == 0,
                g == n / 7,
                7 * g as int <= n as int,
                cs@ == data@,
                cs@.len() == n,
                all_valid(data@),
                out@ == decode_spec(data@.take(7 * gi as int)),
            decreases g - gi,
        {
            let base: usize = 7 * gi;
            let acc: u64 = self.group_value(&cs, base);
            push_chunk_bytes(acc, &mut out);
            proof {
                let pre = data@.take(7 * gi as int);
                let grp = data@.subrange(7 * gi as int, 7 * gi as int + 7);
                assert(pre.len() % 7 == 0) by {
                    vstd::arithmetic::div_mod::lemma_mod_multiples_basic(gi as int, 7);
                }
                assert(data@.take(7 * (gi + 1) as int) =~= pre + grp);
                lemma_decode_spec_append(pre, grp);
                assert(grp.len() == 7);
                assert(grp.take(7) =~= grp);
                assert(grp.skip(7) =~= Seq::<char>::empty());
                assert(decode_spec(grp.skip(7)) =~= Seq::<u8>::empty());
                assert(decode_spec(grp) == decode_chunk(grp.take(7))
                    + decode_spec(grp.skip(7)));
                assert(decode_spec(grp) =~= digits_of(256, group_val(grp), 4));
                lemma_chunk_space();
                lemma_digits_of_mod(256, acc as nat, 4);
                assert(out@ =~= decode_spec(data@.take(7 * (gi + 1) as int)));
            }
            gi += 1;
        }
        proof {
            lemma_fundamental_div_mod(n as int, 7);
            assert(data@.take(7 * g as int) =~= data@);
        }
        Ok(out)
    }
}

/// Encode with a fresh codec: see [`Base24::encode`].
pub fn encode(data: &[u8]) -> (r: Result<String, Base24Error>)
    ensures
        r is Ok <==> data@.len() % 4 == 0,
        data@.len() % 4 == 0 ==> r->Ok_0@ == encode_spec(data@),
        data@.len() % 4 != 0 ==> r->Err_0 == Base24Error::EncodeInputLengthInvalid,
{
    Base24::new().encode(data)
}

/// Decode with a fresh codec: see [`Base24::decode`].
pub fn decode(data: &str) -> (r: Result<Vec<u8>, Base24Error>)
    ensures
        r is Ok <==> (data@.len() % 7 == 0 && all_valid(data@)),
        r is Ok ==> r->Ok_0@ == decode_spec(data@),
        data@.len() % 7 != 0 ==> r->Err_0 == Base24Error::DecodeInputLengthInvalid,
        data@.len() % 7 == 0 && !all_valid(data@) ==> (exists|i: int|
            0 <= i < data@.len() && digit_of(data@[i]) is None && (forall|k: int|
                0 <= k < i ==> digit_of(data@[k]) is Some) && r->Err_0
                == Base24Error::DecodeUnsupportedCharacter(data@[i])),
{
    Base24::new().decode(data)
}

/// Append the 4 big-endian bytes of the low 32 bits of `v`.
fn push_chunk_bytes(v: u64, out: &mut Vec<u8>)
    ensures
        final(out)@ == old(out)@ + digits_of(256, v as nat % 4294967296, 4),
{
    let v32: u32 = (v % 4294967296u64) as u32;
    let b0: u8 = ((v32 / 0x1000000) % 256) as u8;
    let b1: u8 = ((v32 / 0x10000) % 256) as u8;
    let b2: u8 = ((v32 / 0x100) % 256) as u8;
    let b3: u8 = (v32 % 256) as u8;
    out.push(b0);
    out.push(b1);
    out.push(b2);
    out.push(b3);
    proof {
        let vn: nat = v32 as nat;
        let ds = digits_of(256, vn, 4);
        lemma_chunk_space();
        lemma_digits_of_bounds(256, vn, 4);
        lemma_digits_of_index(256, vn, 4, 0);
        lemma_digits_of_index(256, vn, 4, 1);
        lemma_digits_of_index(256, vn, 4, 2);
        lemma_digits_of_index(256, vn, 4, 3);
        assert(pow_of(256, 0) == 1);
        assert(vn / 1 == vn) by (nonlinear_arith);
        assert(ds[0] == b0);
        assert(ds[1] == b1);
        assert(ds[2] == b2);
        assert(ds[3] == b3);
        assert(out@ =~= old(out)@ + ds);
        lemma_digits_of_mod(256, v as nat, 4);
    }
}

} // verus!
