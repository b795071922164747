//! The library's laws, proved once and for all over the model:
//! the two round trips and case invariance. (The length laws,
//! `lemma_encode_spec_len` and `lemma_decode_spec_len`, stand with the
//! model.)

use vstd::prelude::*;
use vstd::arithmetic::div_mod::{
    lemma_fundamental_div_mod, lemma_fundamental_div_mod_converse, lemma_mod_add_multiples_vanish,
    lemma_small_mod,
};

use crate::model::{
    all_valid, alphabet, canonical, decode_chunk, decode_spec, digit_of, digits_of, digits_seq,
    encode_chunk, encode_spec, group_val, is_canonical_char, lemma_chunk_space,
    lemma_decode_spec_append, lemma_digits_of_bounds, lemma_digits_of_val_of,
    lemma_encode_chunk_props, lemma_encode_spec_append, lemma_val_of_bound,
    lemma_val_of_digits_of, pow_of, val_of,
};

verus! {

/// Round trip, binary side: text written from whole chunks always reads
/// back to the bytes it came from. Encoded text is moreover well formed
/// for `decode`: a multiple of 7 canonical symbols.
pub proof fn lemma_round_trip(bts: Seq<u8>)
    requires
        bts.len() % 4 == 0,
    ensures
        encode_spec(bts).len() % 7 == 0,
        all_valid(encode_spec(bts)),
        canonical(encode_spec(bts)),
        decode_spec(encode_spec(bts)) == bts,
    decreases bts.len(),
{
    if bts.len() == 0 {
        assert(encode_spec(bts) =~= Seq::<char>::empty());
        assert(decode_spec(encode_spec(bts)) =~= bts);
    } else {
        let ch = bts.take(4);
        let rest = bts.skip(4);
        let v: nat = val_of(256, ch);
        let e1 = encode_chunk(v);
        let e2 = encode_spec(rest);
        lemma_fundamental_div_mod(bts.len() as int, 4);
        lemma_fundamental_div_mod_converse(bts.len() - 4, 4, bts.len() / 4 - 1, 0);
        lemma_round_trip(rest);
        lemma_encode_chunk_props(v);
        lemma_chunk_space();
        assert(encode_spec(bts) == e1 + e2);
        lemma_mod_add_multiples_vanish(e2.len() as int, 7);
        assert((e1 + e2).len() % 7 == 0);
        assert forall|i: int| 0 <= i < (e1 + e2).len() implies is_canonical_char(
            (e1 + e2)[i],
        ) by {
            if i < 7 {
                assert((e1 + e2)[i] == e1[i]);
            } else {
                assert((e1 + e2)[i] == e2[i - 7]);
            }
        }
        lemma_decode_spec_append(e1, e2);
        assert(e1.take(7) =~= e1);
        assert(e1.skip(7) =~= Seq::<char>::empty());
        assert(decode_spec(e1.skip(7)) =~= Seq::<u8>::empty());
        assert(decode_spec(e1) =~= decode_chunk(e1));
        assert forall|i: int| 0 <= i < 4 implies ch[i] < 256 by {}
        lemma_val_of_bound(256, ch);
        assert(v < pow_of(256, 4));
        lemma_small_mod(v, pow_of(24, 7));
        assert(group_val(e1) == v);
        lemma_digits_of_val_of(256, ch);
        assert(decode_chunk(e1) == ch);
        assert(decode_spec(encode_spec(bts)) == ch + rest);
        assert(ch + rest =~= bts);
    }
}

/// Round trip, text side: canonical-case text of whole groups, each
/// group below `2^32`, is reproduced exactly by encoding its decoding.
/// (A canonical group at or above `2^32` — `"YYYYYYY"` is one — wraps
/// on decode and reads back as the spelling of its low 32 bits, so such
/// inputs are left out here.)
pub proof fn lemma_text_round_trip(s: Seq<char>)
    requires
        s.len() % 7 == 0,
        canonical(s),
        forall|k: int|
            0 <= k && 7 * k + 7 <= s.len() ==> #[trigger] group_val(
                s.subrange(7 * k, 7 * k + 7),
            ) < 4294967296,
    ensures
        decode_spec(s).len() % 4 == 0,
        encode_spec(decode_spec(s)) == s,
    decreases s.len(),
{
    lemma_chunk_space();
    if s.len() == 0 {
        assert(decode_spec(s) =~= Seq::<u8>::empty());
        assert(encode_spec(decode_spec(s)) =~= s);
    } else {
        let grp = s.take(7);
        let rest = s.skip(7);
        assert(grp =~= s.subrange(0, 7));
        assert(7 * 0 + 7 <= s.len());
        let gv: nat = group_val(grp);
        assert(gv < 4294967296);
        lemma_fundamental_div_mod(s.len() as int, 7);
        lemma_fundamental_div_mod_converse(s.len() - 7, 7, s.len() / 7 - 1, 0);
        assert forall|k: int| 0 <= k && 7 * k + 7 <= rest.len() implies #[trigger] group_val(
            rest.subrange(7 * k, 7 * k + 7),
        ) < 4294967296 by {
            assert(rest.subrange(7 * k, 7 * k + 7) =~= s.subrange(
                7 * (k + 1),
                7 * (k + 1) + 7,
            ));
            assert(7 * (k + 1) + 7 <= s.len());
        }
        lemma_text_round_trip(rest);
        let d1 = decode_chunk(grp);
        let d2 = decode_spec(rest);
        assert(decode_spec(s) == d1 + d2);
        lemma_digits_of_bounds(256, gv, 4);
        lemma_mod_add_multiples_vanish(d2.len() as int, 4);
        assert((d1 + d2).len() % 4 == 0);
        lemma_encode_spec_append(d1, d2);
        assert(d1.take(4) =~= d1);
        assert(d1.skip(4) =~= Seq::<u8>::empty());
        assert(encode_spec(d1.skip(4)) =~= Seq::<char>::empty());
        assert(encode_spec(d1) =~= encode_chunk(val_of(256, d1)));
        lemma_val_of_digits_of(256, gv, 4);
        lemma_small_mod(gv, pow_of(256, 4));
        assert(val_of(256, d1) == gv);
        let gds = digits_seq(grp);
        assert forall|i: int| 0 <= i < gds.len() implies gds[i] < 24 by {
            assert(is_canonical_char(grp[i]));
        }
        lemma_digits_of_val_of(24, gds);
        assert(digits_of(24, gv, 7) == gds);
        assert forall|i: int| 0 <= i < 7 implies encode_chunk(gv)[i] == grp[i] by {
            assert(encode_chunk(gv)[i] == alphabet()[gds[i] as int]);
            assert(is_canonical_char(grp[i]));
        }
        assert(encode_chunk(gv) =~= grp);
        assert(encode_spec(decode_spec(s)) == grp + rest);
        assert(grp + rest =~= s);
    }
}

/// Case invariance, in its general form: two texts whose characters
/// resolve to the same digit table entries, position by position,
/// decode alike — whatever mixture of cases either uses.
pub proof fn lemma_case_insensitive(s: Seq<char>, t: Seq<char>)
    requires
        s.len() == t.len(),
        forall|i: int| 0 <= i < s.len() ==> digit_of(s[i]) == digit_of(t[i]),
    ensures
        decode_spec(s) == decode_spec(t),
    decreases s.len(),
{
    if s.len() < 7 {
        assert(decode_spec(s) =~= decode_spec(t));
    } else {
        assert(digits_seq(s.take(7)) =~= digits_seq(t.take(7)));
        assert(decode_chunk(s.take(7)) == decode_chunk(t.take(7)));
        assert forall|i: int| 0 <= i < s.skip(7).len() implies digit_of(s.skip(7)[i]) == digit_of(
            t.skip(7)[i],
        ) by {
            assert(s.skip(7)[i] == s[i + 7]);
            assert(t.skip(7)[i] == t[i + 7]);
        }
        lemma_case_insensitive(s.skip(7), t.skip(7));
    }
}

/// The alphabet's letters written small; characters without a small
/// form — the alphabet's digits, and everything foreign — unchanged.
pub open spec fn lower_char(c: char) -> char {
    if c == 'Z' {
        'z'
    } else if c == 'A' {
        'a'
    } else if c == 'C' {
        'c'
    } else if c == 'B' {
        'b'
    } else if c == 'E' {
        'e'
    } else if c == 'F' {
        'f'
    } else if c == 'G' {
        'g'
    } else if c == 'H' {
        'h'
    } else if c == 'T' {
        't'
    } else if c == 'K' {
        'k'
    } else if c == 'P' {
        'p'
    } else if c == 'R' {
        'r'
    } else if c == 'S' {
        's'
    } else if c == 'W' {
        'w'
    } else if c == 'X' {
        'x'
    } else if c == 'Y' {
        'y'
    } else {
        c
    }
}

/// A text written small, character by character.
pub open spec fn lower(s: Seq<char>) -> Seq<char> {
    s.map_values(|c: char| lower_char(c))
}

/// Writing a character small never changes its digit table entry.
pub proof fn lemma_digit_of_lower(c: char)
    ensures
        digit_of(lower_char(c)) == digit_of(c),
{
}

/// Case invariance against the lowercase form in particular.
pub proof fn lemma_decode_lowercase(s: Seq<char>)
    ensures
        decode_spec(lower(s)) == decode_spec(s),
{
    assert forall|i: int| 0 <= i < s.len() implies digit_of(lower(s)[i]) == digit_of(s[i]) by {
        lemma_digit_of_lower(s[i]);
    }
    lemma_case_insensitive(lower(s), s);
}

} // verus!

