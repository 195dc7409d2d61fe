//! The decoder: split the input into grapheme clusters, give each its
//! table value, and sum left to right with one grapheme of subtractive
//! lookback.

use vstd::prelude::*;
use crate::arith::{pow10, lemma_pow10_pos, lemma_pow10_mono, lemma_pow10_vals};
use crate::table::{lookup, clusters_wf, lookup_grapheme};
use crate::text::{graphemes_of, split_graphemes, chars_to_string};
use crate::encode::concat_glyphs;

verus! {

/// The decode-path failures: a grapheme absent from the table, an ordering
/// the subtractive rule cannot resolve, and a sum beyond 64 bits.
#[derive(Debug)]
pub enum DecodeError {
    UnknownGrapheme(String),
    ArithmeticUnderflow,
    ArithmeticOverflow,
}

/// What decoding a grapheme sequence comes to.
pub enum DecodeOutcome {
    Value(int),
    Unknown(Seq<char>),
    Underflow,
    Overflow,
}

/// The subtractive fold.  `prev` is the value of the grapheme before the
/// current one (the sentinel `10^21` exceeds every glyph value, so the
/// first grapheme is always added plainly); `acc` is the sum so far.  A
/// grapheme larger than its predecessor turns the predecessor's already
/// added contribution into a subtraction by adding `value - 2 * prev`.
pub open spec fn decode_rec(gs: Seq<Seq<char>>, prev: int, acc: int) -> DecodeOutcome
    decreases gs.len(),
{
    if gs.len() == 0 {
        DecodeOutcome::Value(acc)
    } else {
        match lookup(gs[0]) {
            None => DecodeOutcome::Unknown(gs[0]),
            Some(mt) => {
                let v = mt.0 * pow10(mt.1 as nat) as int;
                let term = if prev < v {
                    v - 2 * prev
                } else {
                    v
                };
                if term < 0 {
                    DecodeOutcome::Underflow
                } else if acc + term > u64::MAX as int {
                    DecodeOutcome::Overflow
                } else {
                    decode_rec(gs.drop_first(), v, acc + term)
                }
            },
        }
    }
}

/// What decoding a grapheme sequence from the start comes to.
pub open spec fn decode_outcome(gs: Seq<Seq<char>>) -> DecodeOutcome {
    decode_rec(gs, pow10(21) as int, 0)
}

/// 10 to the `e`, wide enough for the sentinel and every glyph value.
fn pow10_u128(e: u32) -> (r: u128)
    requires
        e <= 21,
    ensures
        r as nat == pow10(e as nat),
{
    let mut r: u128 = 1;
    let mut i: u32 = 0;
    while i < e
        invariant
            i <= e <= 21,
            r as nat == pow10(i as nat),
        decreases e - i,
    {
        proof {
            lemma_pow10_mono((i + 1) as nat, 21);
            lemma_pow10_vals();
        }
        r = r * 10;
        i = i + 1;
    }
    r
}

/// Returns the arabic number for a roman numeral in vinculum notation.
///
/// The input is split into grapheme clusters; each must be in the symbol
/// table, else the first unknown cluster is reported.  The values are then
/// summed with single-lookback subtractive pairing; an ordering the rule
/// cannot resolve, or a sum beyond 64 bits, is reported instead of a
/// truncated result.  Any decodable sequence is accepted, well-formed
/// numeral or not.
pub fn vinculum2arabic(input: &str) -> (r: Result<u64, DecodeError>)
    ensures
        match r {
            Ok(v) => decode_outcome(graphemes_of(input@)) == DecodeOutcome::Value(v as int),
            Err(e) => match e {
                DecodeError::UnknownGrapheme(g) => decode_outcome(graphemes_of(input@))
                    == DecodeOutcome::Unknown(g@),
                DecodeError::ArithmeticUnderflow => decode_outcome(graphemes_of(input@))
                    == DecodeOutcome::Underflow,
                DecodeError::ArithmeticOverflow => decode_outcome(graphemes_of(input@))
                    == DecodeOutcome::Overflow,
            },
        },
        forall|gs: Seq<Seq<char>>|
            clusters_wf(gs) && input@ == concat_glyphs(gs) ==> graphemes_of(input@) == gs,
{
    let gsv: Vec<Vec<char>> = split_graphemes(input);
    let ghost full: Seq<Seq<char>> = graphemes_of(input@);
    proof {
        assert(gsv.deep_view() == full);
        assert forall|gs: Seq<Seq<char>>|
            clusters_wf(gs) && input@ == concat_glyphs(gs) implies graphemes_of(input@)
            == gs by {
            assert(gsv.deep_view() == gs);
        };
        assert(full.skip(0) =~= full);
        lemma_pow10_vals();
    }
    let mut i: usize = 0;
    let mut prev: u128 = pow10_u128(21);
    let mut acc: u128 = 0;
    #[verifier::loop_isolation(false)]
    while i < gsv.len()
        invariant
            i <= gsv.len(),
            gsv.deep_view() == full,
            acc <= u64::MAX as u128,
            prev as nat <= pow10(21),
            decode_outcome(full) == decode_rec(
                full.skip(i as int),
                prev as int,
                acc as int,
            ),
        decreases gsv.len() - i,
    {
        let ghost seg = full.skip(i as int);
        proof {
            assert(gsv.deep_view()[i as int] == gsv@[i as int].deep_view());
            assert(gsv@[i as int].deep_view() =~= gsv@[i as int]@);
            assert(seg[0] == full[i as int]);
            assert(full[i as int] == gsv@[i as int]@);
            assert(seg.drop_first() =~= full.skip(i as int + 1));
        }
        let g = &gsv[i];
        match lookup_grapheme(g) {
            None => {
                proof {
                    assert(decode_rec(seg, prev as int, acc as int) == DecodeOutcome::Unknown(
                        full[i as int]));
                }
                return Err(DecodeError::UnknownGrapheme(chars_to_string(g)));
            },
            Some((mult, tier)) => {
                proof {
                    lemma_pow10_mono(tier as nat, 20);
                    lemma_pow10_pos(tier as nat);
                    lemma_pow10_vals();
                }
                let p: u128 = pow10_u128(tier);
                proof {
                    assert(p as int * 5 <= 5 * pow10(20));
                }
                let v: u128 = if mult == 5 {
                    p * 5
                } else {
                    p
                };
                proof {
                    if mult == 5 {
                        assert(v as int == 5 * (p as int));
                    } else {
                        assert(mult == 1);
                        assert(v as int == 1 * (p as int));
                    }
                    assert(v as int == (mult as int) * (p as int));
                    assert(v as nat <= 5 * pow10(20) <= pow10(21));
                }
                let term: u128 = if prev < v {
                    if v < 2 * prev {
                        return Err(DecodeError::ArithmeticUnderflow);
                    }
                    v - 2 * prev
                } else {
                    v
                };
                if acc + term > u64::MAX as u128 {
                    return Err(DecodeError::ArithmeticOverflow);
                }
                acc = acc + term;
                prev = v;
                i = i + 1;
            },
        }
    }
    proof {
        assert(full.skip(gsv.len() as int) =~= Seq::<Seq<char>>::empty());
    }
    Ok(acc as u64)
}

} // verus!
