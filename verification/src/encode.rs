//! The encoder: decompose a number into one decimal digit per power-of-ten
//! tier and render each nonzero digit through that tier's glyph triplet.

use vstd::prelude::*;
use vstd::arithmetic::div_mod::{lemma_div_of0, lemma_fundamental_div_mod_converse, lemma_small_mod};
use crate::arith::{pow10, digit_at, lemma_pow10_pos, lemma_pow10_mono, lemma_pow10_vals,
    lemma_digit_split};
use crate::table::{one_sym, five_sym, ten_sym, push_one_sym, push_five_sym, push_ten_sym};
use crate::text::chars_to_string;

verus! {

/// The encode-path failures of the notation.  A 64-bit value never needs a
/// tier beyond the table or a digit beyond nine, so encoding it never
/// returns one of these.
#[derive(Debug)]
pub enum EncodeError {
    UnsupportedTier(u32),
    UnsupportedDigit(u64),
}

/// The characters of a sequence of glyphs, in order.
pub open spec fn concat_glyphs(gs: Seq<Seq<char>>) -> Seq<char>
    decreases gs.len(),
{
    if gs.len() == 0 {
        Seq::empty()
    } else {
        gs[0] + concat_glyphs(gs.drop_first())
    }
}

pub proof fn lemma_concat_app(a: Seq<Seq<char>>, b: Seq<Seq<char>>)
    ensures
        concat_glyphs(a + b) == concat_glyphs(a) + concat_glyphs(b),
    decreases a.len(),
{
    if a.len() == 0 {
        assert(a + b =~= b);
        assert(Seq::<char>::empty() + concat_glyphs(b) =~= concat_glyphs(b));
    } else {
        assert((a + b).drop_first() =~= a.drop_first() + b);
        lemma_concat_app(a.drop_first(), b);
        assert((a + b)[0] == a[0]);
        assert(a[0] + (concat_glyphs(a.drop_first()) + concat_glyphs(b)) =~= (a[0]
            + concat_glyphs(a.drop_first())) + concat_glyphs(b));
    }
}

pub proof fn lemma_cat1(a: Seq<char>)
    ensures
        concat_glyphs(seq![a]) == a,
{
    assert(seq![a].drop_first() =~= Seq::<Seq<char>>::empty());
    assert(seq![a][0] == a);
    assert(concat_glyphs(Seq::<Seq<char>>::empty()) == Seq::<char>::empty());
    assert(a + Seq::<char>::empty() =~= a);
}

pub proof fn lemma_cat2(a: Seq<char>, b: Seq<char>)
    ensures
        concat_glyphs(seq![a, b]) == a + b,
{
    assert(seq![a, b].drop_first() =~= seq![b]);
    lemma_cat1(b);
}

pub proof fn lemma_cat3(a: Seq<char>, b: Seq<char>, c: Seq<char>)
    ensures
        concat_glyphs(seq![a, b, c]) == a + b + c,
{
    assert(seq![a, b, c].drop_first() =~= seq![b, c]);
    lemma_cat2(b, c);
    assert(a + (b + c) =~= a + b + c);
}

pub proof fn lemma_cat4(a: Seq<char>, b: Seq<char>, c: Seq<char>, d: Seq<char>)
    ensures
        concat_glyphs(seq![a, b, c, d]) == a + b + c + d,
{
    assert(seq![a, b, c, d].drop_first() =~= seq![b, c, d]);
    lemma_cat3(b, c, d);
    assert(a + (b + c + d) =~= a + b + c + d);
}

/// The glyphs of one decimal digit at tier `t`: repetition up to three,
/// the five-glyph from four to eight, and the subtractive pair at four
/// and nine.
pub open spec fn render_digit(d: int, t: int) -> Seq<Seq<char>> {
    let o = one_sym(t);
    let f = five_sym(t);
    let x = ten_sym(t);
    if d == 1 {
        seq![o]
    } else if d == 2 {
        seq![o, o]
    } else if d == 3 {
        seq![o, o, o]
    } else if d == 4 {
        seq![o, f]
    } else if d == 5 {
        seq![f]
    } else if d == 6 {
        seq![f, o]
    } else if d == 7 {
        seq![f, o, o]
    } else if d == 8 {
        seq![f, o, o, o]
    } else if d == 9 {
        seq![o, x]
    } else {
        Seq::empty()
    }
}

/// The glyphs of `n`, tier `t` downwards: each nonzero digit rendered,
/// highest tier first.
pub open spec fn encode_tiers(n: int, t: int) -> Seq<Seq<char>>
    decreases t + 1,
{
    if t < 0 {
        Seq::empty()
    } else {
        (if digit_at(n, t as nat) > 0 {
            render_digit(digit_at(n, t as nat), t)
        } else {
            Seq::empty()
        }) + encode_tiers(n, t - 1)
    }
}

/// The vinculum representation of `n`: every tier a 64-bit value can
/// reach, rendered from tier 19 down.
pub open spec fn vinculum_of(n: int) -> Seq<char> {
    concat_glyphs(encode_tiers(n, 19))
}

pub proof fn lemma_encode_zero(t: int)
    ensures
        encode_tiers(0, t) == Seq::<Seq<char>>::empty(),
    decreases t + 1,
{
    if t >= 0 {
        lemma_pow10_pos(t as nat);
        lemma_div_of0(pow10(t as nat) as int);
        assert(digit_at(0, t as nat) == 0);
        lemma_encode_zero(t - 1);
        assert(Seq::<Seq<char>>::empty() + Seq::<Seq<char>>::empty()
            =~= Seq::<Seq<char>>::empty());
    }
}

/// 10 to the `e` as a 64-bit value.
fn pow10_u64(e: u32) -> (r: u64)
    requires
        e <= 19,
    ensures
        r as nat == pow10(e as nat),
{
    let mut r: u64 = 1;
    let mut i: u32 = 0;
    while i < e
        invariant
            i <= e <= 19,
            r as nat == pow10(i as nat),
        decreases e - i,
    {
        proof {
            lemma_pow10_mono((i + 1) as nat, 19);
            lemma_pow10_vals();
        }
        r = r * 10;
        i = i + 1;
    }
    r
}

/// Appends the rendering of the digit `d` at tier `t`.
fn push_digit(out: &mut Vec<char>, d: u64, t: u32)
    requires
        1 <= d <= 9,
        t <= 19,
    ensures
        final(out)@ == old(out)@ + concat_glyphs(render_digit(d as int, t as int)),
{
    let ghost o = one_sym(t as int);
    let ghost f = five_sym(t as int);
    let ghost x = ten_sym(t as int);
    if d == 1 {
        push_one_sym(out, t);
        proof { lemma_cat1(o); }
    } else if d == 2 {
        push_one_sym(out, t);
        push_one_sym(out, t);
        proof {
            lemma_cat2(o, o);
            assert(out@ =~= old(out)@ + (o + o));
        }
    } else if d == 3 {
        push_one_sym(out, t);
        push_one_sym(out, t);
        push_one_sym(out, t);
        proof {
            lemma_cat3(o, o, o);
            assert(out@ =~= old(out)@ + (o + o + o));
        }
    } else if d == 4 {
        push_one_sym(out, t);
        push_five_sym(out, t);
        proof {
            lemma_cat2(o, f);
            assert(out@ =~= old(out)@ + (o + f));
        }
    } else if d == 5 {
        push_five_sym(out, t);
        proof { lemma_cat1(f); }
    } else if d == 6 {
        push_five_sym(out, t);
        push_one_sym(out, t);
        proof {
            lemma_cat2(f, o);
            assert(out@ =~= old(out)@ + (f + o));
        }
    } else if d == 7 {
        push_five_sym(out, t);
        push_one_sym(out, t);
        push_one_sym(out, t);
        proof {
            lemma_cat3(f, o, o);
            assert(out@ =~= old(out)@ + (f + o + o));
        }
    } else if d == 8 {
        push_five_sym(out, t);
        push_one_sym(out, t);
        push_one_sym(out, t);
        push_one_sym(out, t);
        proof {
            lemma_cat4(f, o, o, o);
            assert(out@ =~= old(out)@ + (f + o + o + o));
        }
    } else {
        push_one_sym(out, t);
        push_ten_sym(out, t);
        proof {
            lemma_cat2(o, x);
            assert(out@ =~= old(out)@ + (o + x));
        }
    }
}

/// Returns the roman numeral in vinculum notation for an arabic number.
///
/// Zero has no roman representation and yields the empty string; every
/// other value is rendered digit by digit from the highest power of ten
/// down, so the result always succeeds for a 64-bit value.
pub fn arabic2vinculum(input: u64) -> (r: Result<String, EncodeError>)
    ensures
        r matches Ok(s) && s@ == vinculum_of(input as int),
        input == 0 ==> (r matches Ok(s) && s@ == Seq::<char>::empty()),
{
    let mut out: Vec<char> = Vec::new();
    let mut remaining: u64 = input;
    let mut t: u32 = 20;
    proof {
        lemma_pow10_vals();
        lemma_small_mod(input as nat, pow10(20));
    }
    while t > 0
        invariant
            t <= 20,
            remaining as int == (input as int) % (pow10(t as nat) as int),
            vinculum_of(input as int) == out@ + concat_glyphs(
                encode_tiers(input as int, t as int - 1)),
        decreases t,
    {
        let tier = t - 1;
        let divisor = pow10_u64(tier);
        proof {
            lemma_pow10_pos(tier as nat);
            lemma_digit_split(input as int, tier as nat);
            lemma_fundamental_div_mod_converse(
                remaining as int,
                divisor as int,
                digit_at(input as int, tier as nat),
                (input as int) % (pow10(tier as nat) as int),
            );
        }
        let d = remaining / divisor;
        let ghost dig = digit_at(input as int, tier as nat);
        let ghost rest = encode_tiers(input as int, tier as int - 1);
        let ghost group: Seq<Seq<char>> = if dig > 0 {
            render_digit(dig, tier as int)
        } else {
            Seq::empty()
        };
        proof {
            assert(encode_tiers(input as int, tier as int) == group + rest);
            lemma_concat_app(group, rest);
        }
        let ghost out0 = out@;
        proof {
            assert(d as int == dig);
        }
        if d > 0 {
            push_digit(&mut out, d, tier);
            proof {
                assert(d * divisor <= remaining) by {
                    assert(d as int * divisor as int == dig * (pow10(tier as nat) as int));
                };
            }
            remaining = remaining - d * divisor;
        }
        proof {
            if d == 0 {
                assert(concat_glyphs(group) =~= Seq::<char>::empty());
            }
            assert(out@ =~= out0 + concat_glyphs(group));
            assert(out0 + (concat_glyphs(group) + concat_glyphs(rest)) =~= (out0
                + concat_glyphs(group)) + concat_glyphs(rest));
        }
        t = tier;
    }
    proof {
        assert(concat_glyphs(encode_tiers(input as int, -1)) =~= Seq::<char>::empty());
        assert(out@ + Seq::<char>::empty() =~= out@);
        if input == 0 {
            lemma_encode_zero(19);
        }
    }
    Ok(chars_to_string(&out))
}

} // verus!
