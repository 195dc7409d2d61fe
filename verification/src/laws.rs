//! The laws of the codec: decoding inverts encoding wherever every emitted
//! glyph is in the decoding table, and distinct numbers never share a
//! representation.

use vstd::prelude::*;
use vstd::arithmetic::div_mod::lemma_small_mod;
use crate::arith::{pow10, digit_at, lemma_pow10_pos, lemma_pow10_mono, lemma_pow10_vals,
    lemma_digit_split};
use crate::table::{lookup, glyph_val, cluster_wf, clusters_wf, is_base, is_mark, one_sym,
    five_sym, ten_sym, ten_is_unlisted, lemma_table};
use crate::encode::{concat_glyphs, render_digit, encode_tiers, vinculum_of};
use crate::decode::{decode_rec, decode_outcome, DecodeOutcome};

verus! {

/// The running state of the subtractive fold over glyph values: the value
/// of the last glyph and the sum so far.
pub enum FoldState {
    Next { prev: int, acc: int },
    Underflow,
    Overflow,
}

/// The subtractive fold over the intended value of each glyph, listed in
/// the decoding table or not.
pub open spec fn fold_vals(gs: Seq<Seq<char>>, prev: int, acc: int) -> FoldState
    decreases gs.len(),
{
    if gs.len() == 0 {
        FoldState::Next { prev, acc }
    } else {
        let v = glyph_val(gs[0]);
        let term = if prev < v {
            v - 2 * prev
        } else {
            v
        };
        if term < 0 {
            FoldState::Underflow
        } else if acc + term > u64::MAX as int {
            FoldState::Overflow
        } else {
            fold_vals(gs.drop_first(), v, acc + term)
        }
    }
}

proof fn lemma_fold_vals_app(a: Seq<Seq<char>>, b: Seq<Seq<char>>, prev: int, acc: int)
    ensures
        fold_vals(a + b, prev, acc) == (match fold_vals(a, prev, acc) {
            FoldState::Next { prev: p, acc: c } => fold_vals(b, p, c),
            r => r,
        }),
    decreases a.len(),
{
    if a.len() == 0 {
        assert(a + b =~= b);
    } else {
        assert((a + b)[0] == a[0]);
        assert((a + b).drop_first() =~= a.drop_first() + b);
        let v = glyph_val(a[0]);
        let term = if prev < v {
            v - 2 * prev
        } else {
            v
        };
        if term >= 0 && acc + term <= u64::MAX as int {
            lemma_fold_vals_app(a.drop_first(), b, v, acc + term);
        }
    }
}

/// Folding one rendered digit adds exactly `d * 10^t` and leaves behind a
/// glyph value of at least `10^t`.
#[verifier::rlimit(100)]
#[verifier::spinoff_prover]
proof fn lemma_fold_digit(d: int, t: int, prev: int, acc: int)
    requires
        1 <= d <= 9,
        0 <= t <= 19,
        prev >= pow10((t + 1) as nat),
        0 <= acc,
        acc + d * pow10(t as nat) <= u64::MAX as int,
    ensures
        fold_vals(render_digit(d, t), prev, acc) is Next,
        fold_vals(render_digit(d, t), prev, acc)->Next_acc == acc + d * pow10(t as nat),
        fold_vals(render_digit(d, t), prev, acc)->Next_prev >= pow10(t as nat),
{
    reveal_with_fuel(fold_vals, 5);
    lemma_table(t);
    lemma_pow10_pos(t as nat);
    let e = pow10(t as nat) as int;
    assert(pow10((t + 1) as nat) == 10 * pow10(t as nat));
    let o = one_sym(t);
    let f = five_sym(t);
    let x = ten_sym(t);
    if d == 1 {
        assert(seq![o].drop_first() =~= Seq::<Seq<char>>::empty());
    } else if d == 2 {
        assert(seq![o, o].drop_first() =~= seq![o]);
        assert(seq![o].drop_first() =~= Seq::<Seq<char>>::empty());
    } else if d == 3 {
        assert(seq![o, o, o].drop_first() =~= seq![o, o]);
        assert(seq![o, o].drop_first() =~= seq![o]);
        assert(seq![o].drop_first() =~= Seq::<Seq<char>>::empty());
    } else if d == 4 {
        assert(seq![o, f].drop_first() =~= seq![f]);
        assert(seq![f].drop_first() =~= Seq::<Seq<char>>::empty());
    } else if d == 5 {
        assert(seq![f].drop_first() =~= Seq::<Seq<char>>::empty());
    } else if d == 6 {
        assert(seq![f, o].drop_first() =~= seq![o]);
        assert(seq![o].drop_first() =~= Seq::<Seq<char>>::empty());
    } else if d == 7 {
        assert(seq![f, o, o].drop_first() =~= seq![o, o]);
        assert(seq![o, o].drop_first() =~= seq![o]);
        assert(seq![o].drop_first() =~= Seq::<Seq<char>>::empty());
    } else if d == 8 {
        assert(seq![f, o, o, o].drop_first() =~= seq![o, o, o]);
        assert(seq![o, o, o].drop_first() =~= seq![o, o]);
        assert(seq![o, o].drop_first() =~= seq![o]);
        assert(seq![o].drop_first() =~= Seq::<Seq<char>>::empty());
    } else {
        assert(seq![o, x].drop_first() =~= seq![x]);
        assert(seq![x].drop_first() =~= Seq::<Seq<char>>::empty());
    }
}

/// Folding the whole encoding of `n` from tier `t` down adds exactly the
/// residue of `n` below tier `t + 1`.
proof fn lemma_fold_encode(n: int, t: int, prev: int, acc: int)
    requires
        0 <= n,
        -1 <= t <= 19,
        prev >= pow10((t + 1) as nat),
        0 <= acc,
        acc + n % (pow10((t + 1) as nat) as int) <= u64::MAX as int,
    ensures
        fold_vals(encode_tiers(n, t), prev, acc) is Next,
        fold_vals(encode_tiers(n, t), prev, acc)->Next_acc == acc + n % (pow10(
            (t + 1) as nat) as int),
    decreases t + 1,
{
    if t < 0 {
        assert(pow10(0) == 1);
        assert(n % 1int == 0) by (nonlinear_arith)
            requires n >= 0;
    } else {
        let d = digit_at(n, t as nat);
        lemma_digit_split(n, t as nat);
        lemma_pow10_pos(t as nat);
        lemma_pow10_mono(t as nat, (t + 1) as nat);
        let e = pow10(t as nat) as int;
        let rest = encode_tiers(n, t - 1);
        if d > 0 {
            let group = render_digit(d, t);
            assert(encode_tiers(n, t) == group + rest);
            assert(d * e >= 0) by (nonlinear_arith)
                requires
                    d >= 1,
                    e >= 1,
            ;
            lemma_fold_digit(d, t, prev, acc);
            lemma_fold_vals_app(group, rest, prev, acc);
            let st = fold_vals(group, prev, acc);
            assert(st->Next_acc == acc + d * e);
            lemma_fold_encode(n, t - 1, st->Next_prev, acc + d * e);
            assert(fold_vals(encode_tiers(n, t), prev, acc) == fold_vals(rest, st->Next_prev,
                acc + d * e));
            assert(fold_vals(rest, st->Next_prev, acc + d * e)->Next_acc == acc + d * e + n % (
                pow10(t as nat) as int));
            assert(acc + d * e + n % (pow10(t as nat) as int) == acc + n % (pow10(
                (t + 1) as nat) as int));
        } else {
            assert(encode_tiers(n, t) == Seq::<Seq<char>>::empty() + rest);
            assert(Seq::<Seq<char>>::empty() + rest =~= rest);
            assert(d * e == 0) by (nonlinear_arith)
                requires
                    d == 0,
            ;
            assert(n % (pow10((t + 1) as nat) as int) == n % (pow10(t as nat) as int));
            lemma_fold_encode(n, t - 1, prev, acc);
        }
    }
}

/// Every grapheme of the sequence is in the decoding table.
pub open spec fn all_listed(gs: Seq<Seq<char>>) -> bool {
    forall|j: int| 0 <= j < gs.len() ==> lookup(#[trigger] gs[j]) is Some
}

/// On table glyphs the decoder computes exactly the value fold.
proof fn lemma_decode_from_fold(gs: Seq<Seq<char>>, prev: int, acc: int)
    requires
        all_listed(gs),
    ensures
        decode_rec(gs, prev, acc) == (match fold_vals(gs, prev, acc) {
            FoldState::Next { prev: p, acc: c } => DecodeOutcome::Value(c),
            FoldState::Underflow => DecodeOutcome::Underflow,
            FoldState::Overflow => DecodeOutcome::Overflow,
        }),
    decreases gs.len(),
{
    if gs.len() > 0 {
        assert(lookup(gs[0]) is Some);
        assert(forall|j: int|
            0 <= j < gs.drop_first().len() ==> lookup(#[trigger] gs.drop_first()[j]) is Some);
        let v = glyph_val(gs[0]);
        let term = if prev < v {
            v - 2 * prev
        } else {
            v
        };
        if term >= 0 && acc + term <= u64::MAX as int {
            lemma_decode_from_fold(gs.drop_first(), v, acc + term);
        }
    }
}

/// Every glyph an encoding emits is one base letter followed by marks.
proof fn lemma_encode_wf(n: int, t: int)
    requires
        0 <= n,
        t <= 19,
    ensures
        clusters_wf(encode_tiers(n, t)),
    decreases t + 1,
{
    if t >= 0 {
        let d = digit_at(n, t as nat);
        lemma_digit_split(n, t as nat);
        lemma_table(t);
        lemma_encode_wf(n, t - 1);
        let group = if d > 0 {
            render_digit(d, t)
        } else {
            Seq::<Seq<char>>::empty()
        };
        let rest = encode_tiers(n, t - 1);
        assert(encode_tiers(n, t) == group + rest);
        assert(forall|i: int| 0 <= i < group.len() ==> cluster_wf(#[trigger] group[i]));
        assert(forall|i: int|
            0 <= i < (group + rest).len() ==> cluster_wf(#[trigger] (group + rest)[i]));
    }
}

/// Under the digit condition, every glyph an encoding emits is in the
/// decoding table.
proof fn lemma_encode_listed(n: int, t: int)
    requires
        0 <= n,
        t <= 19,
        forall|u: int| 0 <= u <= t && ten_is_unlisted(u) ==> digit_at(n, u as nat) != 9,
    ensures
        all_listed(encode_tiers(n, t)),
    decreases t + 1,
{
    if t >= 0 {
        let d = digit_at(n, t as nat);
        lemma_digit_split(n, t as nat);
        lemma_table(t);
        lemma_encode_listed(n, t - 1);
        let group = if d > 0 {
            render_digit(d, t)
        } else {
            Seq::<Seq<char>>::empty()
        };
        let rest = encode_tiers(n, t - 1);
        assert(encode_tiers(n, t) == group + rest);
        if d == 9 {
            assert(!ten_is_unlisted(t));
        }
        assert(forall|i: int| 0 <= i < group.len() ==> lookup(#[trigger] group[i]) is Some);
        assert(forall|i: int|
            0 <= i < (group + rest).len() ==> lookup(#[trigger] (group + rest)[i]) is Some);
    }
}

proof fn lemma_base_not_mark(c: char)
    ensures
        !(is_base(c) && is_mark(c)),
{
}

/// A string of letter-plus-marks clusters decomposes into them only one
/// way: the letters mark the boundaries.
proof fn lemma_concat_wf_injective(a: Seq<Seq<char>>, b: Seq<Seq<char>>)
    requires
        clusters_wf(a),
        clusters_wf(b),
        concat_glyphs(a) == concat_glyphs(b),
    ensures
        a == b,
    decreases a.len(),
{
    if a.len() == 0 {
        if b.len() > 0 {
            assert(concat_glyphs(b).len() >= b[0].len() + 0);
            assert(false);
        }
        assert(a =~= b);
    } else if b.len() == 0 {
        assert(concat_glyphs(a).len() >= a[0].len() + 0);
        assert(false);
    } else {
        let s = concat_glyphs(a);
        let ra = a.drop_first();
        let rb = b.drop_first();
        let ga = a[0];
        let gb = b[0];
        assert(s == ga + concat_glyphs(ra));
        assert(s == gb + concat_glyphs(rb));
        assert(forall|k: int| 0 <= k < ga.len() ==> s[k] == ga[k]);
        assert(forall|k: int| 0 <= k < gb.len() ==> s[k] == gb[k]);
        if ga.len() < gb.len() {
            // position ga.len() starts the next cluster of a, a letter, but
            // sits inside gb, a mark
            assert(ra.len() > 0);
            assert(s[ga.len() as int] == concat_glyphs(ra)[0]);
            assert(concat_glyphs(ra) == ra[0] + concat_glyphs(ra.drop_first()));
            assert(concat_glyphs(ra)[0] == ra[0][0]);
            assert(cluster_wf(ra[0]));
            assert(is_base(s[ga.len() as int]));
            assert(is_mark(gb[ga.len() as int]));
            lemma_base_not_mark(s[ga.len() as int]);
            assert(false);
        }
        if gb.len() < ga.len() {
            assert(rb.len() > 0);
            assert(s[gb.len() as int] == concat_glyphs(rb)[0]);
            assert(concat_glyphs(rb) == rb[0] + concat_glyphs(rb.drop_first()));
            assert(concat_glyphs(rb)[0] == rb[0][0]);
            assert(cluster_wf(rb[0]));
            assert(is_base(s[gb.len() as int]));
            assert(is_mark(ga[gb.len() as int]));
            lemma_base_not_mark(s[gb.len() as int]);
            assert(false);
        }
        assert(ga =~= gb);
        assert(concat_glyphs(ra) =~= concat_glyphs(rb)) by {
            assert(concat_glyphs(ra).len() == concat_glyphs(rb).len());
            assert forall|k: int|
                0 <= k < concat_glyphs(ra).len() implies concat_glyphs(ra)[k] == concat_glyphs(
                rb)[k] by {
                assert((ga + concat_glyphs(ra))[ga.len() + k] == concat_glyphs(ra)[k]);
                assert((gb + concat_glyphs(rb))[gb.len() + k] == concat_glyphs(rb)[k]);
            };
        };
        lemma_concat_wf_injective(ra, rb);
        assert(a =~= b) by {
            assert(a.len() == b.len());
            assert forall|i: int| 0 <= i < a.len() implies a[i] == b[i] by {
                if i > 0 {
                    assert(ra[i - 1] == a[i]);
                    assert(rb[i - 1] == b[i]);
                }
            };
        };
    }
}

/// Round trip: decoding the glyphs of an encoding gives the number back,
/// for every 64-bit value none of whose nines falls on a tier whose
/// ten-glyph the decoding table does not list.  Through the contracts of
/// the two conversion functions this carries to the strings themselves:
/// the encoder returns the characters of these glyphs, and the decoder's
/// segmentation clause turns those characters back into these glyphs.
pub proof fn lemma_round_trip(n: u64)
    requires
        forall|u: int| 0 <= u <= 19 && ten_is_unlisted(u) ==> digit_at(n as int, u as nat) != 9,
    ensures
        decode_outcome(encode_tiers(n as int, 19)) == DecodeOutcome::Value(n as int),
        clusters_wf(encode_tiers(n as int, 19)),
        vinculum_of(n as int) == concat_glyphs(encode_tiers(n as int, 19)),
{
    lemma_pow10_vals();
    lemma_small_mod(n as nat, pow10(20));
    lemma_fold_encode(n as int, 19, pow10(21) as int, 0);
    lemma_encode_listed(n as int, 19);
    lemma_encode_wf(n as int, 19);
    lemma_decode_from_fold(encode_tiers(n as int, 19), pow10(21) as int, 0);
}

/// Representation uniqueness: distinct 64-bit values render to distinct
/// strings, everywhere in the range.
pub proof fn lemma_representation_unique(a: u64, b: u64)
    requires
        a != b,
    ensures
        vinculum_of(a as int) != vinculum_of(b as int),
{
    if vinculum_of(a as int) == vinculum_of(b as int) {
        lemma_pow10_vals();
        lemma_small_mod(a as nat, pow10(20));
        lemma_small_mod(b as nat, pow10(20));
        lemma_encode_wf(a as int, 19);
        lemma_encode_wf(b as int, 19);
        lemma_concat_wf_injective(encode_tiers(a as int, 19), encode_tiers(b as int, 19));
        lemma_fold_encode(a as int, 19, pow10(21) as int, 0);
        lemma_fold_encode(b as int, 19, pow10(21) as int, 0);
        assert(false);
    }
}

} // verus!
