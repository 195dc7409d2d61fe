//! The symbol table: 21 tiers of decorated Roman letters.
//!
//! A glyph is one base letter followed by a fixed run of combining marks;
//! the run identifies the tier group (bar, double bar, and so on) and the
//! letter identifies the position inside the group.  Tier 6 keeps the
//! conventional `M` with a single bar for one million, and the ten-glyphs of
//! tiers 8, 11, 14, 17 and 20 use an `M` form that the decoding table does
//! not list.

use vstd::prelude::*;
use crate::arith::pow10;

verus! {

/// The seven base letters.
pub open spec fn is_base(c: char) -> bool {
    c == 'I' || c == 'V' || c == 'X' || c == 'L' || c == 'C' || c == 'D' || c == 'M'
}

/// The six combining decoration marks.
pub open spec fn is_mark(c: char) -> bool {
    c == '\u{305}' || c == '\u{33F}' || c == '\u{332}' || c == '\u{333}' || c == '\u{20D2}'
        || c == '\u{20E6}'
}

/// A base letter decorated with the mark run of tier group `grp`.
pub open spec fn decorated(letter: char, grp: int) -> Seq<char> {
    if grp == 1 {
        seq![letter, '\u{305}']
    } else if grp == 2 {
        seq![letter, '\u{33F}']
    } else if grp == 3 {
        seq![letter, '\u{332}', '\u{33F}']
    } else if grp == 4 {
        seq![letter, '\u{333}', '\u{33F}']
    } else if grp == 5 {
        seq![letter, '\u{20D2}', '\u{333}', '\u{33F}']
    } else if grp == 6 {
        seq![letter, '\u{20E6}', '\u{333}', '\u{33F}']
    } else {
        seq![letter]
    }
}

pub open spec fn one_letter(r: int) -> char {
    if r == 1 {
        'X'
    } else if r == 2 {
        'C'
    } else {
        'I'
    }
}

pub open spec fn five_letter(r: int) -> char {
    if r == 1 {
        'L'
    } else if r == 2 {
        'D'
    } else {
        'V'
    }
}

/// The glyph worth `10^t`.
pub open spec fn one_sym(t: int) -> Seq<char> {
    if t == 6 {
        decorated('M', 1)
    } else {
        decorated(one_letter(t % 3), t / 3)
    }
}

/// The glyph worth `5 * 10^t`.
pub open spec fn five_sym(t: int) -> Seq<char> {
    decorated(five_letter(t % 3), t / 3)
}

/// Whether the ten-glyph of tier `t` is an `M` form that the decoding
/// table does not list.
pub open spec fn ten_is_unlisted(t: int) -> bool {
    t == 8 || t == 11 || t == 14 || t == 17 || t == 20
}

/// The glyph worth `10^(t+1)` used for the digit nine at tier `t`.
pub open spec fn ten_sym(t: int) -> Seq<char> {
    if ten_is_unlisted(t) {
        decorated('M', t / 3)
    } else {
        one_sym(t + 1)
    }
}

/// The tier group of a glyph's mark run, or -1 when the run is not one of
/// the seven listed shapes.
pub open spec fn mark_group(g: Seq<char>) -> int {
    if g.len() == 1 {
        0
    } else if g.len() == 2 && g[1] == '\u{305}' {
        1
    } else if g.len() == 2 && g[1] == '\u{33F}' {
        2
    } else if g.len() == 3 && g[1] == '\u{332}' && g[2] == '\u{33F}' {
        3
    } else if g.len() == 3 && g[1] == '\u{333}' && g[2] == '\u{33F}' {
        4
    } else if g.len() == 4 && g[1] == '\u{20D2}' && g[2] == '\u{333}' && g[3] == '\u{33F}' {
        5
    } else if g.len() == 4 && g[1] == '\u{20E6}' && g[2] == '\u{333}' && g[3] == '\u{33F}' {
        6
    } else {
        -1
    }
}

/// Exact-match lookup of a grapheme: its (multiplier, tier) pair, or `None`
/// when the grapheme is not in the table.
pub open spec fn lookup(g: Seq<char>) -> Option<(int, int)> {
    if g.len() == 0 {
        None
    } else {
        let grp = mark_group(g);
        if grp < 0 {
            None
        } else if g[0] == 'I' {
            if grp == 2 {
                None
            } else {
                Some((1, 3 * grp))
            }
        } else if g[0] == 'X' {
            Some((1, 3 * grp + 1))
        } else if g[0] == 'C' {
            Some((1, 3 * grp + 2))
        } else if g[0] == 'M' {
            if grp == 1 {
                Some((1, 6))
            } else {
                None
            }
        } else if g[0] == 'V' {
            Some((5, 3 * grp))
        } else if g[0] == 'L' {
            Some((5, 3 * grp + 1))
        } else if g[0] == 'D' {
            Some((5, 3 * grp + 2))
        } else {
            None
        }
    }
}

/// The numeric value a glyph stands for.  Glyphs in the table are worth
/// `multiplier * 10^tier`; the unlisted `M` ten-glyphs are worth the power
/// of ten the encoder means by them; anything else is worth nothing.
pub open spec fn glyph_val(g: Seq<char>) -> int {
    match lookup(g) {
        Some(mt) => mt.0 * pow10(mt.1 as nat) as int,
        None => if g.len() >= 1 && g[0] == 'M' && mark_group(g) >= 0 {
            pow10((3 * mark_group(g) + 3) as nat) as int
        } else {
            0
        },
    }
}

/// One base letter followed by marks only: the shape of every glyph, and
/// what makes a string of glyphs segment back into the same glyphs.
pub open spec fn cluster_wf(g: Seq<char>) -> bool {
    &&& g.len() >= 1
    &&& is_base(g[0])
    &&& forall|k: int| 1 <= k < g.len() ==> is_mark(#[trigger] g[k])
}

pub open spec fn clusters_wf(gs: Seq<Seq<char>>) -> bool {
    forall|i: int| 0 <= i < gs.len() ==> cluster_wf(#[trigger] gs[i])
}

/// What the table says about the three glyphs of each tier.
pub proof fn lemma_table(t: int)
    requires
        0 <= t <= 20,
    ensures
        lookup(one_sym(t)) == Some((1int, t)),
        lookup(five_sym(t)) == Some((5int, t)),
        t <= 19 && !ten_is_unlisted(t) ==> lookup(ten_sym(t)) == Some((1int, t + 1)),
        ten_is_unlisted(t) ==> lookup(ten_sym(t)) is None,
        glyph_val(one_sym(t)) == pow10(t as nat),
        glyph_val(five_sym(t)) == 5 * pow10(t as nat),
        glyph_val(ten_sym(t)) == pow10((t + 1) as nat),
        cluster_wf(one_sym(t)),
        cluster_wf(five_sym(t)),
        cluster_wf(ten_sym(t)),
{
    assert(3 * (t / 3) + (t % 3) == t);
    let p = pow10(t as nat) as int;
    assert(lookup(one_sym(t)) == Some((1int, t)));
    assert(glyph_val(one_sym(t)) == 1 * p);
    assert(glyph_val(five_sym(t)) == 5 * p);
    if ten_is_unlisted(t) {
        assert(mark_group(ten_sym(t)) == t / 3);
        assert(lookup(ten_sym(t)) is None);
        assert(glyph_val(ten_sym(t)) == pow10((3 * (t / 3) + 3) as nat) as int);
        assert(3 * (t / 3) + 3 == t + 1);
    } else {
        assert(lookup(ten_sym(t)) == Some((1int, t + 1)));
        assert(glyph_val(ten_sym(t)) == 1 * (pow10((t + 1) as nat) as int));
    }
}

/// Appends the mark run of group `grp` after a freshly pushed base letter.
fn push_decorated(out: &mut Vec<char>, letter: char, grp: u32)
    requires
        grp <= 6,
    ensures
        final(out)@ == old(out)@ + decorated(letter, grp as int),
{
    out.push(letter);
    if grp == 1 {
        out.push('\u{305}');
    } else if grp == 2 {
        out.push('\u{33F}');
    } else if grp == 3 {
        out.push('\u{332}');
        out.push('\u{33F}');
    } else if grp == 4 {
        out.push('\u{333}');
        out.push('\u{33F}');
    } else if grp == 5 {
        out.push('\u{20D2}');
        out.push('\u{333}');
        out.push('\u{33F}');
    } else if grp == 6 {
        out.push('\u{20E6}');
        out.push('\u{333}');
        out.push('\u{33F}');
    }
    assert(out@ =~= old(out)@ + decorated(letter, grp as int));
}

/// Appends the glyph worth `10^t`.
pub fn push_one_sym(out: &mut Vec<char>, t: u32)
    requires
        t <= 20,
    ensures
        final(out)@ == old(out)@ + one_sym(t as int),
{
    if t == 6 {
        push_decorated(out, 'M', 1);
    } else {
        let r = t % 3;
        let letter = if r == 1 { 'X' } else if r == 2 { 'C' } else { 'I' };
        push_decorated(out, letter, t / 3);
    }
}

/// Appends the glyph worth `5 * 10^t`.
pub fn push_five_sym(out: &mut Vec<char>, t: u32)
    requires
        t <= 20,
    ensures
        final(out)@ == old(out)@ + five_sym(t as int),
{
    let r = t % 3;
    let letter = if r == 1 { 'L' } else if r == 2 { 'D' } else { 'V' };
    push_decorated(out, letter, t / 3);
}

/// Appends the glyph worth `10^(t+1)` used when rendering a nine.
pub fn push_ten_sym(out: &mut Vec<char>, t: u32)
    requires
        t <= 19,
    ensures
        final(out)@ == old(out)@ + ten_sym(t as int),
{
    if t == 8 || t == 11 || t == 14 || t == 17 {
        push_decorated(out, 'M', t / 3);
    } else {
        push_one_sym(out, t + 1);
    }
}

/// Exact-match lookup of one grapheme, mirroring the table.
pub fn lookup_grapheme(g: &Vec<char>) -> (r: Option<(u64, u32)>)
    ensures
        match r {
            Some(mt) => lookup(g@) == Some((mt.0 as int, mt.1 as int)) && (mt.0 == 1 || mt.0
                == 5) && mt.1 <= 20,
            None => lookup(g@) is None,
        },
{
    if g.len() == 0 {
        return None;
    }
    let grp: u32 = if g.len() == 1 {
        0
    } else if g.len() == 2 && g[1] == '\u{305}' {
        1
    } else if g.len() == 2 && g[1] == '\u{33F}' {
        2
    } else if g.len() == 3 && g[1] == '\u{332}' && g[2] == '\u{33F}' {
        3
    } else if g.len() == 3 && g[1] == '\u{333}' && g[2] == '\u{33F}' {
        4
    } else if g.len() == 4 && g[1] == '\u{20D2}' && g[2] == '\u{333}' && g[3] == '\u{33F}' {
        5
    } else if g.len() == 4 && g[1] == '\u{20E6}' && g[2] == '\u{333}' && g[3] == '\u{33F}' {
        6
    } else {
        return None;
    };
    let c = g[0];
    if c == 'I' {
        if grp == 2 {
            None
        } else {
            Some((1, 3 * grp))
        }
    } else if c == 'X' {
        Some((1, 3 * grp + 1))
    } else if c == 'C' {
        Some((1, 3 * grp + 2))
    } else if c == 'M' {
        if grp == 1 {
            Some((1, 6))
        } else {
            None
        }
    } else if c == 'V' {
        Some((5, 3 * grp))
    } else if c == 'L' {
        Some((5, 3 * grp + 1))
    } else if c == 'D' {
        Some((5, 3 * grp + 2))
    } else {
        None
    }
}

} // verus!
