//! State of a Square-1 puzzle: the two layers of pieces, their
//! rotational offsets, the flip-legality check, the flip and twist
//! transformations, and randomized scramble generation.

use rand::Rng;
use vstd::prelude::*;
use vstd::arithmetic::div_mod::{
    lemma_fundamental_div_mod, lemma_mod_add_multiples_vanish, lemma_mod_multiples_vanish,
};

verus! {

/// One of the six facet colors. Two colors can sit on the same piece
/// exactly when their ordinal codes do not differ by one.
#[derive(Copy, Clone, Eq, PartialEq, Debug)]
pub enum Color {
    White,
    Yellow,
    Blue,
    Green,
    Red,
    Orange,
}

/// Ordinal code of a color; antipodal colors have codes that differ by one.
pub open spec fn code(c: Color) -> int {
    match c {
        Color::White => 0,
        Color::Yellow => 1,
        Color::Blue => 3,
        Color::Green => 4,
        Color::Red => 6,
        Color::Orange => 7,
    }
}

/// Executable form of `code`.
pub fn color_code(c: Color) -> (v: u8)
    ensures
        v as int == code(c),
{
    match c {
        Color::White => 0,
        Color::Yellow => 1,
        Color::Blue => 3,
        Color::Green => 4,
        Color::Red => 6,
        Color::Orange => 7,
    }
}

/// Two color codes are compatible when they do not differ by exactly one.
pub open spec fn codes_possible(a: int, b: int) -> bool {
    (if a >= b {
        a - b
    } else {
        b - a
    }) != 1
}

/// Returns true if the combination of color codes is possible on the
/// cube: opposite colors (for example yellow and white) cannot sit on
/// the same piece.
pub fn possible(c1: u8, c2: u8) -> (r: bool)
    ensures
        r == codes_possible(c1 as int, c2 as int),
{
    let d = if c1 >= c2 {
        c1 - c2
    } else {
        c2 - c1
    };
    d != 1
}

/// The two colors of an edge piece.
#[derive(Copy, Clone, Eq, PartialEq, Debug)]
pub struct EdgeColor {
    pub colors: (Color, Color),
}

/// An edge is possible when its two colors are compatible.
pub open spec fn edge_possible(e: EdgeColor) -> bool {
    codes_possible(code(e.colors.0), code(e.colors.1))
}

impl EdgeColor {
    /// Returns true if the edge holds a possible combination of colors.
    pub fn possible(&self) -> (r: bool)
        ensures
            r == edge_possible(*self),
    {
        possible(color_code(self.colors.0), color_code(self.colors.1))
    }
}

/// The three colors of a corner piece.
#[derive(Copy, Clone, Eq, PartialEq, Debug)]
pub struct CornerColor {
    pub colors: (Color, Color, Color),
}

/// A corner is possible when all three of its colors are pairwise
/// compatible.
pub open spec fn corner_possible(c: CornerColor) -> bool {
    &&& codes_possible(code(c.colors.0), code(c.colors.1))
    &&& codes_possible(code(c.colors.1), code(c.colors.2))
    &&& codes_possible(code(c.colors.0), code(c.colors.2))
}

impl CornerColor {
    /// Returns true if the combination of colors is possible for the
    /// corner.
    pub fn possible(&self) -> (r: bool)
        ensures
            r == corner_possible(*self),
    {
        possible(color_code(self.colors.0), color_code(self.colors.1))
            && possible(color_code(self.colors.1), color_code(self.colors.2))
            && possible(color_code(self.colors.0), color_code(self.colors.2))
    }
}

/// A piece of one layer: an edge fills one slot, a corner fills two
/// consecutive slots (the second one holds `None` as a continuation
/// marker).
#[derive(Copy, Clone, Eq, PartialEq, Debug)]
pub enum Piece {
    Edge(EdgeColor),
    Corner(CornerColor),
}

/// Whether a piece satisfies the color-compatibility invariant.
pub open spec fn piece_possible(p: Piece) -> bool {
    match p {
        Piece::Edge(e) => edge_possible(e),
        Piece::Corner(c) => corner_possible(c),
    }
}

/// Whether a slot's occupant, if any, satisfies the color invariant.
pub open spec fn slot_possible(s: Option<Piece>) -> bool {
    match s {
        Some(p) => piece_possible(p),
        None => true,
    }
}

/// Whether a slot holds the start of a corner piece.
pub open spec fn is_corner(s: Option<Piece>) -> bool {
    match s {
        Some(Piece::Corner(_)) => true,
        _ => false,
    }
}

/// Returns the value of a % n where the result is always positive;
/// this differs from the sign convention of the `%` operator on `i8`.
///
/// Ex: -1 % 4 == -1, abs_mod(-1, 4) == 3
pub fn abs_mod(a: i8, n: i8) -> (r: u8)
    requires
        0 < n,
    ensures
        r as int == (a as int) % (n as int),
        r < n,
{
    let ghost a0 = a as int;
    let mut a = a;
    while a < 0
        invariant
            0 < n,
            (a as int) % (n as int) == a0 % (n as int),
        decreases (if a < 0 { 0 - a as int } else { 0 }),
    {
        proof {
            lemma_mod_add_multiples_vanish(a as int, n as int);
        }
        a += n;
    }
    (a % n) as u8
}

/// Symmetric representative of a twist amount: any integer is mapped
/// into the range [-5, 6], keeping its residue modulo 12.
pub open spec fn norm(x: int) -> int {
    (x + 5) % 12 - 5
}

/// The normalized form of a twist amount lies in [-5, 6], and
/// normalizing is idempotent.
pub proof fn lemma_norm_idempotent(x: int)
    ensures
        -5 <= norm(x) <= 6,
        norm(norm(x)) == norm(x),
{
}

/// Executable normalization, computed in a wide type so that any sum
/// of an offset and a twist amount is accepted.
fn normalize(x: i16) -> (r: i8)
    ensures
        r as int == norm(x as int),
{
    let mut a: i32 = x as i32 + 5;
    let ghost a0 = a as int;
    while a < 0
        invariant
            a0 == x as int + 5,
            (a as int) % 12 == a0 % 12,
        decreases (if a < 0 { 0 - a as int } else { 0 }),
    {
        proof {
            lemma_mod_add_multiples_vanish(a as int, 12);
        }
        a += 12;
    }
    (a % 12) as i8 - 5
}

/// The cyclic order of the four equator colors.
pub open spec fn equator(i: int) -> Color {
    if i == 0 {
        Color::Green
    } else if i == 1 {
        Color::Orange
    } else if i == 2 {
        Color::Blue
    } else {
        Color::Red
    }
}

/// Executable form of `equator`.
fn equator_color(i: u8) -> (c: Color)
    requires
        i < 4,
    ensures
        c == equator(i as int),
{
    if i == 0 {
        Color::Green
    } else if i == 1 {
        Color::Orange
    } else if i == 2 {
        Color::Blue
    } else {
        Color::Red
    }
}

/// Pole color of a layer: white on top, yellow on the bottom.
pub open spec fn pole(is_top_layer: bool) -> Color {
    if is_top_layer {
        Color::White
    } else {
        Color::Yellow
    }
}

/// Slot `i` of a freshly generated layer with pole color `pc`:
/// corners at 0, 3, 6, 9, their continuations right after them, and
/// edges at 2, 5, 8, 11.
pub open spec fn solved_slot(i: int, pc: Color) -> Option<Piece> {
    if i % 3 == 0 {
        Some(
            Piece::Corner(
                CornerColor { colors: (equator((i / 3 - 1) % 4), equator(i / 3), pc) },
            ),
        )
    } else if i % 3 == 1 {
        None
    } else {
        Some(Piece::Edge(EdgeColor { colors: (equator(i / 3), pc) }))
    }
}

/// The 12 slots of a freshly generated layer.
pub open spec fn solved_layer(is_top_layer: bool) -> Seq<Option<Piece>> {
    Seq::new(12, |i: int| solved_slot(i, pole(is_top_layer)))
}

/// Local well-formedness of a layer at physical slot `i`: a
/// continuation marker directly follows the corner that owns it, a
/// corner is directly followed by its continuation marker
/// (circularly), and the piece satisfies the color invariant.
pub open spec fn wf_at(l: Seq<Option<Piece>>, i: int) -> bool {
    &&& l[i] is None ==> is_corner(l[m12(i + 11)])
    &&& is_corner(l[i]) ==> l[m12(i + 1)] is None
    &&& slot_possible(l[i])
}

/// Well-formedness of a layer: 12 slots, each locally well formed.
pub open spec fn layer_wf(l: Seq<Option<Piece>>) -> bool {
    &&& l.len() == 12
    &&& forall|i: int| 0 <= i < 12 ==> #[trigger] wf_at(l, i)
}

/// A layer rotated by `offset` can be split at the cut line exactly
/// when neither boundary slot holds the start of a corner.
pub open spec fn layer_can_flip(l: Seq<Option<Piece>>, offset: int) -> bool {
    &&& !is_corner(l[m12(5 - offset)])
    &&& !is_corner(l[m12(11 - offset)])
}

/// Flip-legality does not change when the offset is normalized.
pub proof fn lemma_can_flip_normalize(l: Seq<Option<Piece>>, offset: int)
    ensures
        layer_can_flip(l, offset) == layer_can_flip(l, norm(offset)),
{
    reveal(m12);
    let k = (offset + 5) / 12;
    assert(norm(offset) == offset - 12 * k) by {
        vstd::arithmetic::div_mod::lemma_fundamental_div_mod(offset + 5, 12);
    }
    assert((5 - norm(offset)) % 12 == (5 - offset) % 12) by {
        vstd::arithmetic::div_mod::lemma_mod_multiples_vanish(k, 5 - offset, 12);
    }
    assert((11 - norm(offset)) % 12 == (11 - offset) % 12) by {
        vstd::arithmetic::div_mod::lemma_mod_multiples_vanish(k, 11 - offset, 12);
    }
}

/// The mathematical value of a Square-1 configuration: both layers
/// as slot sequences, both offsets as integers, and the parity flag.
#[verifier::ext_equal]
pub ghost struct CubeView {
    pub top: Seq<Option<Piece>>,
    pub top_offset: int,
    pub bottom: Seq<Option<Piece>>,
    pub bottom_offset: int,
    pub middle: bool,
}

impl CubeView {
    /// Whether the configuration admits a flip.
    pub open spec fn flippable(self) -> bool {
        &&& layer_can_flip(self.top, self.top_offset)
        &&& layer_can_flip(self.bottom, self.bottom_offset)
    }
}

/// The configuration after one twist: the top offset advances by the
/// top amount, the bottom offset by the inverted bottom amount, both
/// normalized; layers and parity are untouched.
pub open spec fn twisted(v: CubeView, top_amount: i8, bottom_amount: i8) -> CubeView {
    CubeView {
        top_offset: norm(v.top_offset + top_amount),
        bottom_offset: norm(v.bottom_offset - bottom_amount),
        ..v
    }
}

/// The configuration after one flip attempt: when the cut is legal
/// the back halves swap, each reversed, and the parity flag toggles;
/// otherwise nothing changes.
pub open spec fn flipped(v: CubeView) -> CubeView {
    if v.flippable() {
        CubeView {
            top: flip_top(v.top, v.top_offset, v.bottom, v.bottom_offset),
            bottom: flip_bottom(v.top, v.top_offset, v.bottom, v.bottom_offset),
            middle: !v.middle,
            ..v
        }
    } else {
        v
    }
}

/// The configuration reached from `v` by applying, for each recorded
/// pair in order, the twist it names and then a flip attempt.
pub open spec fn run_moves(v: CubeView, ts: Seq<(i8, i8)>) -> CubeView
    decreases ts.len(),
{
    if ts.len() == 0 {
        v
    } else {
        flipped(twisted(run_moves(v, ts.drop_last()), ts.last().0, ts.last().1))
    }
}

/// Recording one more pair extends the run by one twist-then-flip
/// move.
pub proof fn lemma_run_moves_push(v: CubeView, ts: Seq<(i8, i8)>, p: (i8, i8))
    ensures
        run_moves(v, ts.push(p)) == flipped(twisted(run_moves(v, ts), p.0, p.1)),
{
    assert(ts.push(p).drop_last() =~= ts);
    assert(ts.push(p).last() == p);
}

/// A Square-1 configuration: the two layers, their rotational
/// offsets, and the parity flag toggled by each successful flip.
#[derive(Debug)]
pub struct SqOne {
    pub top: Vec<Option<Piece>>,
    pub top_offset: i8,
    pub bottom: Vec<Option<Piece>>,
    pub bottom_offset: i8,
    pub middle: bool,
}

impl View for SqOne {
    type V = CubeView;

    open spec fn view(&self) -> CubeView {
        CubeView {
            top: self.top@,
            top_offset: self.top_offset as int,
            bottom: self.bottom@,
            bottom_offset: self.bottom_offset as int,
            middle: self.middle,
        }
    }
}

impl SqOne {
    /// Invariant of every reachable configuration: both layers are
    /// well formed and both offsets are normalized.
    pub open spec fn wf(self) -> bool {
        &&& layer_wf(self.top@)
        &&& layer_wf(self.bottom@)
        &&& -5 <= self.top_offset <= 6
        &&& -5 <= self.bottom_offset <= 6
    }

    /// Whether the current configuration of the top and bottom layer
    /// admits a flip.
    pub open spec fn flippable(self) -> bool {
        &&& layer_can_flip(self.top@, self.top_offset as int)
        &&& layer_can_flip(self.bottom@, self.bottom_offset as int)
    }

    /// Produces a Square One configuration with the default colors
    /// and pieces of a solved Square One.
    pub fn new() -> (r: SqOne)
        ensures
            r.top@ == solved_layer(true),
            r.bottom@ == solved_layer(false),
            r.top_offset == 0,
            r.bottom_offset == 0,
            r.middle == false,
            r.wf(),
            r.flippable(),
    {
        let top = SqOne::gen_layer(true);
        let bottom = SqOne::gen_layer(false);
        SqOne { top, top_offset: 0, bottom, bottom_offset: 0, middle: false }
    }

    /// Returns true if the layer specified can be flipped at the cut
    /// line given by `offset`: the cut must not bisect a corner.
    pub fn can_flip_layer(layer: &Vec<Option<Piece>>, offset: i8) -> (r: bool)
        requires
            layer@.len() == 12,
            -116 <= offset,
        ensures
            r == layer_can_flip(layer@, offset as int),
    {
        proof {
            reveal(m12);
        }
        if let Some(Piece::Corner(_)) = layer[abs_mod(5 - offset, 12) as usize] {
            return false;
        } else if let Some(Piece::Corner(_)) = layer[abs_mod(11 - offset, 12) as usize] {
            return false;
        }
        true
    }

    /// Returns true if the current configuration of the top and
    /// bottom layer is able to be flipped.
    pub fn can_flip(&self) -> (r: bool)
        requires
            self.wf(),
        ensures
            r == self.flippable(),
    {
        SqOne::can_flip_layer(&self.top, self.top_offset)
            && SqOne::can_flip_layer(&self.bottom, self.bottom_offset)
    }

    /// Twists the cube by the provided offsets, following the
    /// standard Square One notation: the bottom amount is applied
    /// with inverted sign. The layers themselves are untouched; only
    /// the normalized offsets change.
    pub fn twist(&mut self, top_offset: i8, bottom_offset: i8)
        ensures
            final(self).top@ == old(self).top@,
            final(self).bottom@ == old(self).bottom@,
            final(self).middle == old(self).middle,
            final(self).top_offset as int == norm(old(self).top_offset + top_offset),
            final(self).bottom_offset as int == norm(old(self).bottom_offset - bottom_offset),
            old(self).wf() ==> final(self).wf(),
    {
        let top_sum: i16 = self.top_offset as i16 + top_offset as i16;
        let bot_sum: i16 = self.bottom_offset as i16 - bottom_offset as i16;
        self.top_offset = normalize(top_sum);
        self.bottom_offset = normalize(bot_sum);
    }

    /// When provided a layer of the Square One, reads the later half
    /// of the layer and returns the properly reversed vector: slots
    /// come out back to front, with each corner kept just before its
    /// continuation marker.
    #[verifier::rlimit(100)]
    pub fn get_reverse(layer: &Vec<Option<Piece>>, offset: i8) -> (r: Vec<Option<Piece>>)
        requires
            layer_wf(layer@),
            layer_can_flip(layer@, offset as int),
            -5 <= offset <= 6,
        ensures
            r@ == revp(back_half(layer@, offset as int)),
            r@.len() == 6,
    {
        let ghost off = offset as int;
        let ghost bh = back_half(layer@, off);
        proof {
            lemma_back_half_run_wf(layer@, off);
            lemma_revp_props(bh);
            assert(bh.take(6) =~= bh);
        }
        let mut reverse: Vec<Option<Piece>> = Vec::new();
        let mut iter: u8 = abs_mod(11 - offset, 12);
        let end: u8 = abs_mod(5 - offset, 12);
        let ghost mut lg: int = 11;
        proof {
            reveal(m12);
        }
        while iter != end
            invariant
                layer_wf(layer@),
                layer_can_flip(layer@, off),
                -5 <= off <= 6,
                5 <= lg <= 11,
                iter as int == m12(lg - off),
                end as int == m12(5 - off),
                bh == back_half(layer@, off),
                bh.len() == 6,
                run_wf(bh),
                revp(bh) == reverse@ + revp(bh.take(lg - 5)),
                reverse@.len() == 6 - (lg - 5),
            decreases lg - 5,
        {
            proof {
                assert(lg != 5);
                lemma_m12_bounds(lg - off);
                assert(layer@[m12(lg - off)] == slot(layer@, off, lg));
                assert(slot(layer@, off, lg) == bh[lg - 6]);
            }
            let cur = layer[iter as usize];
            let ghost m = lg - 5;
            proof {
                assert(bh.take(m).last() == bh[m - 1]);
            }
            match cur {
                Some(_) => {
                    reverse.push(cur);
                    iter = abs_mod(iter as i8 - 1, 12);
                    proof {
                        reveal(m12);
                        assert(revp(bh.take(m)) == seq![bh[m - 1]] + revp(
                            bh.take(m).take(m - 1),
                        ));
                        assert(bh.take(m).take(m - 1) =~= bh.take(m - 1));
                        assert(reverse@ + revp(bh.take(m - 1)) =~= revp(bh));
                        lemma_m12_shift(lg - off, -1);
                        assert(iter as int == m12(lg - 1 - off));
                        lg = lg - 1;
                    }
                },
                None => {
                    proof {
                        reveal(m12);
                        assert(run_at(bh, lg - 6));
                        assert(lg - 6 >= 1 && is_corner(bh[lg - 7]));
                        lemma_m12_shift(lg - off, -1);
                        lemma_m12_bounds(lg - 1 - off);
                        assert(layer@[m12(lg - 1 - off)] == slot(layer@, off, lg - 1));
                        assert(slot(layer@, off, lg - 1) == bh[lg - 7]);
                    }
                    let prev = abs_mod(iter as i8 - 1, 12);
                    proof {
                        reveal(m12);
                        assert(prev as int == m12(lg - 1 - off));
                    }
                    let owner = layer[prev as usize];
                    reverse.push(owner);
                    reverse.push(None);
                    iter = abs_mod(iter as i8 - 2, 12);
                    proof {
                        reveal(m12);
                        assert(owner == bh[m - 2]);
                        assert(bh.take(m)[m - 2] == bh[m - 2]);
                        assert(revp(bh.take(m)) == seq![bh[m - 2], Option::<Piece>::None]
                            + revp(bh.take(m).take(m - 2)));
                        assert(bh.take(m).take(m - 2) =~= bh.take(m - 2));
                        assert(reverse@ + revp(bh.take(m - 2)) =~= revp(bh));
                        lemma_m12_shift(lg - off, -2);
                        assert(iter as int == m12(lg - 2 - off));
                        lg = lg - 2;
                    }
                },
            }
        }
        proof {
            lemma_m12_eq(lg - off, 5 - off);
            assert(lg == 5);
            assert(bh.take(0) =~= Seq::<Option<Piece>>::empty());
            assert(revp(bh.take(0)) =~= Seq::<Option<Piece>>::empty());
            assert(reverse@ =~= revp(bh));
        }
        reverse
    }

    /// Flips the top and bottom layer of the cube: the back halves of
    /// the two layers are swapped, each reversed, and the parity flag
    /// toggles. When the current cut is illegal the state is left
    /// exactly as it is.
    pub fn flip(&mut self)
        requires
            old(self).wf(),
        ensures
            final(self).wf(),
            final(self).top_offset == old(self).top_offset,
            final(self).bottom_offset == old(self).bottom_offset,
            !old(self).flippable() ==> (final(self).top@ == old(self).top@
                && final(self).bottom@ == old(self).bottom@
                && final(self).middle == old(self).middle),
            old(self).flippable() ==> (final(self).top@ == flip_top(
                old(self).top@,
                old(self).top_offset as int,
                old(self).bottom@,
                old(self).bottom_offset as int,
            ) && final(self).bottom@ == flip_bottom(
                old(self).top@,
                old(self).top_offset as int,
                old(self).bottom@,
                old(self).bottom_offset as int,
            ) && final(self).middle == !old(self).middle && final(self).flippable()),
    {
        if !self.can_flip() {
            return;
        }

        let ghost t0 = self.top@;
        let ghost b0 = self.bottom@;
        let ghost toff = self.top_offset as int;
        let ghost boff = self.bottom_offset as int;
        let top_reverse = SqOne::get_reverse(&self.top, self.top_offset);
        let bottom_reverse = SqOne::get_reverse(&self.bottom, self.bottom_offset);
        let ghost rt = top_reverse@;
        let ghost rb = bottom_reverse@;
        proof {
            lemma_back_half_run_wf(t0, toff);
            lemma_back_half_run_wf(b0, boff);
            lemma_revp_props(back_half(t0, toff));
            lemma_revp_props(back_half(b0, boff));
            lemma_place_back_wf(t0, toff, rb);
            lemma_place_back_wf(b0, boff, rt);
        }
        let mut index: usize = 0;
        for i in 6..12u8
            invariant
                index == i - 6,
                self.top@.len() == 12,
                self.bottom@.len() == 12,
                self.top_offset as int == toff,
                self.bottom_offset as int == boff,
                -5 <= toff <= 6,
                -5 <= boff <= 6,
                self.middle == old(self).middle,
                top_reverse@ == rt,
                bottom_reverse@ == rb,
                rt.len() == 6,
                rb.len() == 6,
                forall|p: int|
                    0 <= p < 12 ==> #[trigger] self.top@[p] == (if 6 <= m12(p + toff)
                        && m12(p + toff) < i as int {
                        rb[m12(p + toff) - 6]
                    } else {
                        t0[p]
                    }),
                forall|p: int|
                    0 <= p < 12 ==> #[trigger] self.bottom@[p] == (if 6 <= m12(p + boff)
                        && m12(p + boff) < i as int {
                        rt[m12(p + boff) - 6]
                    } else {
                        b0[p]
                    }),
        {
            proof {
                reveal(m12);
                lemma_m12_bounds(i as int - toff);
                lemma_m12_bounds(i as int - boff);
            }
            let ti = abs_mod(i as i8 - self.top_offset, 12) as usize;
            let bi = abs_mod(i as i8 - self.bottom_offset, 12) as usize;
            self.top[ti] = bottom_reverse[index];
            self.bottom[bi] = top_reverse[index];
            index += 1;
            proof {
                assert(m12(ti as int + toff) == i as int) by {
                    lemma_m12_shift(i as int - toff, toff);
                    lemma_m12_small(i as int);
                }
                assert(m12(bi as int + boff) == i as int) by {
                    lemma_m12_shift(i as int - boff, boff);
                    lemma_m12_small(i as int);
                }
                assert forall|p: int| 0 <= p < 12 && p != ti as int implies #[trigger] m12(p + toff)
                    != i as int by {
                    if m12(p + toff) == i as int {
                        lemma_m12_shift(p + toff, -toff);
                        lemma_m12_small(p);
                        lemma_m12_shift(i as int - toff, 0);
                        assert(p == m12(i as int - toff));
                    }
                }
                assert forall|p: int| 0 <= p < 12 && p != bi as int implies #[trigger] m12(p + boff)
                    != i as int by {
                    if m12(p + boff) == i as int {
                        lemma_m12_shift(p + boff, -boff);
                        lemma_m12_small(p);
                        lemma_m12_shift(i as int - boff, 0);
                        assert(p == m12(i as int - boff));
                    }
                }
            }
        }
        proof {
            assert(self.top@ =~= place_back(t0, toff, rb));
            assert(self.bottom@ =~= place_back(b0, boff, rt));
        }
        self.middle = !self.middle;
    }

    /// Generates a random offset value for the given layer: a twist
    /// amount after which this layer can flip. Random draws are tried
    /// first; if an unlikely run of draws all land on illegal cuts,
    /// the candidates are scanned in order instead. A well-formed
    /// layer always has a legal cut, so the result is always legal.
    pub fn rand_layer_offset(layer: &Vec<Option<Piece>>, offset: i8) -> (r: i8)
        requires
            layer_wf(layer@),
            -5 <= offset <= 6,
        ensures
            -5 <= r <= 6,
            layer_can_flip(layer@, r as int + offset),
    {
        let mut tries: u16 = 0;
        while tries < 128
            invariant
                layer_wf(layer@),
                -5 <= offset <= 6,
            decreases 128 - tries,
        {
            let rnum = draw_twist_amount();
            if SqOne::can_flip_layer(layer, rnum + offset) {
                return rnum;
            }
            tries += 1;
        }
        SqOne::first_legal_offset(layer, offset, false)
    }

    /// Deterministic fallback for offset selection: the first twist
    /// amount in [-5, 6] after which the layer can flip, skipping
    /// zero when `forbid_zero` is set. A well-formed layer always has
    /// a nonzero legal twist amount, so the scan always finds one.
    pub fn first_legal_offset(layer: &Vec<Option<Piece>>, offset: i8, forbid_zero: bool) -> (r:
        i8)
        requires
            layer_wf(layer@),
            -5 <= offset <= 6,
        ensures
            -5 <= r <= 6,
            forbid_zero ==> r != 0,
            layer_can_flip(layer@, r as int + offset),
    {
        let mut c: i8 = -5;
        while c <= 6
            invariant
                layer_wf(layer@),
                -5 <= offset <= 6,
                -5 <= c <= 7,
                forall|cc: int|
                    -5 <= cc < c && (forbid_zero ==> cc != 0) ==> !layer_can_flip(
                        layer@,
                        #[trigger] (cc + offset),
                    ),
            decreases 7 - c,
        {
            if (!forbid_zero || c != 0) && SqOne::can_flip_layer(layer, c + offset) {
                return c;
            }
            c += 1;
        }
        proof {
            lemma_legal_offset_exists(layer@, offset as int);
            let w = choose|w: int|
                -5 <= w <= 6 && w != 0 && layer_can_flip(layer@, #[trigger] (w + offset as int));
            assert(!layer_can_flip(layer@, w + offset as int));
            assert(false);
        }
        if forbid_zero {
            1
        } else {
            0
        }
    }

    /// Scrambles the cube using twenty twist-and-flip moves and
    /// returns the list of recorded twists: the final configuration
    /// is exactly the one reached from the starting configuration by
    /// replaying the recorded pairs in order, one twist then one flip
    /// each. Every drawn offset leaves its layer legal to flip, so
    /// all twenty flips act and the parity flag ends where it began.
    /// Each recorded pair keeps its top amount in [-5, 6] and its
    /// bottom amount in [-6, 5], and whenever the top amount is zero
    /// the bottom amount is not.
    pub fn scramble(&mut self) -> (twists: Vec<(i8, i8)>)
        requires
            old(self).wf(),
        ensures
            final(self).wf(),
            final(self)@ == run_moves(old(self)@, twists@),
            final(self).middle == old(self).middle,
            twists@.len() == 20,
            forall|k: int|
                0 <= k < 20 ==> (-5 <= (#[trigger] twists@[k]).0 <= 6 && -6 <= twists@[k].1
                    <= 5),
            forall|k: int| 0 <= k < 20 ==> ((#[trigger] twists@[k]).0 == 0 ==> twists@[k].1 != 0),
    {
        let ghost v0 = self@;
        let mut twists: Vec<(i8, i8)> = Vec::new();
        let mut count: u8 = 0;
        while count < 20
            invariant
                self.wf(),
                self@ == run_moves(v0, twists@),
                self.middle == (if count % 2 == 0 {
                    v0.middle
                } else {
                    !v0.middle
                }),
                twists@.len() == count,
                count <= 20,
                forall|k: int|
                    0 <= k < count as int ==> (-5 <= (#[trigger] twists@[k]).0 <= 6 && -6
                        <= twists@[k].1 <= 5),
                forall|k: int|
                    0 <= k < count as int ==> ((#[trigger] twists@[k]).0 == 0 ==> twists@[k].1
                        != 0),
            decreases 20 - count,
        {
            let ghost before = self@;
            let top_layer_offset = SqOne::rand_layer_offset(&self.top, self.top_offset);
            let mut bot_layer_offset = SqOne::rand_layer_offset(&self.bottom, self.bottom_offset);
            if top_layer_offset == 0 {
                let mut tries: u16 = 0;
                while bot_layer_offset == 0 && tries < 128
                    invariant
                        self.wf(),
                        -5 <= bot_layer_offset <= 6,
                        layer_can_flip(
                            self.bottom@,
                            bot_layer_offset as int + self.bottom_offset as int,
                        ),
                    decreases 128 - tries,
                {
                    bot_layer_offset = SqOne::rand_layer_offset(&self.bottom, self.bottom_offset);
                    tries += 1;
                }
                if bot_layer_offset == 0 {
                    bot_layer_offset = SqOne::first_legal_offset(
                        &self.bottom,
                        self.bottom_offset,
                        true,
                    );
                }
            }
            let bottom_record: i8 = -bot_layer_offset;

            self.twist(top_layer_offset, bottom_record);
            let ghost mid = self@;
            proof {
                assert(mid =~= twisted(before, top_layer_offset, bottom_record));
                lemma_can_flip_normalize(before.top, before.top_offset + top_layer_offset);
                lemma_can_flip_normalize(before.bottom, before.bottom_offset - bottom_record);
                assert(mid.flippable());
            }
            self.flip();
            proof {
                assert(self@ =~= flipped(mid));
            }

            let ghost prior = twists@;
            twists.push((top_layer_offset, bottom_record));
            count += 1;
            proof {
                lemma_run_moves_push(v0, prior, (top_layer_offset, bottom_record));
                assert(twists@ =~= prior.push((top_layer_offset, bottom_record)));
                assert(before == run_moves(v0, prior));
                assert(self@ == run_moves(v0, twists@));
            }
        }
        twists
    }

    /// Creates the vector of corner and edge pieces of one layer of
    /// the cube: white on top if `is_top_layer` is set, else yellow.
    pub fn gen_layer(is_top_layer: bool) -> (layer: Vec<Option<Piece>>)
        ensures
            layer@ == solved_layer(is_top_layer),
            layer_wf(layer@),
            layer_can_flip(layer@, 0),
    {
        let top_color = if is_top_layer {
            Color::White
        } else {
            Color::Yellow
        };
        let ghost pc = pole(is_top_layer);
        assert(top_color == pc);

        let mut layer: Vec<Option<Piece>> = Vec::with_capacity(12);
        for i in 0u8..4
            invariant
                layer@.len() == 3 * i,
                forall|j: int| 0 <= j < 3 * i ==> layer@[j] == solved_slot(j, pc),
                top_color == pc,
        {
            let corner = Piece::Corner(
                CornerColor {
                    colors: (
                        equator_color(abs_mod(i as i8 - 1, 4)),
                        equator_color(i),
                        top_color,
                    ),
                },
            );
            let edge = Piece::Edge(EdgeColor { colors: (equator_color(i), top_color) });

            layer.push(Some(corner));
            layer.push(None);
            layer.push(Some(edge));

            proof {
                let b: int = 3 * i;
                assert(b % 3 == 0 && b / 3 == i as int);
                assert((b + 1) % 3 == 1);
                assert((b + 2) % 3 == 2 && (b + 2) / 3 == i as int);
                assert(layer@[b] == solved_slot(b, pc));
                assert(layer@[b + 1] == solved_slot(b + 1, pc));
                assert(layer@[b + 2] == solved_slot(b + 2, pc));
            }
        }
        proof {
            assert(layer@ =~= solved_layer(is_top_layer));
            lemma_solved_layer_wf(is_top_layer);
        }
        layer
    }
}

/// Residue modulo 12, kept opaque so that proofs about slot
/// positions go through the few lemmas below instead of raw modular
/// arithmetic.
#[verifier::opaque]
pub open spec fn m12(a: int) -> int {
    a % 12
}

/// The residue lies in [0, 12).
proof fn lemma_m12_bounds(a: int)
    ensures
        0 <= m12(a) < 12,
{
    reveal(m12);
}

/// A number already in [0, 12) is its own residue.
proof fn lemma_m12_small(a: int)
    requires
        0 <= a < 12,
    ensures
        m12(a) == a,
{
    reveal(m12);
}

/// Reducing before adding a shift does not change the residue of the
/// sum.
proof fn lemma_m12_shift(a: int, b: int)
    ensures
        m12(m12(a) + b) == m12(a + b),
{
    reveal(m12);
    mod_shift(a, b);
}

/// Two numbers less than a full turn apart with the same residue are
/// equal.
proof fn lemma_m12_eq(a: int, b: int)
    requires
        m12(a) == m12(b),
        0 <= a - b < 12,
    ensures
        a == b,
{
    reveal(m12);
    lemma_fundamental_div_mod(a, 12);
    lemma_fundamental_div_mod(b, 12);
}

/// A full turn of twelve slots does not change the residue.
proof fn lemma_m12_plus12(a: int)
    ensures
        m12(a + 12) == m12(a),
{
    reveal(m12);
    lemma_mod_add_multiples_vanish(a, 12);
}

/// Adding a multiple-free shift commutes with taking the residue:
/// reducing `a` modulo 12 before adding `b` does not change the
/// residue of the sum.
proof fn mod_shift(a: int, b: int)
    ensures
        (a % 12 + b) % 12 == (a + b) % 12,
{
    lemma_fundamental_div_mod(a, 12);
    assert(a % 12 + b == 12 * (-(a / 12)) + (a + b));
    lemma_mod_multiples_vanish(-(a / 12), a + b, 12);
}

/// The slot at logical position `i` of a layer rotated by `off`: the
/// piece a viewer sees at position `i` once the rotation is applied.
pub open spec fn slot(l: Seq<Option<Piece>>, off: int, i: int) -> Option<Piece> {
    l[m12(i - off)]
}

/// The six slots of the back half of a rotated layer, in logical
/// order: positions 6 through 11.
pub open spec fn back_half(l: Seq<Option<Piece>>, off: int) -> Seq<Option<Piece>> {
    Seq::new(6, |j: int| slot(l, off, j + 6))
}

/// Reversal of a run of whole pieces: the slots come out in reversed
/// physical order, except that a corner and its continuation marker
/// stay together as a two-slot unit.
pub open spec fn revp(s: Seq<Option<Piece>>) -> Seq<Option<Piece>>
    decreases s.len(),
{
    if s.len() == 0 {
        Seq::empty()
    } else if s.len() >= 2 && s.last() is None {
        seq![s[s.len() - 2], None] + revp(s.take(s.len() - 2))
    } else {
        seq![s.last()] + revp(s.take(s.len() - 1))
    }
}

/// Local shape of a run of whole pieces at index `j`: a continuation
/// marker directly follows its corner, a corner start is directly
/// followed by its continuation marker, and the piece is possible.
pub open spec fn run_at(s: Seq<Option<Piece>>, j: int) -> bool {
    &&& s[j] is None ==> j >= 1 && is_corner(s[j - 1])
    &&& is_corner(s[j]) ==> j + 1 < s.len() && s[j + 1] is None
    &&& slot_possible(s[j])
}

/// A run of whole pieces, locally well shaped everywhere. In
/// particular a run neither starts with a continuation marker nor
/// ends with a bare corner start.
pub open spec fn run_wf(s: Seq<Option<Piece>>) -> bool {
    forall|j: int| 0 <= j < s.len() ==> #[trigger] run_at(s, j)
}

/// Truncating a run of whole pieces at a piece boundary (anywhere but
/// directly after a corner start) leaves a run of whole pieces.
proof fn lemma_run_wf_take(s: Seq<Option<Piece>>, k: int)
    requires
        run_wf(s),
        0 <= k <= s.len(),
        k < s.len() ==> !(s[k] is None),
    ensures
        run_wf(s.take(k)),
{
    let f = s.take(k);
    assert forall|j: int| 0 <= j < f.len() implies #[trigger] run_at(f, j) by {
        assert(run_at(s, j));
        assert(f[j] == s[j]);
        if j >= 1 {
            assert(f[j - 1] == s[j - 1]);
        }
        if is_corner(s[j]) {
            assert(s[j + 1] is None);
            if j + 1 == k {
                assert(false);
            }
            assert(f[j + 1] == s[j + 1]);
        }
    }
}

/// Reversing a run of whole pieces keeps its length and yields a run
/// of whole pieces again.
pub proof fn lemma_revp_props(s: Seq<Option<Piece>>)
    requires
        run_wf(s),
    ensures
        revp(s).len() == s.len(),
        run_wf(revp(s)),
    decreases s.len(),
{
    let n = s.len() as int;
    if n == 0 {
        assert(revp(s) =~= s);
    } else if s.last() is None {
        assert(run_at(s, n - 1));
        assert(n >= 2 && is_corner(s[n - 2]));
        assert(run_at(s, n - 2));
        let front = s.take(n - 2);
        lemma_run_wf_take(s, n - 2);
        lemma_revp_props(front);
        let r = revp(s);
        assert(r == seq![s[n - 2], Option::<Piece>::None] + revp(front));
        assert forall|j: int| 0 <= j < r.len() implies #[trigger] run_at(r, j) by {
            if j >= 2 {
                assert(run_at(revp(front), j - 2));
                assert(r[j] == revp(front)[j - 2]);
                if j >= 3 {
                    assert(r[j - 1] == revp(front)[j - 3]);
                }
                if j + 1 < r.len() {
                    assert(r[j + 1] == revp(front)[j - 1]);
                }
            } else {
                assert(r[0] == s[n - 2]);
                assert(r[1] is None);
            }
        }
    } else {
        assert(run_at(s, n - 1));
        assert(!(s.last() is None));
        assert(!is_corner(s.last()));
        let front = s.take(n - 1);
        lemma_run_wf_take(s, n - 1);
        lemma_revp_props(front);
        let r = revp(s);
        assert(r == seq![s.last()] + revp(front));
        assert forall|j: int| 0 <= j < r.len() implies #[trigger] run_at(r, j) by {
            if j >= 1 {
                assert(run_at(revp(front), j - 1));
                assert(r[j] == revp(front)[j - 1]);
                if j >= 2 {
                    assert(r[j - 1] == revp(front)[j - 2]);
                }
                if j + 1 < r.len() {
                    assert(r[j + 1] == revp(front)[j]);
                }
            } else {
                assert(r[0] == s.last());
            }
        }
    }
}

/// Reversal distributes contravariantly over the concatenation of two
/// runs of whole pieces.
proof fn lemma_revp_cat(x: Seq<Option<Piece>>, y: Seq<Option<Piece>>)
    requires
        run_wf(x),
        run_wf(y),
    ensures
        revp(x + y) == revp(y) + revp(x),
    decreases y.len(),
{
    let s = x + y;
    let n = s.len() as int;
    let m = y.len() as int;
    if m == 0 {
        assert(s =~= x);
        assert(revp(y) =~= Seq::<Option<Piece>>::empty());
        assert(revp(y) + revp(x) =~= revp(x));
    } else if y.last() is None {
        assert(run_at(y, m - 1));
        assert(m >= 2 && is_corner(y[m - 2]));
        assert(s.last() == y.last());
        assert(s[n - 2] == y[m - 2]);
        let yf = y.take(m - 2);
        lemma_run_wf_take(y, m - 2);
        assert(s.take(n - 2) =~= x + yf);
        lemma_revp_cat(x, yf);
        assert(revp(s) == seq![y[m - 2], Option::<Piece>::None] + (revp(yf) + revp(x)));
        assert(revp(y) == seq![y[m - 2], Option::<Piece>::None] + revp(yf));
        assert(revp(s) =~= revp(y) + revp(x));
    } else {
        assert(!(y.last() is None));
        assert(s.last() == y.last());
        let yf = y.take(m - 1);
        lemma_run_wf_take(y, m - 1);
        assert(s.take(n - 1) =~= x + yf);
        lemma_revp_cat(x, yf);
        assert(revp(s) == seq![y.last()] + (revp(yf) + revp(x)));
        assert(revp(y) == seq![y.last()] + revp(yf));
        assert(revp(s) =~= revp(y) + revp(x));
    }
}

/// Reversing a run of whole pieces twice gives the run back.
pub proof fn lemma_revp_involutive(s: Seq<Option<Piece>>)
    requires
        run_wf(s),
    ensures
        revp(revp(s)) == s,
    decreases s.len(),
{
    let n = s.len() as int;
    if n == 0 {
        assert(revp(s) =~= s);
        assert(revp(revp(s)) =~= s);
    } else if s.last() is None {
        assert(run_at(s, n - 1));
        assert(n >= 2 && is_corner(s[n - 2]));
        assert(run_at(s, n - 2));
        let front = s.take(n - 2);
        let pair = seq![s[n - 2], Option::<Piece>::None];
        lemma_run_wf_take(s, n - 2);
        assert(run_wf(pair)) by {
            assert forall|j: int| 0 <= j < 2 implies #[trigger] run_at(pair, j) by {
                assert(pair[0] == s[n - 2]);
                assert(pair[1] is None);
                assert(slot_possible(s[n - 2]));
            }
        }
        lemma_revp_props(front);
        lemma_revp_involutive(front);
        assert(revp(s) == pair + revp(front));
        lemma_revp_cat(pair, revp(front));
        assert(revp(pair) =~= pair) by {
            assert(pair.last() is None);
            assert(pair[pair.len() - 2] == pair[0]);
            assert(pair.take(0) =~= Seq::<Option<Piece>>::empty());
            assert(revp(pair.take(0)) =~= Seq::<Option<Piece>>::empty());
        }
        assert(revp(revp(s)) =~= front + pair);
        assert(front + pair =~= s);
    } else {
        assert(run_at(s, n - 1));
        assert(!(s.last() is None));
        assert(!is_corner(s.last()));
        let front = s.take(n - 1);
        let single = seq![s.last()];
        lemma_run_wf_take(s, n - 1);
        assert(run_wf(single)) by {
            assert forall|j: int| 0 <= j < 1 implies #[trigger] run_at(single, j) by {
                assert(single[0] == s.last());
                assert(slot_possible(s.last()));
            }
        }
        lemma_revp_props(front);
        lemma_revp_involutive(front);
        assert(revp(s) == single + revp(front));
        lemma_revp_cat(single, revp(front));
        assert(revp(single) =~= single) by {
            assert(single.take(0) =~= Seq::<Option<Piece>>::empty());
            assert(revp(single.take(0)) =~= Seq::<Option<Piece>>::empty());
        }
        assert(revp(revp(s)) =~= front + single);
        assert(front + single =~= s);
    }
}

/// A layer with physical slot `p` holds, at logical position
/// `(p + off) % 12`, exactly the slot `p`; logical neighbours are
/// physical neighbours.
proof fn lemma_slot_physical(l: Seq<Option<Piece>>, off: int, p: int)
    requires
        l.len() == 12,
        0 <= p < 12,
    ensures
        0 <= m12(p + off) < 12,
        slot(l, off, m12(p + off)) == l[p],
        slot(l, off, m12(m12(p + off) + 1)) == l[m12(p + 1)],
        slot(l, off, m12(m12(p + off) + 11)) == l[m12(p + 11)],
{
    lemma_m12_bounds(p + off);
    let li = m12(p + off);
    assert(m12(li - off) == p) by {
        lemma_m12_shift(p + off, -off);
        lemma_m12_small(p);
    }
    assert(m12(m12(li + 1) - off) == m12(p + 1)) by {
        lemma_m12_shift(li + 1, -off);
        lemma_m12_shift(p + off, 1 - off);
    }
    assert(m12(m12(li + 11) - off) == m12(p + 11)) by {
        lemma_m12_shift(li + 11, -off);
        lemma_m12_shift(p + off, 11 - off);
    }
}

/// The back half of a well-formed layer at a legal cut is a run of
/// whole pieces.
#[verifier::rlimit(100)]
proof fn lemma_back_half_run_wf(l: Seq<Option<Piece>>, off: int)
    requires
        layer_wf(l),
        layer_can_flip(l, off),
    ensures
        back_half(l, off).len() == 6,
        run_wf(back_half(l, off)),
{
    let b = back_half(l, off);
    assert forall|j: int| 0 <= j < 6 implies #[trigger] run_at(b, j) by {
        let p = m12(j + 6 - off);
        lemma_m12_bounds(j + 6 - off);
        assert(b[j] == l[p]);
        assert(wf_at(l, p));
        assert(m12(p + 11) == m12(j + 5 - off)) by {
            lemma_m12_shift(j + 6 - off, 11);
            lemma_m12_plus12(j + 5 - off);
        }
        assert(m12(p + 1) == m12(j + 7 - off)) by {
            lemma_m12_shift(j + 6 - off, 1);
        }
        if b[j] is None {
            assert(is_corner(l[m12(j + 5 - off)]));
            if j == 0 {
                assert(is_corner(l[m12(5 - off)]));
                assert(false);
            }
            assert(b[j - 1] == l[m12((j - 1) + 6 - off)]);
        }
        if is_corner(b[j]) {
            assert(l[m12(j + 7 - off)] is None);
            if j == 5 {
                assert(is_corner(l[m12(11 - off)]));
                assert(false);
            }
            assert(b[j + 1] == l[m12((j + 1) + 6 - off)]);
        }
    }
}

/// Every well-formed layer has a cut pair free of corner starts:
/// two opposite slots `p` and `p + 6` neither of which begins a
/// corner. Were every pair blocked, the twelve slots would have to
/// hold one corner start per pair, which the no-two-adjacent shape of
/// corners makes impossible around the circle.
proof fn lemma_free_pair_exists(l: Seq<Option<Piece>>)
    requires
        layer_wf(l),
    ensures
        exists|p: int| 0 <= p < 6 && !is_corner(#[trigger] l[p]) && !is_corner(l[p + 6]),
{
    if !is_corner(l[0]) && !is_corner(l[6]) {
        assert(0 <= 0int < 6 && !is_corner(l[0int]) && !is_corner(l[0int + 6]));
    } else if !is_corner(l[1]) && !is_corner(l[7]) {
        assert(0 <= 1int < 6 && !is_corner(l[1int]) && !is_corner(l[1int + 6]));
    } else if !is_corner(l[2]) && !is_corner(l[8]) {
        assert(0 <= 2int < 6 && !is_corner(l[2int]) && !is_corner(l[2int + 6]));
    } else if !is_corner(l[3]) && !is_corner(l[9]) {
        assert(0 <= 3int < 6 && !is_corner(l[3int]) && !is_corner(l[3int + 6]));
    } else if !is_corner(l[4]) && !is_corner(l[10]) {
        assert(0 <= 4int < 6 && !is_corner(l[4int]) && !is_corner(l[4int + 6]));
    } else if !is_corner(l[5]) && !is_corner(l[11]) {
        assert(0 <= 5int < 6 && !is_corner(l[5int]) && !is_corner(l[5int + 6]));
    } else {
        // Every pair holds a corner start. Chase the forced
        // alternation around the circle until it bites its own tail.
        reveal(m12);
        assert(wf_at(l, 0));
        assert(wf_at(l, 1));
        assert(wf_at(l, 2));
        assert(wf_at(l, 3));
        assert(wf_at(l, 4));
        assert(wf_at(l, 5));
        assert(wf_at(l, 6));
        assert(wf_at(l, 7));
        assert(wf_at(l, 8));
        assert(wf_at(l, 9));
        assert(wf_at(l, 10));
        assert(wf_at(l, 11));
        if is_corner(l[0]) {
            assert(l[1] is None);
            assert(is_corner(l[7]));
            assert(l[8] is None);
            assert(is_corner(l[2]));
            assert(l[3] is None);
            assert(is_corner(l[9]));
            assert(l[10] is None);
            assert(is_corner(l[4]));
            assert(l[5] is None);
            assert(is_corner(l[11]));
            assert(l[0] is None);
            assert(false);
        } else {
            assert(is_corner(l[6]));
            assert(l[7] is None);
            assert(is_corner(l[1]));
            assert(l[2] is None);
            assert(is_corner(l[8]));
            assert(l[9] is None);
            assert(is_corner(l[3]));
            assert(l[4] is None);
            assert(is_corner(l[10]));
            assert(l[11] is None);
            assert(is_corner(l[5]));
            assert(l[6] is None);
            assert(false);
        }
    }
}

/// A corner-free cut pair yields two distinct legal twist amounts in
/// [-5, 6]: one cutting at `p`, one at `p + 6`.
proof fn lemma_pair_gives_offsets(l: Seq<Option<Piece>>, off: int, p: int)
    requires
        l.len() == 12,
        0 <= p < 6,
        !is_corner(l[p]),
        !is_corner(l[p + 6]),
    ensures
        ({
            let c1 = norm(5 - p - off);
            let c2 = norm(11 - p - off);
            &&& -5 <= c1 <= 6
            &&& -5 <= c2 <= 6
            &&& c1 != c2
            &&& layer_can_flip(l, c1 + off)
            &&& layer_can_flip(l, c2 + off)
        }),
{
    reveal(m12);
    let c1 = norm(5 - p - off);
    let c2 = norm(11 - p - off);
    let k1 = (5 - p - off + 5) / 12;
    let k2 = (11 - p - off + 5) / 12;
    lemma_fundamental_div_mod(5 - p - off + 5, 12);
    lemma_fundamental_div_mod(11 - p - off + 5, 12);
    assert(c1 == 5 - p - off - 12 * k1);
    assert(c2 == 11 - p - off - 12 * k2);
    assert(m12(5 - (c1 + off)) == p) by {
        assert(5 - (c1 + off) == 12 * k1 + p);
        lemma_mod_multiples_vanish(k1, p, 12);
        lemma_m12_small(p);
    }
    assert(m12(11 - (c1 + off)) == p + 6) by {
        assert(11 - (c1 + off) == 12 * k1 + (p + 6));
        lemma_mod_multiples_vanish(k1, p + 6, 12);
        lemma_m12_small(p + 6);
    }
    assert(m12(5 - (c2 + off)) == p + 6) by {
        assert(5 - (c2 + off) == 12 * (k2 - 1) + (p + 6));
        lemma_mod_multiples_vanish(k2 - 1, p + 6, 12);
        lemma_m12_small(p + 6);
    }
    assert(m12(11 - (c2 + off)) == p) by {
        assert(11 - (c2 + off) == 12 * k2 + p);
        lemma_mod_multiples_vanish(k2, p, 12);
        lemma_m12_small(p);
    }
    assert(c1 != c2) by {
        assert(c2 - c1 == 6 - 12 * (k2 - k1));
    }
}

/// Every well-formed layer admits a nonzero twist amount in [-5, 6]
/// after which it can flip, whatever its current offset.
pub proof fn lemma_legal_offset_exists(l: Seq<Option<Piece>>, off: int)
    requires
        layer_wf(l),
    ensures
        exists|c: int| -5 <= c <= 6 && c != 0 && layer_can_flip(l, #[trigger] (c + off)),
{
    lemma_free_pair_exists(l);
    let p = choose|p: int| 0 <= p < 6 && !is_corner(#[trigger] l[p]) && !is_corner(l[p + 6]);
    lemma_pair_gives_offsets(l, off, p);
    let c1 = norm(5 - p - off);
    let c2 = norm(11 - p - off);
    if c1 != 0 {
        assert(-5 <= c1 <= 6 && c1 != 0 && layer_can_flip(l, c1 + off));
    } else {
        assert(-5 <= c2 <= 6 && c2 != 0 && layer_can_flip(l, c2 + off));
    }
}

/// The layer obtained by writing the six slots of `s` into logical
/// positions 6 through 11 of the rotated layer `l`.
pub open spec fn place_back(l: Seq<Option<Piece>>, off: int, s: Seq<Option<Piece>>) -> Seq<
    Option<Piece>,
> {
    Seq::new(
        12,
        |p: int|
            if 6 <= m12(p + off) < 12 {
                s[m12(p + off) - 6]
            } else {
                l[p]
            },
    )
}

/// Placement writes exactly the back half and leaves the front half
/// alone, slot for slot.
#[verifier::rlimit(100)]
proof fn lemma_place_back_slots(l: Seq<Option<Piece>>, off: int, s: Seq<Option<Piece>>)
    requires
        l.len() == 12,
        s.len() == 6,
    ensures
        place_back(l, off, s).len() == 12,
        forall|j: int| 0 <= j < 6 ==> slot(place_back(l, off, s), off, j + 6) == s[j],
        forall|j: int| 0 <= j < 6 ==> slot(place_back(l, off, s), off, j) == slot(l, off, j),
{
    let pb = place_back(l, off, s);
    assert forall|j: int| 0 <= j < 6 implies slot(pb, off, j + 6) == s[j] by {
        let pback = m12(j + 6 - off);
        lemma_m12_bounds(j + 6 - off);
        assert(m12(pback + off) == j + 6) by {
            lemma_m12_shift(j + 6 - off, off);
            lemma_m12_small(j + 6);
        }
        assert(slot(pb, off, j + 6) == pb[pback]);
    }
    assert forall|j: int| 0 <= j < 6 implies slot(pb, off, j) == slot(l, off, j) by {
        let pfront = m12(j - off);
        lemma_m12_bounds(j - off);
        assert(m12(pfront + off) == j) by {
            lemma_m12_shift(j - off, off);
            lemma_m12_small(j);
        }
        assert(slot(pb, off, j) == pb[pfront]);
    }
}

/// Two layers that agree on every logical slot are equal.
proof fn lemma_slots_eq(x: Seq<Option<Piece>>, y: Seq<Option<Piece>>, off: int)
    requires
        x.len() == 12,
        y.len() == 12,
        forall|i: int| 0 <= i < 12 ==> slot(x, off, i) == slot(y, off, i),
    ensures
        x == y,
{
    assert forall|p: int| 0 <= p < 12 implies x[p] == y[p] by {
        lemma_slot_physical(x, off, p);
        lemma_slot_physical(y, off, p);
        assert(slot(x, off, (p + off) % 12) == slot(y, off, (p + off) % 12));
    }
    assert(x =~= y);
}

/// Placing a run of whole pieces into the back half of a well-formed
/// layer at a legal cut yields a well-formed layer that is again
/// legal to flip, and whose back half is exactly that run.
#[verifier::rlimit(100)]
proof fn lemma_place_back_wf(l: Seq<Option<Piece>>, off: int, s: Seq<Option<Piece>>)
    requires
        layer_wf(l),
        layer_can_flip(l, off),
        run_wf(s),
        s.len() == 6,
    ensures
        layer_wf(place_back(l, off, s)),
        layer_can_flip(place_back(l, off, s), off),
        back_half(place_back(l, off, s), off) == s,
{
    let pb = place_back(l, off, s);
    lemma_place_back_slots(l, off, s);

    // Logical characterization of every slot of the placed layer.
    assert forall|i: int| 0 <= i < 12 implies slot(pb, off, i) == (if i < 6 {
        slot(l, off, i)
    } else {
        s[i - 6]
    }) by {
        if i >= 6 {
            assert(slot(pb, off, (i - 6) + 6) == s[i - 6]);
        }
    }

    assert forall|p: int| 0 <= p < 12 implies #[trigger] wf_at(pb, p) by {
        lemma_slot_physical(pb, off, p);
        let li = m12(p + off);
        let nxt = m12(li + 1);
        let prv = m12(li + 11);
        assert(nxt == if li == 11 {
            0int
        } else {
            li + 1
        }) by {
            if li == 11 {
                lemma_m12_plus12(0);
                lemma_m12_small(0);
            } else {
                lemma_m12_small(li + 1);
            }
        }
        assert(prv == if li == 0 {
            11int
        } else {
            li - 1
        }) by {
            if li == 0 {
                lemma_m12_small(11);
            } else {
                lemma_m12_plus12(li - 1);
                lemma_m12_small(li - 1);
            }
        }
        if pb[p] is None {
            assert(slot(pb, off, li) is None);
            if li < 6 {
                assert(slot(l, off, li) is None);
                assert(l[m12(li - off)] is None);
                lemma_m12_bounds(li - off);
                assert(wf_at(l, m12(li - off)));
                assert(is_corner(l[m12(m12(li - off) + 11)]));
                assert(m12(m12(li - off) + 11) == m12(li - 1 - off + 12)) by {
                    lemma_m12_shift(li - off, 11);
                }
                assert(m12(li - 1 - off + 12) == m12(li - 1 - off)) by {
                    lemma_m12_plus12(li - 1 - off);
                }
                if li == 0 {
                    assert(m12(-1 - off + 12) == m12(11 - off));
                    assert(is_corner(l[m12(11 - off)]));
                    assert(false);
                }
                assert(slot(l, off, li - 1) == l[m12(li - 1 - off)]);
                assert(is_corner(slot(pb, off, prv)));
            } else {
                assert(s[li - 6] is None);
                assert(run_at(s, li - 6));
                assert(li - 6 >= 1 && is_corner(s[li - 7]));
                assert(prv == li - 1 && li - 1 >= 6);
                assert(slot(pb, off, prv) == s[li - 7]);
            }
            assert(is_corner(pb[m12(p + 11)]));
        }
        if is_corner(pb[p]) {
            assert(is_corner(slot(pb, off, li)));
            if li < 6 {
                assert(is_corner(slot(l, off, li)));
                assert(is_corner(l[m12(li - off)]));
                lemma_m12_bounds(li - off);
                assert(wf_at(l, m12(li - off)));
                if li == 5 {
                    assert(is_corner(l[m12(5 - off)]));
                    assert(false);
                }
                assert(l[m12(m12(li - off) + 1)] is None);
                assert(m12(m12(li - off) + 1) == m12(li + 1 - off)) by {
                    lemma_m12_shift(li - off, 1);
                }
                assert(slot(l, off, li + 1) == l[m12(li + 1 - off)]);
                assert(slot(pb, off, nxt) is None);
            } else {
                assert(is_corner(s[li - 6]));
                assert(run_at(s, li - 6));
                assert(li - 6 + 1 < 6 && s[li - 5] is None);
                assert(nxt == li + 1 && li + 1 < 12);
                assert(slot(pb, off, nxt) == s[li - 5]);
                assert(slot(pb, off, nxt) is None);
            }
            assert(pb[m12(p + 1)] is None);
        }
        assert(slot_possible(pb[p])) by {
            assert(pb[p] == slot(pb, off, li));
            if li < 6 {
                lemma_m12_bounds(li - off);
                assert(wf_at(l, m12(li - off)));
                assert(slot(pb, off, li) == slot(l, off, li));
                assert(slot(l, off, li) == l[m12(li - off)]);
            } else {
                assert(run_at(s, li - 6));
                assert(slot(pb, off, li) == s[li - 6]);
            }
        }
    }
    assert(layer_wf(pb));

    assert(layer_can_flip(pb, off)) by {
        lemma_m12_bounds(5 - off);
        lemma_m12_bounds(11 - off);
        assert(m12(m12(5 - off) + off) == 5) by {
            lemma_m12_shift(5 - off, off);
            lemma_m12_small(5);
        }
        assert(slot(pb, off, 5) == pb[m12(5 - off)]);
        assert(slot(pb, off, 5) == slot(l, off, 5));
        assert(slot(l, off, 5) == l[m12(5 - off)]);
        assert(m12(m12(11 - off) + off) == 11) by {
            lemma_m12_shift(11 - off, off);
            lemma_m12_small(11);
        }
        assert(slot(pb, off, 11) == pb[m12(11 - off)]);
        assert(slot(pb, off, 11) == s[5]);
        assert(run_at(s, 5));
        assert(!is_corner(s[5]));
    }

    assert(back_half(pb, off) =~= s);
}

/// The top layer after a flip: the back half of the bottom layer,
/// reversed, placed into the back of the top.
pub open spec fn flip_top(
    t: Seq<Option<Piece>>,
    toff: int,
    b: Seq<Option<Piece>>,
    boff: int,
) -> Seq<Option<Piece>> {
    place_back(t, toff, revp(back_half(b, boff)))
}

/// The bottom layer after a flip: the back half of the top layer,
/// reversed, placed into the back of the bottom.
pub open spec fn flip_bottom(
    t: Seq<Option<Piece>>,
    toff: int,
    b: Seq<Option<Piece>>,
    boff: int,
) -> Seq<Option<Piece>> {
    place_back(b, boff, revp(back_half(t, toff)))
}

/// Flipping is an involution on the layer contents: a legal flip
/// leaves both layers legal to flip again, and a second flip with the
/// same offsets restores both layers exactly.
pub proof fn lemma_flip_involutive(
    t: Seq<Option<Piece>>,
    toff: int,
    b: Seq<Option<Piece>>,
    boff: int,
)
    requires
        layer_wf(t),
        layer_wf(b),
        layer_can_flip(t, toff),
        layer_can_flip(b, boff),
    ensures
        ({
            let t1 = flip_top(t, toff, b, boff);
            let b1 = flip_bottom(t, toff, b, boff);
            &&& layer_wf(t1)
            &&& layer_wf(b1)
            &&& layer_can_flip(t1, toff)
            &&& layer_can_flip(b1, boff)
            &&& flip_top(t1, toff, b1, boff) == t
            &&& flip_bottom(t1, toff, b1, boff) == b
        }),
{
    let rt = revp(back_half(t, toff));
    let rb = revp(back_half(b, boff));
    lemma_back_half_run_wf(t, toff);
    lemma_back_half_run_wf(b, boff);
    lemma_revp_props(back_half(t, toff));
    lemma_revp_props(back_half(b, boff));
    lemma_place_back_wf(t, toff, rb);
    lemma_place_back_wf(b, boff, rt);
    let t1 = flip_top(t, toff, b, boff);
    let b1 = flip_bottom(t, toff, b, boff);
    assert(back_half(t1, toff) == rb);
    assert(back_half(b1, boff) == rt);
    lemma_revp_involutive(back_half(t, toff));
    lemma_revp_involutive(back_half(b, boff));
    assert(revp(back_half(b1, boff)) == back_half(t, toff));
    assert(revp(back_half(t1, toff)) == back_half(b, boff));

    // Placing a layer's own back half into its back restores it.
    lemma_place_back_slots(t1, toff, back_half(t, toff));
    assert forall|i: int| 0 <= i < 12 implies slot(
        place_back(t1, toff, back_half(t, toff)),
        toff,
        i,
    ) == slot(t, toff, i) by {
        lemma_place_back_slots(t, toff, rb);
        if i >= 6 {
            assert(slot(place_back(t1, toff, back_half(t, toff)), toff, (i - 6) + 6)
                == back_half(t, toff)[i - 6]);
            assert(back_half(t, toff)[i - 6] == slot(t, toff, i));
        } else {
            assert(slot(place_back(t1, toff, back_half(t, toff)), toff, i) == slot(t1, toff, i));
            assert(slot(t1, toff, i) == slot(t, toff, i));
        }
    }
    lemma_slots_eq(place_back(t1, toff, back_half(t, toff)), t, toff);

    lemma_place_back_slots(b1, boff, back_half(b, boff));
    assert forall|i: int| 0 <= i < 12 implies slot(
        place_back(b1, boff, back_half(b, boff)),
        boff,
        i,
    ) == slot(b, boff, i) by {
        lemma_place_back_slots(b, boff, rt);
        if i >= 6 {
            assert(slot(place_back(b1, boff, back_half(b, boff)), boff, (i - 6) + 6)
                == back_half(b, boff)[i - 6]);
            assert(back_half(b, boff)[i - 6] == slot(b, boff, i));
        } else {
            assert(slot(place_back(b1, boff, back_half(b, boff)), boff, i) == slot(b1, boff, i));
            assert(slot(b1, boff, i) == slot(b, boff, i));
        }
    }
    lemma_slots_eq(place_back(b1, boff, back_half(b, boff)), b, boff);
}

/// Relies on rand::thread_rng and rand::Rng::gen_range: draws a twist
/// amount uniformly from the range -5..7. Nothing more is assumed of
/// the draw than its range.
#[verifier::external_body]
fn draw_twist_amount() -> (r: i8)
    ensures
        -5 <= r <= 6,
{
    let mut rng = rand::thread_rng();
    rng.gen_range(-5..6 + 1)
}

/// A freshly generated layer is well formed and, at offset zero, may
/// be flipped.
proof fn lemma_solved_layer_wf(is_top_layer: bool)
    ensures
        layer_wf(solved_layer(is_top_layer)),
        layer_can_flip(solved_layer(is_top_layer), 0),
{
    reveal(m12);
    let l = solved_layer(is_top_layer);
    assert forall|i: int| 0 <= i < 12 implies #[trigger] wf_at(l, i) by {
        assert(l[0] == solved_slot(0, pole(is_top_layer)));
        assert(l[1] == solved_slot(1, pole(is_top_layer)));
        assert(l[2] == solved_slot(2, pole(is_top_layer)));
        assert(l[3] == solved_slot(3, pole(is_top_layer)));
        assert(l[4] == solved_slot(4, pole(is_top_layer)));
        assert(l[5] == solved_slot(5, pole(is_top_layer)));
        assert(l[6] == solved_slot(6, pole(is_top_layer)));
        assert(l[7] == solved_slot(7, pole(is_top_layer)));
        assert(l[8] == solved_slot(8, pole(is_top_layer)));
        assert(l[9] == solved_slot(9, pole(is_top_layer)));
        assert(l[10] == solved_slot(10, pole(is_top_layer)));
        assert(l[11] == solved_slot(11, pole(is_top_layer)));
    }
    assert(l[5] == solved_slot(5, pole(is_top_layer)));
    assert(l[11] == solved_slot(11, pole(is_top_layer)));
}

} // verus!
