//! What falls out of the lungs.
use crate::single::{
    lemma_between, lemma_clamp_order, lemma_exact, lemma_nearest_close, lemma_nearest_order,
    lemma_nearest_whole, lemma_negated, lemma_over_least, lemma_over_number, lemma_over_order_wide,
    lemma_plus_between, lemma_plus_exact, lemma_plus_number, lemma_plus_order, lemma_rounded_bounds,
    lemma_rounded_sign, lemma_size_order, lemma_times_bound, lemma_times_one, lemma_times_order,
    lemma_value_order, lemma_whole, lemma_zero, Single,
};
use vstd::arithmetic::mul::*;
use vstd::arithmetic::power2::*;
use vstd::prelude::*;

verus! {

/// What a falling pickup does when the cigarette catches it.
#[derive(Clone, Copy, PartialEq, Eq, Structural, Debug)]
pub enum Kind {
    /// A carton of cigarettes: alveoli merge into big fragile sacs.
    Cigarettes,
    /// A pneumothorax: an entire lobe collapses at once.
    Pneumothorax,
    /// An asbestos fibre: the ball pierces instead of bouncing.
    Asbestos,
    /// A radiologist: the lung is imaged, and the ball's path shown.
    Radiologist,
}

/// Every kind, in the order in which a roll goes through them.
pub const KINDS: [Kind; 4] = [
    Kind::Cigarettes,
    Kind::Pneumothorax,
    Kind::Asbestos,
    Kind::Radiologist,
];

impl Kind {
    /// The number by which the renderer knows the sprite. Kept away from those
    /// of tissue, paddle and ball.
    pub open spec fn sprite_spec(self) -> u32 {
        match self {
            Kind::Cigarettes => 10,
            Kind::Pneumothorax => 11,
            Kind::Asbestos => 12,
            Kind::Radiologist => 13,
        }
    }

    /// The number by which the renderer knows the sprite.
    pub fn sprite(self) -> (n: u32)
        ensures
            n == self.sprite_spec(),
    {
        match self {
            Kind::Cigarettes => 10,
            Kind::Pneumothorax => 11,
            Kind::Asbestos => 12,
            Kind::Radiologist => 13,
        }
    }

    /// Player-facing name.
    pub open spec fn name_spec(self) -> Seq<char> {
        match self {
            Kind::Cigarettes => "cigarettes"@,
            Kind::Pneumothorax => "pneumothorax"@,
            Kind::Asbestos => "asbestos"@,
            Kind::Radiologist => "radiologist"@,
        }
    }

    /// Player-facing name, shown as a label on the falling pickup.
    pub fn name(self) -> (s: &'static str)
        ensures
            s@ == self.name_spec(),
    {
        match self {
            Kind::Cigarettes => "cigarettes",
            Kind::Pneumothorax => "pneumothorax",
            Kind::Asbestos => "asbestos",
            Kind::Radiologist => "radiologist",
        }
    }

    /// What catching it does, in one line.
    pub open spec fn blurb_spec(self) -> Seq<char> {
        match self {
            Kind::Cigarettes => "alveoli merge into fragile sacs"@,
            Kind::Pneumothorax => "collapses a whole lung"@,
            Kind::Asbestos => "the ball cuts straight through"@,
            Kind::Radiologist => "reveals the ball's path"@,
        }
    }

    /// What catching it does, in one line.
    pub fn blurb(self) -> (s: &'static str)
        ensures
            s@ == self.blurb_spec(),
    {
        match self {
            Kind::Cigarettes => "alveoli merge into fragile sacs",
            Kind::Pneumothorax => "collapses a whole lung",
            Kind::Asbestos => "the ball cuts straight through",
            Kind::Radiologist => "reveals the ball's path",
        }
    }

    /// Width and height of the sprite.
    pub open spec fn size_spec(self) -> (u32, u32) {
        match self {
            Kind::Cigarettes => (40, 30),
            Kind::Pneumothorax => (34, 34),
            Kind::Asbestos => (40, 24),
            Kind::Radiologist => (34, 34),
        }
    }

    /// Width and height of the sprite.
    pub fn size(self) -> (r: (u32, u32))
        ensures
            r == self.size_spec(),
    {
        match self {
            Kind::Cigarettes => (40, 30),
            Kind::Pneumothorax => (34, 34),
            Kind::Asbestos => (40, 24),
            Kind::Radiologist => (34, 34),
        }
    }

    /// Pixels that it falls in a second.
    pub open spec fn fall_speed_spec(self) -> u32 {
        match self {
            Kind::Cigarettes => 120,
            Kind::Pneumothorax => 150,
            Kind::Asbestos => 190,
            Kind::Radiologist => 135,
        }
    }

    /// Pixels that it falls in a second.
    pub fn fall_speed(self) -> (n: u32)
        ensures
            n == self.fall_speed_spec(),
    {
        match self {
            Kind::Cigarettes => 120,
            Kind::Pneumothorax => 150,
            Kind::Asbestos => 190,
            Kind::Radiologist => 135,
        }
    }

    /// How far a scatter level (0 for an intact lung, 1 where every cell left
    /// is exposed) is into the back half of a game: 0 up to 0.55, and from
    /// there on a share of the way to 0.95, where it is 1.
    pub open spec fn late_spec(scatter: Single) -> Single {
        scatter.minus_spec(Single::ratio_spec(55, 100)).over_spec(
            Single::ratio_spec(40, 100),
        ).clamp_spec(Single::zero_spec(), Single::whole_spec(1))
    }

    /// How far a scatter level is into the back half of a game.
    fn late(scatter: Single) -> (r: Single)
        ensures
            r == Kind::late_spec(scatter),
    {
        scatter.minus(Single::ratio(55, 100)).over(Single::ratio(40, 100)).clamp(
            Single::zero(),
            Single::whole(1),
        )
    }

    /// The spawn weights between which a kind moves, from the opening to the
    /// endgame.
    pub open spec fn weights_spec(self) -> (u32, u32) {
        match self {
            Kind::Cigarettes => (65, 10),
            Kind::Pneumothorax => (0, 8),
            Kind::Asbestos => (35, 15),
            Kind::Radiologist => (0, 40),
        }
    }

    /// Spawn weight at a scatter level.
    ///
    /// Early on the drops are the two that break tissue up. As the lung
    /// fragments, the tools that help to finish take over: the radiologist to
    /// find the survivors, and rarely a pneumothorax to clear a whole lobe. The
    /// weights are ramped, so that the mix drifts instead of flipping.
    pub open spec fn weight_spec(self, scatter: Single) -> u32 {
        let a = Single::whole_spec(self.weights_spec().0 as nat);
        let b = Single::whole_spec(self.weights_spec().1 as nat);
        a.plus_spec(b.minus_spec(a).times_spec(Kind::late_spec(scatter))).nearest_u32_spec()
    }

    /// Spawn weight at a scatter level.
    pub fn weight(self, scatter: Single) -> (w: u32)
        ensures
            w == self.weight_spec(scatter),
            w <= 65,
    {
        proof {
            self.weight_stays_in_its_range(scatter);
        }
        let (from, to): (u32, u32) = match self {
            Kind::Cigarettes => (65, 10),
            Kind::Pneumothorax => (0, 8),
            Kind::Asbestos => (35, 15),
            Kind::Radiologist => (0, 40),
        };
        let a: Single = Single::whole(from);
        let b: Single = Single::whole(to);
        a.plus(b.minus(a).times(Kind::late(scatter))).nearest_u32()
    }

    /// What a weight is before it is rounded.
    spec fn ramp(self, late: Single) -> Single {
        let a = Single::whole_spec(self.weights_spec().0 as nat);
        let b = Single::whole_spec(self.weights_spec().1 as nat);
        a.plus_spec(b.minus_spec(a).times_spec(late))
    }

    /// The difference between the ends of a ramp is a number.
    proof fn lemma_rise(self)
        ensures
            ({
                let (f, t) = self.weights_spec();
                let a = Single::whole_spec(f as nat);
                let b = Single::whole_spec(t as nat);
                let rise = b.minus_spec(a);
                &&& a.finite() && a.value() == f * pow2(149)
                &&& b.finite() && b.value() == t * pow2(149)
                &&& rise.finite()
                &&& rise.value() == (t - f) * pow2(149)
                &&& rise.neg() == (t < f)
            }),
    {
        let (f, t) = self.weights_spec();
        let a = Single::whole_spec(f as nat);
        let b = Single::whole_spec(t as nat);
        let p = pow2(149) as int;
        lemma_whole(f as nat);
        lemma_whole(t as nat);
        lemma_negated(a);
        lemma_pow2_pos(149);
        lemma_mul_basics(p);
        assert((t - f) * p == t * p - f * p) by (nonlinear_arith);
        assert((f - t) * p == f * p - t * p) by (nonlinear_arith);
        if t < f {
            lemma_whole((f - t) as nat);
            lemma_negated(Single::whole_spec((f - t) as nat));
            lemma_plus_exact(
                b,
                a.negated_spec(),
                Single::whole_spec((f - t) as nat).negated_spec(),
            );
            assert((f - t) * p > 0) by (nonlinear_arith)
                requires
                    f > t,
                    p > 0,
            ;
        } else {
            lemma_whole((t - f) as nat);
            lemma_plus_exact(b, a.negated_spec(), Single::whole_spec((t - f) as nat));
            assert((t - f) * p > 0) by (nonlinear_arith)
                requires
                    t > f,
                    p > 0,
            ;
        }
    }

    /// A ramp lies between its ends, and runs from the one to the other.
    proof fn lemma_ramp(self, late: Single)
        requires
            late.finite(),
            late.value() >= 0,
            late.size() <= pow2(149),
        ensures
            ({
                let (f, t) = self.weights_spec();
                let lo = if f <= t {
                    f
                } else {
                    t
                };
                let hi = if f <= t {
                    t
                } else {
                    f
                };
                &&& self.ramp(late).finite()
                &&& lo * pow2(149) <= self.ramp(late).value() <= hi * pow2(149)
                &&& late.size() == 0 ==> self.ramp(late).value() == f * pow2(149)
                &&& late.size() == pow2(149) ==> self.ramp(late).value() == t * pow2(149)
            }),
    {
        let (f, t) = self.weights_spec();
        let a = Single::whole_spec(f as nat);
        let b = Single::whole_spec(t as nat);
        let rise = b.minus_spec(a);
        let p = pow2(149);
        let step = rise.times_spec(late);
        self.lemma_rise();
        assert((t - f) * p == t * p - f * p) by (nonlinear_arith);
        assert(rise.size() * late.size() <= rise.size() * p) by (nonlinear_arith)
            requires
                0 <= late.size() <= p,
                0 <= rise.size(),
        ;
        lemma_times_bound(rise, late, rise);
        lemma_times_order(rise, late, rise, late);
        lemma_pow2_pos(149);
        if late.size() == 0 {
            let z = Single::zero_spec();
            lemma_zero(z);
            lemma_mul_basics(rise.size() as int);
            lemma_mul_basics(p as int);
            lemma_times_bound(rise, late, z);
            lemma_plus_exact(a, step, a);
        }
        lemma_plus_between(
            a,
            step,
            if f <= t {
                a
            } else {
                b
            },
            if f <= t {
                b
            } else {
                a
            },
        );
        if late.size() == p {
            lemma_times_one(rise, late);
            lemma_plus_exact(a, step, b);
        }
    }

    /// How far a scatter level is into the back half lies between none and all,
    /// where the level is a number.
    proof fn lemma_late(scatter: Single)
        ensures
            Kind::late_spec(scatter).nan() || {
                &&& Kind::late_spec(scatter).finite()
                &&& Kind::late_spec(scatter).value() >= 0
                &&& Kind::late_spec(scatter).size() <= pow2(149)
            },
    {
        let one = Single::whole_spec(1);
        let zero = Single::zero_spec();
        let l = Kind::late_spec(scatter);
        lemma_whole(1);
        lemma_mul_basics(pow2(149) as int);
        lemma_zero(zero);
        lemma_pow2_pos(149);
        lemma_value_order(zero, one);
        if !l.nan() {
            assert(zero.key() <= l.key() <= one.key());
            assert(l.finite());
            lemma_value_order(zero, l);
            lemma_value_order(l, one);
        }
    }

    /// A weight stays between those of the opening and of the endgame. Where
    /// the scatter level is no number it is zero.
    pub proof fn weight_stays_in_its_range(self, scatter: Single)
        ensures
            self.weight_spec(scatter) <= 65,
            !Kind::late_spec(scatter).nan() ==> ({
                let (f, t) = self.weights_spec();
                let w = self.weight_spec(scatter);
                if f <= t {
                    f <= w <= t
                } else {
                    t <= w <= f
                }
            }),
    {
        let late = Kind::late_spec(scatter);
        let (f, t) = self.weights_spec();
        let a = Single::whole_spec(f as nat);
        let b = Single::whole_spec(t as nat);
        self.lemma_rise();
        Kind::lemma_late(scatter);
        if late.nan() {
            assert(self.weight_spec(scatter) == 0) by {
                reveal(Single::times_spec);
                reveal(Single::plus_spec);
                reveal(Single::nearest_u32_spec);
            }
        } else {
            let r = self.ramp(late);
            self.lemma_ramp(late);
            lemma_nearest_whole(f as nat, a);
            lemma_nearest_whole(t as nat, b);
            lemma_nearest_order(
                if f <= t {
                    a
                } else {
                    b
                },
                r,
            );
            lemma_nearest_order(
                r,
                if f <= t {
                    b
                } else {
                    a
                },
            );
        }
    }

    /// Something can always drop: the kinds that break tissue never lose all
    /// their weight.
    pub proof fn something_always_drops(scatter: Single)
        requires
            scatter.finite(),
        ensures
            Kind::Cigarettes.weight_spec(scatter) >= 10,
            Kind::Asbestos.weight_spec(scatter) >= 15,
    {
        Kind::lemma_bounds();
        let start = Single::ratio_spec(55, 100);
        let width = Single::ratio_spec(40, 100);
        lemma_negated(start);
        lemma_plus_number(scatter, start.negated_spec());
        lemma_over_number(scatter.minus_spec(start), width);
        Kind::Cigarettes.weight_stays_in_its_range(scatter);
        Kind::Asbestos.weight_stays_in_its_range(scatter);
    }

    /// The bounds of the back half are numbers over zero, and less than they
    /// would be in sixteenths.
    proof fn lemma_bounds()
        ensures
            ({
                let start = Single::ratio_spec(55, 100);
                let width = Single::ratio_spec(40, 100);
                &&& start.finite() && 0 < start.value() && 16 * start.value() <= 9 * pow2(149)
                &&& width.finite() && 0 < width.value() && 16 * width.value() <= 7 * pow2(149)
            }),
    {
        let p = pow2(149);
        assert(p == 16 * pow2(145) && pow2(145) > 0) by {
            lemma_pow2_adds(4, 145);
            lemma2_to64();
            lemma_pow2_pos(145);
        }
        lemma_exact(9, 145);
        lemma_exact(7, 145);
        lemma_exact(1, 145);
        lemma_mul_basics(pow2(145) as int);
        lemma_rounded_bounds(55 * p, 100, Single::rounded(false, 9 * pow2(145), 1));
        lemma_rounded_bounds(40 * p, 100, Single::rounded(false, 7 * pow2(145), 1));
        lemma_rounded_bounds(55 * p, 100, Single::rounded(false, 1 * pow2(145), 1));
        lemma_rounded_bounds(40 * p, 100, Single::rounded(false, 1 * pow2(145), 1));
    }

    /// The opening mix: up to a scatter level of 0.55 only cigarettes and
    /// asbestos drop, 65 to 35.
    pub proof fn the_opening_drops_only_what_breaks_tissue(scatter: Single)
        requires
            scatter.finite(),
            scatter.le_spec(Single::ratio_spec(55, 100)),
        ensures
            Kind::Cigarettes.weight_spec(scatter) == 65,
            Kind::Asbestos.weight_spec(scatter) == 35,
            Kind::Radiologist.weight_spec(scatter) == 0,
            Kind::Pneumothorax.weight_spec(scatter) == 0,
    {
        let zero = Single::zero_spec();
        let start = Single::ratio_spec(55, 100);
        let width = Single::ratio_spec(40, 100);
        Kind::lemma_bounds();
        lemma_zero(zero);
        lemma_value_order(scatter, start);
        lemma_negated(start);
        let d = scatter.minus_spec(start);
        lemma_plus_order(scatter, start.negated_spec(), zero, zero);
        lemma_plus_exact(zero, zero, zero);
        lemma_zero(zero.plus_spec(zero));
        assert(d.le_spec(zero));
        lemma_over_order_wide(d, zero, width);
        let late = Kind::late_spec(scatter);
        assert(zero.over_spec(width) == zero) by {
            reveal(Single::over_spec);
            lemma_zero(width);
        }
        assert(late.bits == 0 || late.bits == 0x8000_0000) by {
            lemma_whole(1);
        }
        lemma_zero(late);
        Kind::lemma_end(Kind::Cigarettes, late, 65);
        Kind::lemma_end(Kind::Asbestos, late, 35);
        Kind::lemma_end(Kind::Radiologist, late, 0);
        Kind::lemma_end(Kind::Pneumothorax, late, 0);
    }

    /// The mix of the endgame: once every cell left is exposed, the radiologist
    /// leads, and a pneumothorax stays rare.
    pub proof fn the_endgame_drops_what_helps_to_finish(scatter: Single)
        requires
            scatter.finite(),
            Single::ratio_spec(95, 100).le_spec(scatter),
        ensures
            Kind::Cigarettes.weight_spec(scatter) == 10,
            Kind::Asbestos.weight_spec(scatter) == 15,
            Kind::Radiologist.weight_spec(scatter) == 40,
            Kind::Pneumothorax.weight_spec(scatter) == 8,
    {
        let late = Kind::late_spec(scatter);
        Kind::lemma_almost();
        Kind::lemma_late_order(Single::ratio_spec(95, 100), scatter);
        Kind::lemma_late(scatter);
        Kind::lemma_near_end(Kind::Cigarettes, late);
        Kind::lemma_near_end(Kind::Asbestos, late);
        Kind::lemma_near_end(Kind::Radiologist, late);
        Kind::lemma_near_end(Kind::Pneumothorax, late);
    }

    /// At 0.95 the back half is over, but for one part in a thousand at most,
    /// that rounding leaves.
    proof fn lemma_almost()
        ensures
            Single::ratio_spec(95, 100).finite(),
            ({
                let late = Kind::late_spec(Single::ratio_spec(95, 100));
                &&& late.finite()
                &&& 4092 * pow2(137) <= late.value() <= pow2(149)
            }),
    {
        let p = pow2(149);
        let q = pow2(137);
        let end = Single::ratio_spec(95, 100);
        let start = Single::ratio_spec(55, 100);
        let width = Single::ratio_spec(40, 100);
        let one = Single::whole_spec(1);
        let zero = Single::zero_spec();
        lemma2_to64();
        lemma_pow2_adds(12, 137);
        lemma_pow2_pos(137);
        lemma_exact(3891, 137);
        lemma_exact(3892, 137);
        lemma_exact(2252, 137);
        lemma_exact(2253, 137);
        lemma_exact(1638, 137);
        lemma_exact(1639, 137);
        lemma_exact(1640, 137);
        lemma_exact(4092, 137);
        lemma_whole(1);
        lemma_mul_basics(p as int);
        lemma_zero(zero);
        lemma_rounded_bounds(95 * p, 100, Single::rounded(false, 3891 * q, 1));
        lemma_rounded_bounds(95 * p, 100, Single::rounded(false, 3892 * q, 1));
        lemma_rounded_bounds(55 * p, 100, Single::rounded(false, 2252 * q, 1));
        lemma_rounded_bounds(55 * p, 100, Single::rounded(false, 2253 * q, 1));
        lemma_rounded_bounds(40 * p, 100, Single::rounded(false, 1638 * q, 1));
        lemma_rounded_bounds(40 * p, 100, Single::rounded(false, 1639 * q, 1));
        lemma_negated(start);
        let d = end.minus_spec(start);
        lemma_plus_between(
            end,
            start.negated_spec(),
            Single::rounded(false, 1638 * q, 1),
            Single::rounded(false, 1640 * q, 1),
        );
        let s = Single::rounded(false, 4092 * q, 1);
        assert(d.size() * p >= s.size() * width.size()) by (nonlinear_arith)
            requires
                d.size() >= 1638 * q,
                s.size() == 4092 * q,
                width.size() <= 1639 * q,
                p == 4096 * q,
        ;
        lemma_zero(d);
        lemma_over_least(d, width, s);
        let late = Kind::late_spec(end);
        lemma_value_order(zero, s);
        lemma_value_order(s, one);
        lemma_value_order(zero, one);
        assert(s.le_spec(late) && late.le_spec(one));
        lemma_between(s, late, one);
    }

    /// How far into the back half keeps the order of levels.
    proof fn lemma_late_order(less: Single, more: Single)
        requires
            less.finite(),
            more.finite(),
            less.le_spec(more),
        ensures
            Kind::late_spec(less).le_spec(Kind::late_spec(more)),
            Kind::late_spec(less).finite(),
            Kind::late_spec(more).finite(),
            0 <= Kind::late_spec(less).value() <= Kind::late_spec(more).value() <= pow2(149),
    {
        let zero = Single::zero_spec();
        let one = Single::whole_spec(1);
        let start = Single::ratio_spec(55, 100);
        let width = Single::ratio_spec(40, 100);
        Kind::lemma_bounds();
        lemma_whole(1);
        lemma_mul_basics(pow2(149) as int);
        lemma_zero(zero);
        lemma_pow2_pos(149);
        lemma_value_order(less, more);
        lemma_value_order(zero, one);
        lemma_negated(start);
        let d = less.minus_spec(start);
        let e = more.minus_spec(start);
        lemma_plus_order(less, start.negated_spec(), more, start.negated_spec());
        lemma_over_order_wide(d, e, width);
        lemma_clamp_order(d.over_spec(width), e.over_spec(width), zero, one);
        let p = Kind::late_spec(less);
        let q = Kind::late_spec(more);
        lemma_clamp_order(e.over_spec(width), e.over_spec(width), zero, one);
        lemma_between(zero, p, one);
        lemma_between(zero, q, one);
        lemma_value_order(p, q);
    }

    /// Close to the end a weight is what it is there.
    proof fn lemma_near_end(kind: Kind, late: Single)
        requires
            late.finite(),
            4092 * pow2(137) <= late.value() <= pow2(149),
        ensures
            kind.ramp(late).nearest_u32_spec() == kind.weights_spec().1,
    {
        let (f, t) = kind.weights_spec();
        let a = Single::whole_spec(f as nat);
        let b = Single::whole_spec(t as nat);
        let rise = b.minus_spec(a);
        let p = pow2(149);
        let q = pow2(137);
        let step = rise.times_spec(late);
        let n: nat = if f <= t {
            (t - f) as nat
        } else {
            (f - t) as nat
        };
        kind.lemma_rise();
        lemma2_to64();
        lemma_pow2_adds(12, 137);
        lemma_pow2_pos(137);
        assert(rise.size() == n * p) by {
            assert((t - f) * p == n * p || (t - f) * p == -(n * p)) by (nonlinear_arith)
                requires
                    n == t - f || n == f - t,
            ;
            lemma_mul_nonnegative(n as int, p as int);
        }
        lemma_exact(n * 4092, 137);
        let least = Single::rounded(false, (n * 4092) * q, 1);
        assert(least.size() * p <= rise.size() * late.size()) by (nonlinear_arith)
            requires
                least.size() == (n * 4092) * q,
                rise.size() == n * p,
                late.size() >= 4092 * q,
                p >= 0,
                n >= 0,
        ;
        assert(rise.size() * late.size() <= rise.size() * p) by (nonlinear_arith)
            requires
                0 <= late.size() <= p,
                0 <= rise.size(),
        ;
        lemma_times_bound(rise, late, rise);
        lemma_times_order(rise, late, rise, late);
        assert(step.size() >= least.size()) by {
            let m = rise.size() * late.size();
            lemma_rounded_bounds(m, p, least);
            lemma_rounded_bounds(m, p, rise);
            lemma_rounded_sign(m, p);
            lemma_negated(Single::rounded(false, m, p));
            reveal(Single::times_spec);
        }
        let lo = Single::rounded(false, ((16 * t - 1) as nat) * pow2(145), 1);
        let hi = Single::rounded(false, ((16 * t + 1) as nat) * pow2(145), 1);
        lemma_exact((16 * t - 1) as nat, 145);
        lemma_exact((16 * t + 1) as nat, 145);
        lemma_pow2_adds(4, 145);
        lemma_pow2_adds(8, 137);
        let v = a.value() + step.value();
        assert(lo.value() <= v <= hi.value()) by (nonlinear_arith)
            requires
                lo.value() == (16 * t - 1) * (256 * q),
                hi.value() == (16 * t + 1) * (256 * q),
                p == 4096 * q,
                n <= 60,
                (f <= t && n == t - f && v >= f * p + (n * 4092) * q && v <= f * p + n * p) || (f
                    > t && n == f - t && v <= f * p - (n * 4092) * q && v >= f * p - n * p),
                q > 0,
        ;
        lemma_plus_between(a, step, lo, hi);
        let r = kind.ramp(late);
        assert(16 * t * p - p <= 16 * r.value() <= 16 * t * p + p) by (nonlinear_arith)
            requires
                (16 * t - 1) * (256 * q) <= r.value() <= (16 * t + 1) * (256 * q),
                p == 4096 * q,
        ;
        lemma_nearest_close(t as nat, r);
    }

    /// A ramp at an end has the weight of that end.
    proof fn lemma_end(kind: Kind, late: Single, n: nat)
        requires
            late.finite(),
            late.value() == 0 && n == kind.weights_spec().0 || late.value() == pow2(149) && n
                == kind.weights_spec().1,
        ensures
            kind.ramp(late).nearest_u32_spec() == n,
    {
        lemma_pow2_pos(149);
        kind.lemma_ramp(late);
        lemma_nearest_whole(n, kind.ramp(late));
    }

    /// The mix drifts: the more broken up the lung, the more a radiologist and
    /// a pneumothorax weigh, and the less cigarettes and asbestos.
    pub proof fn the_mix_drifts_one_way(less: Single, more: Single)
        requires
            less.finite(),
            more.finite(),
            less.le_spec(more),
        ensures
            Kind::Cigarettes.weight_spec(less) >= Kind::Cigarettes.weight_spec(more),
            Kind::Asbestos.weight_spec(less) >= Kind::Asbestos.weight_spec(more),
            Kind::Radiologist.weight_spec(less) <= Kind::Radiologist.weight_spec(more),
            Kind::Pneumothorax.weight_spec(less) <= Kind::Pneumothorax.weight_spec(more),
    {
        let p = Kind::late_spec(less);
        let q = Kind::late_spec(more);
        Kind::lemma_late_order(less, more);
        Kind::lemma_late(more);
        Kind::lemma_drift(Kind::Cigarettes, p, q);
        Kind::lemma_drift(Kind::Asbestos, p, q);
        Kind::lemma_drift(Kind::Radiologist, p, q);
        Kind::lemma_drift(Kind::Pneumothorax, p, q);
    }

    /// A ramp rises or falls all along.
    proof fn lemma_drift(kind: Kind, p: Single, q: Single)
        requires
            p.finite(),
            q.finite(),
            0 <= p.value() <= q.value(),
            q.size() <= pow2(149),
        ensures
            kind.weights_spec().0 <= kind.weights_spec().1 ==> kind.ramp(p).nearest_u32_spec()
                <= kind.ramp(q).nearest_u32_spec(),
            kind.weights_spec().0 >= kind.weights_spec().1 ==> kind.ramp(p).nearest_u32_spec()
                >= kind.ramp(q).nearest_u32_spec(),
    {
        let (f, t) = kind.weights_spec();
        let a = Single::whole_spec(f as nat);
        let b = Single::whole_spec(t as nat);
        let rise = b.minus_spec(a);
        kind.lemma_rise();
        kind.lemma_ramp(p);
        kind.lemma_ramp(q);
        let x = rise.times_spec(p);
        let y = rise.times_spec(q);
        assert(rise.size() * p.size() <= rise.size() * q.size() <= rise.size() * pow2(149))
            by (nonlinear_arith)
            requires
                0 <= p.size() <= q.size() <= pow2(149),
                0 <= rise.size(),
        ;
        lemma_times_bound(rise, p, rise);
        lemma_times_bound(rise, q, rise);
        lemma_times_order(rise, p, rise, q);
        lemma_times_order(rise, q, rise, q);
        lemma_size_order(x, y);
        if p.size() == 0 {
            let z = Single::zero_spec();
            lemma_zero(z);
            lemma_mul_basics(rise.size() as int);
            lemma_mul_basics(pow2(149) as int);
            lemma_times_bound(rise, p, z);
        }
        if q.size() == 0 {
            let z = Single::zero_spec();
            lemma_zero(z);
            lemma_mul_basics(rise.size() as int);
            lemma_mul_basics(pow2(149) as int);
            lemma_times_bound(rise, q, z);
        }
        if f <= t {
            assert(x.value() <= y.value());
            lemma_plus_order(a, x, a, y);
            lemma_value_order(kind.ramp(p), kind.ramp(q));
            lemma_nearest_order(kind.ramp(p), kind.ramp(q));
        } else {
            assert(y.value() <= x.value());
            lemma_plus_order(a, y, a, x);
            lemma_value_order(kind.ramp(q), kind.ramp(p));
            lemma_nearest_order(kind.ramp(q), kind.ramp(p));
        }
    }
}

/// Every kind has a name and a description, short enough to be read on a
/// falling sprite.
pub proof fn every_kind_is_named(kind: Kind)
    ensures
        0 < kind.name_spec().len() <= 16,
        0 < kind.blurb_spec().len() <= 40,
{
    reveal_strlit("cigarettes");
    reveal_strlit("pneumothorax");
    reveal_strlit("asbestos");
    reveal_strlit("radiologist");
    reveal_strlit("alveoli merge into fragile sacs");
    reveal_strlit("collapses a whole lung");
    reveal_strlit("the ball cuts straight through");
    reveal_strlit("reveals the ball's path");
}

/// Kinds can be told apart by name and by sprite, and no sprite is that of
/// tissue, paddle, ball, trail or pleura.
pub proof fn kinds_are_told_apart(a: Kind, b: Kind)
    ensures
        a.sprite_spec() >= 10,
        a != b ==> a.name_spec() != b.name_spec(),
        a != b ==> a.sprite_spec() != b.sprite_spec(),
{
    reveal_strlit("cigarettes");
    reveal_strlit("pneumothorax");
    reveal_strlit("asbestos");
    reveal_strlit("radiologist");
    assert("cigarettes"@.len() == 10);
    assert("pneumothorax"@.len() == 12);
    assert("asbestos"@.len() == 8);
    assert("radiologist"@.len() == 11);
}

} // verus!
