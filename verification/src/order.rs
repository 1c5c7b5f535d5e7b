//! Ordered numbers: the ranges of gates and decays, and what follows for the modes of a layer.

use vstd::prelude::*;

use crate::activation;
use crate::algebra;
use crate::config::Gdn2Mode;
use crate::equivalence;
use crate::grid::Grid;
use crate::heads;
use crate::l2norm;
use crate::layer;
use crate::module;
use crate::module::{DecayGate, GatedDeltaNet2, Past, ProjectedInputs};
use crate::pairing;
use crate::rows;
use crate::scalar;
use crate::scalar::{ExactScalar, Scalar};
use crate::short_conv;
use crate::tensor::Tensor3;
use crate::training::{ScanStep, TrainStep};
use crate::word::Word;
use crate::wy::Pass;

verus! {

/// The numbers are ordered by an order that sums and products respect, with an exponential that is
/// at least 0, as the real numbers are. The logarithm of 0 counts as at most 0.
#[verifier::opaque]
pub open spec fn ordered<F: Scalar>() -> bool {
    &&& forall|a: F| #[trigger] a.below(a)
    &&& forall|a: F, b: F, c: F| #[trigger] a.below(b) && #[trigger] b.below(c) ==> a.below(c)
    &&& forall|a: F, b: F, c: F| a.below(b) ==> (#[trigger] a.plus(c)).below(#[trigger] b.plus(c))
    &&& forall|a: F, b: F|
        F::nil().below(a) && F::nil().below(b) ==> F::nil().below(#[trigger] a.times(b))
    &&& forall|a: F| F::nil().below(#[trigger] a.times(a))
    &&& F::nil().below(F::unit())
    &&& forall|a: F, b: F, c: F|
        a.below(b) && F::nil().below(c) && c.over(c) == F::unit() ==> (#[trigger] a.over(c)).below(
            #[trigger] b.over(c),
        )
    &&& forall|a: F, b: F|
        F::nil().below(a) && F::unit().below(b) ==> F::nil().below(#[trigger] a.over(b)) && a.over(
            b,
        ).below(a)
    &&& forall|a: F| F::nil().below(a) ==> F::nil().below(#[trigger] a.rooted())
    &&& forall|a: F| F::nil().below(#[trigger] a.raised())
    &&& forall|a: F| a.below(F::nil()) ==> (#[trigger] a.raised()).below(F::unit())
    &&& forall|a: F| F::unit().below(a) ==> F::nil().below(#[trigger] a.logged())
    &&& forall|a: F|
        F::nil().below(a) && a.below(F::unit()) ==> (#[trigger] a.logged()).below(F::nil())
    &&& forall|num: u64, den: u64|
        den > 0 ==> F::nil().below(#[trigger] F::fraction(num, den)) && (num <= den
            ==> F::fraction(num, den).below(F::unit()))
}

/// Words are ordered, if only by the order in which all are alike.
pub proof fn words_are_ordered()
    ensures
        ordered::<Word>(),
{
    reveal(ordered);
}

/// `a <= b <= c` gives `a <= c`.
proof fn lemma_chain<F: Scalar>(a: F, b: F, c: F)
    requires
        ordered::<F>(),
        a.below(b),
        b.below(c),
    ensures
        a.below(c),
{
    reveal(ordered);
}

/// `a <= b` gives `a + c <= b + c`.
proof fn lemma_shift<F: Scalar>(a: F, b: F, c: F)
    requires
        ordered::<F>(),
        a.below(b),
    ensures
        a.plus(c).below(b.plus(c)),
{
    reveal(ordered);
}

/// `a <= b` and `0 <= c` give `a * c <= b * c`.
proof fn lemma_stretch<F: ExactScalar>(a: F, b: F, c: F)
    requires
        ordered::<F>(),
        a.below(b),
        F::nil().below(c),
    ensures
        a.times(c).below(b.times(c)),
{
    reveal(ordered);
    lemma_shift(a, b, a.negated());
    F::plus_negated(a);
    F::minus_is_plus_negated(b, a);
    let d = b.minus(a).times(c);
    assert(F::nil().below(d));
    algebra::lemma_minus_times(b, a, c);
    lemma_shift(F::nil(), d, a.times(c));
    algebra::lemma_minus_plus(b.times(c), a.times(c));
    algebra::lemma_nil_plus(a.times(c));
}

/// `0 <= a` gives `-a <= 0`.
proof fn lemma_negated_falls<F: ExactScalar>(a: F)
    requires
        ordered::<F>(),
        F::nil().below(a),
    ensures
        a.negated().below(F::nil()),
{
    lemma_shift(F::nil(), a, a.negated());
    F::plus_negated(a);
    algebra::lemma_nil_plus(a.negated());
}

/// `0 <= a` gives `1 <= a + 1` and `1 <= 1 + a`.
proof fn lemma_above_unit<F: ExactScalar>(a: F)
    requires
        ordered::<F>(),
        F::nil().below(a),
    ensures
        F::unit().below(a.plus(F::unit())),
        F::unit().below(F::unit().plus(a)),
{
    lemma_shift(F::nil(), a, F::unit());
    algebra::lemma_nil_plus(F::unit());
    F::plus_commutes(a, F::unit());
}

/// Sums of numbers below zero are below zero.
proof fn lemma_sums_fall<F: ExactScalar>()
    requires
        ordered::<F>(),
    ensures
        equivalence::sums_fall::<F>(),
{
    assert(F::nil().below(F::nil())) by {
        reveal(ordered);
    }
    assert forall|a: F, b: F|
        a.below(F::nil()) && b.below(F::nil()) implies (#[trigger] a.plus(b)).below(F::nil()) by {
        lemma_shift(a, F::nil(), b);
        algebra::lemma_nil_plus(b);
        lemma_chain(a.plus(b), b, F::nil());
    }
}

/// The logistic function lies between 0 and 1.
proof fn lemma_logistic_range<F: ExactScalar>(x: F)
    requires
        ordered::<F>(),
    ensures
        F::nil().below(activation::logistic(x)),
        activation::logistic(x).below(F::unit()),
{
    reveal(ordered);
    lemma_above_unit(x.negated().raised());
}

/// Gates lie between 0 and 1, doubled ones between 0 and 2.
pub proof fn gates_in_range<F: ExactScalar>(double: bool, x: F)
    requires
        ordered::<F>(),
    ensures
        F::nil().below(activation::gate(double, x)),
        activation::gate(double, x).below(
            if double {
                F::fraction(2, 1)
            } else {
                F::unit()
            },
        ),
{
    lemma_logistic_range(x);
    if double {
        let two = F::fraction(2, 1);
        assert(F::nil().below(two)) by {
            reveal(ordered);
        }
        lemma_stretch(F::nil(), activation::logistic(x), two);
        lemma_stretch(activation::logistic(x), F::unit(), two);
        algebra::lemma_times_nil(two);
        algebra::lemma_unit_times(two);
    }
}

/// A sum of numbers above zero is above zero.
proof fn lemma_total_rises<F: ExactScalar>(n: int, f: spec_fn(int) -> F)
    requires
        ordered::<F>(),
        forall|i: int| 0 <= i < n ==> F::nil().below(#[trigger] f(i)),
    ensures
        F::nil().below(scalar::total(n, f)),
    decreases n,
{
    if n <= 0 {
        reveal(ordered);
    } else {
        lemma_total_rises(n - 1, f);
        let t = scalar::total(n - 1, f);
        lemma_shift(F::nil(), t, f(n - 1));
        algebra::lemma_nil_plus(f(n - 1));
        lemma_chain(F::nil(), f(n - 1), t.plus(f(n - 1)));
    }
}

/// A squared length is at least 0.
proof fn lemma_square_rises<F: ExactScalar>(row: Seq<F>)
    requires
        ordered::<F>(),
    ensures
        F::nil().below(l2norm::sum_of_squares(row)),
{
    let f = |i: int| row[i].times(row[i]);
    assert forall|i: int| 0 <= i < row.len() implies F::nil().below(#[trigger] f(i)) by {
        reveal(ordered);
    }
    lemma_total_rises(row.len() as int, f);
}

/// A normalized row is no longer than 1: its squared length lies between 0 and 1, where the root of
/// the squared length and `eps` is one and can be divided by.
pub proof fn normalized_rows_are_short<F: ExactScalar>(row: Seq<F>, eps: F)
    requires
        ordered::<F>(),
        F::nil().below(eps),
        ({
            let square = l2norm::sum_of_squares(row).plus(eps);
            square.rooted().times(square.rooted()) == square && l2norm::divides(square.rooted())
        }),
    ensures
        F::nil().below(
            l2norm::sum_of_squares(rows::image(l2norm::L2Norm { eps }, row)),
        ),
        l2norm::sum_of_squares(rows::image(l2norm::L2Norm { eps }, row)).below(F::unit()),
{
    let s = l2norm::sum_of_squares(row);
    let q = s.plus(eps).rooted();
    let qq = q.times(q);
    let short = rows::image(l2norm::L2Norm { eps }, row);
    let m = l2norm::sum_of_squares(short);
    lemma_square_rises(row);
    lemma_square_rises(short);
    // Scaled back by the root, the row is itself again.
    let f = |i: int| short[i].times(short[i]);
    let g = |i: int| row[i].times(row[i]);
    assert forall|i: int| 0 <= i < row.len() implies #[trigger] g(i) == f(i).times(qq) by {
        assert(short[i] == row[i].over(q));
        assert(row[i].over(q).times(q) == row[i]);
        algebra::lemma_times_swap(short[i], short[i], q, q);
    }
    algebra::lemma_total_times(row.len() as int, f, qq, g);
    assert(m.times(qq) == s);
    // Its squared length is at most the square of the root.
    lemma_shift(F::nil(), eps, s);
    algebra::lemma_nil_plus(s);
    F::plus_commutes(eps, s);
    assert(m.times(qq).below(qq));
    // Divided by the root, twice.
    assert(F::nil().below(q)) by {
        lemma_shift(F::nil(), s, eps);
        algebra::lemma_nil_plus(eps);
        lemma_chain(F::nil(), eps, s.plus(eps));
        reveal(ordered);
    }
    let one = F::unit();
    algebra::lemma_unit_times(q);
    assert(one.times(q).over(q) == one);
    F::times_associates(m, q, q);
    assert(m.times(q).times(q).over(q) == m.times(q));
    assert(qq.over(q) == q);
    assert(m.times(q).below(q)) by {
        reveal(ordered);
    }
    assert(m.times(q).over(q) == m);
    assert(m.below(one)) by {
        reveal(ordered);
    }
}

impl<'a, F: ExactScalar> DecayGate<'a, F> {
    /// Without a lower bound no decay is above 1.
    proof fn lemma_free_falls(self, x: F, c: int)
        requires
            ordered::<F>(),
        ensures
            self.free(x, c).below(F::nil()),
    {
        let a = self.a_log@[c / (self.head_dim as int)].raised();
        let e = x.plus(self.dt_bias@[c]).raised();
        let ramp = activation::smooth_ramp(x.plus(self.dt_bias@[c]));
        assert(F::nil().below(a) && F::nil().below(e)) by {
            reveal(ordered);
        }
        lemma_above_unit(e);
        assert(F::nil().below(ramp) && F::nil().below(a.times(ramp))) by {
            reveal(ordered);
        }
        lemma_negated_falls(a.times(ramp));
        algebra::lemma_negated_times(a, ramp);
    }

    /// The decay whose logarithm `value` is.
    pub open spec fn decay(self, x: F, c: int) -> F {
        match self.floor {
            Some((least, factors)) => {
                let d = self.head_dim as int;
                activation::logistic(factors.at(c / d, c % d)).times(
                    F::unit().minus(least),
                ).times(self.free(x, c).raised()).plus(least)
            },
            None => self.free(x, c).raised(),
        }
    }

    /// Decays lie between 0 and 1, and not below the lower bound where there is one. Their
    /// logarithms are at most 0.
    pub proof fn decays_in_range(self, x: F, c: int)
        requires
            ordered::<F>(),
            self.floor matches Some((least, factors)) ==> F::nil().below(least) && least.below(
                F::unit(),
            ),
        ensures
            F::nil().below(self.decay(x, c)),
            self.decay(x, c).below(F::unit()),
            self.floor matches Some((least, factors)) ==> least.below(self.decay(x, c)),
            self.value(x, c).below(F::nil()),
            match self.floor {
                Some(f) => self.value(x, c) == self.decay(x, c).logged(),
                None => self.value(x, c).raised() == self.decay(x, c),
            },
    {
        self.lemma_free_falls(x, c);
        let e = self.free(x, c).raised();
        assert(F::nil().below(e) && e.below(F::unit())) by {
            reveal(ordered);
        }
        if let Some((least, factors)) = self.floor {
            let d = self.head_dim as int;
            let l = activation::logistic(factors.at(c / d, c % d));
            let room = F::unit().minus(least);
            lemma_logistic_range(factors.at(c / d, c % d));
            // 0 <= room, and room + least = 1.
            lemma_shift(least, F::unit(), least.negated());
            F::plus_negated(least);
            F::minus_is_plus_negated(F::unit(), least);
            algebra::lemma_minus_plus(F::unit(), least);
            // 0 <= l * room * e <= room.
            let p = l.times(room);
            assert(F::nil().below(p) && F::nil().below(p.times(e))) by {
                reveal(ordered);
            }
            lemma_stretch(l, F::unit(), room);
            algebra::lemma_unit_times(room);
            lemma_stretch(e, F::unit(), p);
            F::times_commutes(e, p);
            algebra::lemma_unit_times(p);
            lemma_chain(p.times(e), p, room);
            let y = p.times(e).plus(least);
            lemma_shift(F::nil(), p.times(e), least);
            algebra::lemma_nil_plus(least);
            lemma_shift(p.times(e), room, least);
            lemma_chain(F::nil(), least, y);
            assert(y.logged().below(F::nil())) by {
                reveal(ordered);
            }
        }
    }
}

impl<F: ExactScalar> GatedDeltaNet2<F> {
    /// The lower bound of the decays, where there is one, is at most 1.
    pub open spec fn modest(self) -> bool {
        self.config.min_decay matches Some(m) ==> m.num <= m.den
    }

    /// In a layer no token lets the state grow: the logarithms of its decays are at most 0.
    pub proof fn tokens_decay(
        self,
        x: spec_fn(int) -> Seq<F>,
        past: Past<F>,
        h: int,
        t: int,
        i: int,
    )
        requires
            self.wf(),
            self.modest(),
            ordered::<F>(),
            0 <= h < self.config.v_heads(),
            0 <= i < self.config.head_dim,
        ensures
            (self.head(x, past, h).g)(t, i).below(F::nil()),
    {
        let hk = self.config.head_dim as int;
        let kh = h / self.config.repeat();
        let row = module::through(self.f_proj_1, module::through(self.f_proj_0, x))(t);
        let gate = self.decay_gate();
        if let Some(m) = self.config.min_decay {
            assert(F::nil().below(F::fraction(m.num, m.den)) && F::fraction(m.num, m.den).below(
                F::unit(),
            )) by {
                reveal(ordered);
            }
        }
        self.config.valid_extents();
        let (n, rep, hv) = (self.config.num_heads as int, self.config.repeat(), self.config.v_heads());
        assert(n * rep == hv) by (nonlinear_arith)
            requires
                rep * n == hv,
        ;
        heads::lemma_group(n, rep, h);
        assert(0 <= kh * hk && kh * hk + hk <= n * hk) by (nonlinear_arith)
            requires
                0 <= kh < n,
                0 <= hk,
        ;
        let decays = self.decays(x, t);
        assert(row.len() == n * hk && decays.len() == n * hk);
        assert(module::part(decays, kh, hk)[i] == decays[kh * hk + i]);
        gate.decays_in_range(row[kh * hk + i], kh * hk + i);
    }

    /// The two modes agree on ordered exact numbers, whatever the tokens: outputs and states of the
    /// chunked scan are those of the token-by-token scan.
    pub proof fn modes_agree_always(
        self,
        x: spec_fn(int) -> Seq<F>,
        past: Past<F>,
        s: spec_fn(int) -> Grid<F>,
        tokens: int,
    )
        requires
            self.wf(),
            self.modest(),
            ordered::<F>(),
            0 <= tokens,
        ensures
            forall|t: int|
                0 <= t < tokens ==> #[trigger] self.answer(Gdn2Mode::Chunk, x, past, s, tokens, t)
                    == self.answer(Gdn2Mode::FusedRecurrent, x, past, s, tokens, t),
            forall|h: int|
                0 <= h < self.config.v_heads() ==> pairing::agree(
                    self.config.head_dim as int,
                    self.config.v_head_dim(),
                    #[trigger] self.carried(Gdn2Mode::Chunk, x, past, s, tokens, h),
                    self.carried(Gdn2Mode::FusedRecurrent, x, past, s, tokens, h),
                ),
    {
        lemma_sums_fall::<F>();
        assert forall|h: int| 0 <= h < self.config.v_heads() implies (#[trigger] self.chunking(
            x,
            past,
            s,
            tokens,
            h,
        )).tiles_decay() by {
            let ck = self.chunking(x, past, s, tokens, h);
            assert forall|t: int, i: int|
                0 <= t < ck.tokens && 0 <= i < ck.head.kd implies (#[trigger] (ck.head.g)(
                t,
                i,
            )).below(F::nil()) by {
                self.tokens_decay(x, past, h, t, i);
            }
            equivalence::falling_tiles(ck);
        }
        self.modes_agree(x, past, s, tokens);
    }

    /// In what the layer projects, no decay between two tiles is above 1.
    proof fn lemma_projections_decay(
        self,
        hidden: Tensor3<F>,
        p: ProjectedInputs<F>,
        w: Pass<F>,
        a: int,
        h: int,
    )
        requires
            self.wf(),
            self.modest(),
            ordered::<F>(),
            self.projects(hidden, None, p),
            w.x == p.streams(),
            w.scale == self.factor(),
            w.size > 0,
            0 <= a < hidden.d0,
            0 <= h < self.config.v_heads(),
        ensures
            w.head(a, h).tiles_decay(),
    {
        lemma_sums_fall::<F>();
        let ck = w.head(a, h);
        let x = short_conv::tokens_of(hidden, a);
        assert forall|t: int, i: int|
            0 <= t < ck.tokens && 0 <= i < ck.head.kd implies (#[trigger] (ck.head.g)(t, i)).below(
            F::nil(),
        ) by {
            let other = self.head(x, module::past_at(None, a), h);
            assert(p.streams().head(self.factor(), a, h).same_token(t, other, t));
            assert((ck.head.g)(t, i) == (other.g)(t, i));
            self.tokens_decay(x, module::past_at(None, a), h, t, i);
        }
        equivalence::falling_tiles(ck);
    }

    /// On ordered exact numbers training through the recorded operation gives the outputs of the
    /// recurrence, whatever the tokens.
    pub proof fn fused_training_agrees_always(
        self,
        r: TrainStep<F>,
        hidden: Tensor3<F>,
        kernels: bool,
    )
        requires
            self.wf(),
            self.modest(),
            ordered::<F>(),
            r.is_of(self, hidden, kernels),
        ensures
            forall|a: int, t: int|
                0 <= a < hidden.d0 && 0 <= t < hidden.d1 ==> #[trigger] r.output.row(a, t)
                    == self.answer(
                    Gdn2Mode::FusedRecurrent,
                    short_conv::tokens_of(hidden, a),
                    module::past_at(None, a),
                    layer::starts_at(None, a),
                    hidden.d1 as int,
                    t,
                ),
    {
        assert forall|a: int, h: int|
            0 <= a < hidden.d0 && 0 <= h < self.config.v_heads() implies (#[trigger] r.pass(
            self,
        ).head(a, h)).tiles_decay() by {
            self.lemma_projections_decay(hidden, r.inputs, r.pass(self), a, h);
        }
        self.fused_training_agrees(r, hidden, kernels);
    }

    /// On ordered exact numbers training with the solves by substitution gives the outputs of the
    /// recurrence, whatever the tokens.
    pub proof fn substituted_training_agrees_always(self, r: ScanStep<F>, hidden: Tensor3<F>)
        requires
            self.wf(),
            self.modest(),
            ordered::<F>(),
            r.is_of(self, hidden),
        ensures
            forall|a: int, t: int|
                0 <= a < hidden.d0 && 0 <= t < hidden.d1 ==> #[trigger] r.output.row(a, t)
                    == self.answer(
                    Gdn2Mode::FusedRecurrent,
                    short_conv::tokens_of(hidden, a),
                    module::past_at(None, a),
                    layer::starts_at(None, a),
                    hidden.d1 as int,
                    t,
                ),
    {
        assert forall|a: int, h: int|
            0 <= a < hidden.d0 && 0 <= h < self.config.v_heads() implies (#[trigger] r.pass(
            self,
        ).head(a, h)).tiles_decay() by {
            self.lemma_projections_decay(hidden, r.inputs, r.pass(self), a, h);
        }
        self.substituted_training_agrees(r, hidden);
    }
}

} // verus!
