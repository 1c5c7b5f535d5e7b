//! Rules that span the library: what a configuration must satisfy, which shapes the kernels take,
//! how views lie in memory, where draws go, and what saved inverses and derivatives are worth.

use vstd::prelude::*;

use crate::activation;
use crate::algebra;
use crate::config::{ConfigError, Gdn2Config};
use crate::dual::Dual;
use crate::elements;
use crate::equivalence;
use crate::grid::Grid;
use crate::init::Draws;
use crate::kernel::chunk_cube;
use crate::kernel::cubecl_fused::Grouped;
use crate::kernel::fused_chunk;
use crate::kernel::fused_chunk::Block;
use crate::kernel::fused_recurrent_cube;
use crate::l2norm;
use crate::layer;
use crate::module;
use crate::module::{GatedDeltaNet2, Past};
use crate::scalar;
use crate::scalar::{ExactScalar, Scalar};
use crate::streams::Streams;
use crate::wiring;
use crate::wy::{Chunk, Chunking};

verus! {

impl Gdn2Config {
    /// Which configurations are valid: extents and chunk size above 0, a value head of a whole
    /// number of channels, at least as many value heads as key heads and a multiple of them, and an
    /// epsilon above 0. An error names a rule that is broken, with the values that break it.
    pub proof fn verdicts_name_broken_rules(self)
        ensures
            self.verdict() is Ok <==> {
                &&& self.hidden_size >= 1 && self.num_heads >= 1 && self.head_dim >= 1
                &&& self.expand_v.num >= 1 && self.expand_v.den >= 1
                &&& (self.head_dim * self.expand_v.num) % (self.expand_v.den as int) == 0
                &&& self.num_v_heads matches Some(hv) ==> hv >= self.num_heads && hv as int
                    % self.num_heads as int == 0
                &&& self.chunk_size >= 1
                &&& self.norm_eps.num >= 1 && self.norm_eps.den >= 1
            },
            self.verdict() matches Err(e) ==> match e {
                ConfigError::HiddenSize => self.hidden_size == 0,
                ConfigError::NumHeads => self.num_heads == 0,
                ConfigError::HeadDim => self.head_dim == 0,
                ConfigError::ExpandV { expand_v, head_dim } => {
                    &&& expand_v == self.expand_v && head_dim == self.head_dim
                    &&& expand_v.num == 0 || expand_v.den == 0 || (head_dim * expand_v.num) % (
                    expand_v.den as int) != 0
                },
                ConfigError::NumVHeads => self.num_v_heads == Some(0usize),
                ConfigError::FewerVHeads { num_v_heads, num_heads } => {
                    &&& self.num_v_heads == Some(num_v_heads) && num_heads == self.num_heads
                    &&& 0 < num_v_heads < num_heads
                },
                ConfigError::UnevenVHeads { num_v_heads, num_heads } => {
                    &&& self.num_v_heads == Some(num_v_heads) && num_heads == self.num_heads
                    &&& num_v_heads > num_heads && num_v_heads as int % num_heads as int != 0
                },
                ConfigError::ChunkSize => self.chunk_size == 0,
                ConfigError::NormEps { norm_eps } => norm_eps == self.norm_eps && (norm_eps.num == 0
                    || norm_eps.den == 0),
            },
    {
        if self.num_heads >= 1 {
            vstd::arithmetic::div_mod::lemma_mod_self_0(self.num_heads as int);
        }
    }
}

/// Which shapes the chunk kernels take: whole chunks, at least one, of at most 64 tokens, and heads
/// of at most 256 channels. The step kernel takes heads of at most 1024 channels, and 65535 heads.
pub proof fn kernels_take_small_shapes(time: int, kd: int, vd: int, c: int, heads: int)
    requires
        c >= 1,
    ensures
        fused_chunk::launchable(time, kd, vd, c) <==> time != 0 && time % c == 0 && c <= 64 && kd
            <= 256 && vd <= 256,
        fused_recurrent_cube::steppable(heads, kd, vd) <==> kd <= 1024 && vd <= 1024 && heads
            <= 65535,
{
}

/// Where an index of four dimensions lies by these strides.
pub open spec fn offset(st: Seq<usize>, i0: int, i1: int, i2: int, i3: int) -> int {
    i0 * st[0] + i1 * st[1] + i2 * st[2] + i3 * st[3]
}

/// Where an index of four dimensions lies row by row without gaps.
pub open spec fn row_major(sh: Seq<usize>, i0: int, i1: int, i2: int, i3: int) -> int {
    ((i0 * sh[1] + i1) * sh[2] + i2) * sh[3] + i3
}

/// Whether an index of four dimensions is in range.
pub open spec fn within(sh: Seq<usize>, i0: int, i1: int, i2: int, i3: int) -> bool {
    0 <= i0 < sh[0] && 0 <= i1 < sh[1] && 0 <= i2 < sh[2] && 0 <= i3 < sh[3]
}

/// Equal factors give equal products, and so does zero.
proof fn lemma_same_product(i: int, x: int, y: int)
    requires
        i == 0 || x == y,
    ensures
        i * x == i * y,
{
    assert(0 * x == 0 && 0 * y == 0);
}

/// A view of four dimensions is dense exactly where every index lies at its place row by row.
pub proof fn dense_views_lie_row_by_row(sh: Seq<usize>, st: Seq<usize>)
    requires
        sh.len() == 4,
        st.len() == 4,
        sh[0] >= 1 && sh[1] >= 1 && sh[2] >= 1 && sh[3] >= 1,
    ensures
        fused_recurrent_cube::dense(sh, st) <==> forall|i0: int, i1: int, i2: int, i3: int|
            within(sh, i0, i1, i2, i3) ==> #[trigger] offset(st, i0, i1, i2, i3) == row_major(
                sh,
                i0,
                i1,
                i2,
                i3,
            ),
{
    reveal_with_fuel(fused_recurrent_cube::dense_stride, 5);
    let (n1, n2, n3) = (sh[1] as int, sh[2] as int, sh[3] as int);
    assert(fused_recurrent_cube::dense_stride(sh, 3) == 1);
    assert(fused_recurrent_cube::dense_stride(sh, 2) == n3);
    assert(fused_recurrent_cube::dense_stride(sh, 1) == n3 * n2);
    assert(fused_recurrent_cube::dense_stride(sh, 0) == n3 * n2 * n1);
    if fused_recurrent_cube::dense(sh, st) {
        assert forall|i0: int, i1: int, i2: int, i3: int|
            within(sh, i0, i1, i2, i3) implies #[trigger] offset(st, i0, i1, i2, i3) == row_major(
            sh,
            i0,
            i1,
            i2,
            i3,
        ) by {
            let (s0, s1, s2, s3) = (st[0] as int, st[1] as int, st[2] as int, st[3] as int);
            assert(sh[0] > 1 ==> s0 == n3 * n2 * n1);
            assert(sh[1] > 1 ==> s1 == n3 * n2);
            assert(sh[2] > 1 ==> s2 == n3);
            assert(sh[3] > 1 ==> s3 == 1);
            let (a, b, c, d) = (i0, i1, i2, i3);
            if sh[0] == 1 {
                assert(a == 0);
            }
            if sh[1] == 1 {
                assert(b == 0);
            }
            if sh[2] == 1 {
                assert(c == 0);
            }
            if sh[3] == 1 {
                assert(d == 0);
            }
            lemma_same_product(a, s0, n3 * n2 * n1);
            lemma_same_product(b, s1, n3 * n2);
            lemma_same_product(c, s2, n3);
            lemma_same_product(d, s3, 1);
            assert((a * n1 + b) * n2 == a * n1 * n2 + b * n2) by (nonlinear_arith);
            assert((a * n1 * n2 + b * n2 + c) * n3 == a * n1 * n2 * n3 + b * n2 * n3 + c * n3)
                by (nonlinear_arith);
            assert(a * n1 * n2 * n3 == a * (n3 * n2 * n1)) by (nonlinear_arith);
            assert(b * n2 * n3 == b * (n3 * n2)) by (nonlinear_arith);
        }
    }
    if forall|i0: int, i1: int, i2: int, i3: int|
        within(sh, i0, i1, i2, i3) ==> #[trigger] offset(st, i0, i1, i2, i3) == row_major(
            sh,
            i0,
            i1,
            i2,
            i3,
        ) {
        assert(within(sh, 0, 0, 0, 0));
        if sh[0] > 1 {
            assert(within(sh, 1, 0, 0, 0));
            assert(offset(st, 1, 0, 0, 0) == row_major(sh, 1, 0, 0, 0));
            assert(((1 * n1 + 0) * n2 + 0) * n3 + 0 == n3 * n2 * n1) by (nonlinear_arith);
        }
        if sh[1] > 1 {
            assert(within(sh, 0, 1, 0, 0));
            assert(offset(st, 0, 1, 0, 0) == row_major(sh, 0, 1, 0, 0));
            assert(((0 * n1 + 1) * n2 + 0) * n3 + 0 == n3 * n2) by (nonlinear_arith);
        }
        if sh[2] > 1 {
            assert(within(sh, 0, 0, 1, 0));
            assert(offset(st, 0, 0, 1, 0) == row_major(sh, 0, 0, 1, 0));
            assert(((0 * n1 + 0) * n2 + 1) * n3 + 0 == n3) by (nonlinear_arith);
        }
        if sh[3] > 1 {
            assert(within(sh, 0, 0, 0, 1));
            assert(offset(st, 0, 0, 0, 1) == row_major(sh, 0, 0, 0, 1));
            assert(((0 * n1 + 0) * n2 + 0) * n3 + 1 == 1) by (nonlinear_arith);
        }
        assert forall|i: int| 0 <= i < sh.len() && sh[i] > 1 implies #[trigger] st[i]
            == fused_recurrent_cube::dense_stride(sh, i) by {}
    }
}

/// Key head `m` serves value heads `m * n .. m * n + n`, where each serves `n`: those have its
/// queries, keys, decays and erase gates, and values and write gates of their own.
pub proof fn key_heads_serve_in_turn<F: Scalar>(
    x: Grouped<F>,
    scale: F,
    a: int,
    n: int,
    m: int,
    e: int,
    t: int,
    i: int,
    j: int,
)
    requires
        x.wf(),
        n * x.q.d1 == x.v.d1,
        0 <= m < x.q.d1,
        0 <= e < n,
    ensures
        ({
            let h = x.head(scale, a, m * n + e);
            &&& (h.q)(t, i) == x.q.at(a, m, t, i)
            &&& (h.k)(t, i) == x.k.at(a, m, t, i)
            &&& (h.g)(t, i) == x.g.at(a, m, t, i)
            &&& (h.b)(t, i) == x.b.at(a, m, t, i)
            &&& (h.v)(t, j) == x.v.at(a, m * n + e, t, j)
            &&& (h.w)(t, j) == x.w.at(a, m * n + e, t, j)
        }),
{
    let (nq, hv) = (x.q.d1 as int, x.v.d1 as int);
    assert(hv / nq == n) by (nonlinear_arith)
        requires
            n * nq == hv,
            nq >= 1,
    ;
    assert((m * n + e) / n == m) by (nonlinear_arith)
        requires
            0 <= e < n,
            0 <= m,
    ;
}

/// The kernels lose no small decay: where a second decay is too small to change the first, and
/// differences of equal numbers are exact, it is made up for at the third.
pub proof fn kernels_make_up_for_absorbed_decays<F: Scalar>(k: Block<F>, i: int)
    requires
        ({
            let (a, b) = ((k.g)(0, i), (k.g)(1, i));
            let z = F::nil();
            &&& a.minus(z) == a && z.plus(a) == a && a.minus(a) == z
            &&& b.minus(z) == b && a.plus(b) == a && z.minus(b) == b.negated()
        }),
    ensures
        k.e()(1, i) == (k.g)(0, i).raised(),
        k.e()(2, i) == (k.g)(0, i).plus((k.g)(2, i).minus((k.g)(1, i).negated())).raised(),
{
    reveal_with_fuel(scalar::compensated, 4);
}

/// Quotients carry derivatives: a quotient times its divisor is the dividend, derivative included.
pub proof fn dual_quotients_undo_products<F: ExactScalar>(a: Dual<F>, b: Dual<F>)
    requires
        l2norm::divides(b.re),
        l2norm::divides(b.re.times(b.re)),
    ensures
        a.over(b).times(b) == a,
{
    let (x, y, dx, dy) = (a.re, b.re, a.eps, b.eps);
    let r = x.over(y);
    assert(r.times(y) == x);
    let num = dx.times(y).minus(x.times(dy));
    let yy = y.times(y);
    let z = num.over(yy);
    assert(z.times(yy) == num);
    // x dy = (r dy) y, so num = (dx - r dy) y.
    algebra::lemma_times_rotate(r, y, dy);
    algebra::lemma_minus_times(dx, r.times(dy), y);
    let w = dx.minus(r.times(dy));
    assert(num == w.times(y));
    // (z y) y = w y, so z y = w.
    F::times_associates(z, y, y);
    assert(z.times(y).times(y).over(y) == z.times(y));
    assert(w.times(y).over(y) == w);
    // r dy + (dx - r dy) = dx
    F::plus_commutes(r.times(dy), w);
    algebra::lemma_minus_plus(dx, r.times(dy));
}

/// Roots carry derivatives: the square of a root is its operand, derivative included.
pub proof fn dual_roots_square_back<F: ExactScalar>(a: Dual<F>)
    requires
        a.re.rooted().times(a.re.rooted()) == a.re,
        l2norm::divides(a.re.rooted().plus(a.re.rooted())),
    ensures
        a.rooted().times(a.rooted()) == a,
{
    let s = a.re.rooted();
    let e = a.eps.over(s.plus(s));
    assert(e.times(s.plus(s)) == a.eps);
    F::times_distributes(e, s, s);
    F::times_commutes(s, e);
}

/// Logarithms carry derivatives: the exponential of a logarithm is its operand, derivative included.
pub proof fn dual_logarithms_are_undone<F: ExactScalar>(a: Dual<F>)
    requires
        a.re.logged().raised() == a.re,
        l2norm::divides(a.re),
    ensures
        a.logged().raised() == a,
{
    let e = a.eps.over(a.re);
    assert(e.times(a.re) == a.eps);
    F::times_commutes(a.re, e);
}

/// The time step of a channel of a new layer: the exponential of its draw, but at least a ten
/// thousandth.
pub open spec fn drawn_step<F: Scalar>(draw: F) -> F {
    if F::fraction(1, 10_000).below(draw.raised()) {
        draw.raised()
    } else {
        F::fraction(1, 10_000)
    }
}

impl<F: ExactScalar> GatedDeltaNet2<F> {
    /// A new layer starts with the time steps that were drawn: the softplus of each bias is its step,
    /// where logarithm and exponential undo each other.
    pub proof fn new_layers_start_with_their_time_steps(self, c: Gdn2Config, x: Draws<F>, i: int)
        requires
            self.made_of(c, x),
            0 <= i < c.key_dim(),
            ({
                let y = drawn_step(x.dt_log@[i]);
                let z = y.negated().raised().negated().plus(F::unit());
                y.raised().logged() == y && z.logged().raised() == z
            }),
        ensures
            activation::smooth_ramp(self.dt_bias@[i]) == drawn_step(x.dt_log@[i]),
    {
        crate::init::bias_gives_time_step(drawn_step(x.dt_log@[i]));
        assert(self.dt_bias@[i] == crate::init::ramp_inverse(drawn_step(x.dt_log@[i])));
    }

    /// Each draw goes to its own place: layers made of draws that differ in others have the same
    /// queries, keys, values and gates.
    pub proof fn draws_keep_to_their_place(
        self,
        o: Self,
        c: Gdn2Config,
        x: Draws<F>,
        y: Draws<F>,
        row: spec_fn(int) -> Seq<F>,
        past: Past<F>,
        h: int,
        t: int,
        i: int,
        j: int,
    )
        requires
            self.made_of(c, x),
            o.made_of(c, y),
            0 <= h < c.v_heads(),
            0 <= i < c.head_dim,
            0 <= j < c.v_head_dim(),
            0 <= t,
        ensures
            x.q_proj == y.q_proj && x.q_conv_w == y.q_conv_w ==> (self.head(row, past, h).q)(t, i)
                == (o.head(row, past, h).q)(t, i),
            x.k_proj == y.k_proj && x.k_conv_w == y.k_conv_w ==> (self.head(row, past, h).k)(t, i)
                == (o.head(row, past, h).k)(t, i),
            x.v_proj == y.v_proj && x.v_conv_w == y.v_conv_w ==> (self.head(row, past, h).v)(t, j)
                == (o.head(row, past, h).v)(t, j),
            x.b_proj == y.b_proj ==> (self.head(row, past, h).b)(t, i) == (o.head(
                row,
                past,
                h,
            ).b)(t, i),
            x.w_proj == y.w_proj ==> (self.head(row, past, h).w)(t, j) == (o.head(
                row,
                past,
                h,
            ).w)(t, j),
            x.g_proj_0 == y.g_proj_0 && x.g_proj_1 == y.g_proj_1 ==> module::part(
                self.output_gates(row, t),
                h,
                c.v_head_dim(),
            )[j] == module::part(o.output_gates(row, t), h, c.v_head_dim())[j],
            x.f_proj_0 == y.f_proj_0 && x.f_proj_1 == y.f_proj_1 && x.a_log == y.a_log && x.dt_log
                == y.dt_log ==> (self.head(row, past, h).g)(t, i) == (o.head(row, past, h).g)(t, i),
    {
        self.keys_belong_to_heads(o, row, past, h, t, i);
        self.channels_belong_to_heads(o, row, past, h, t, i, j);
        self.config.valid_extents();
        let (hk, n) = (c.head_dim as int, c.num_heads as int);
        let kh = h / (c.v_heads() / n);
        let (hv, rep) = (c.v_heads(), c.repeat());
        assert(0 <= kh < n) by (nonlinear_arith)
            requires
                rep * n == hv,
                rep >= 1,
                0 <= h < hv,
                kh == h / rep,
        ;
        assert(0 <= kh * hk && kh * hk + hk <= n * hk) by (nonlinear_arith)
            requires
                0 <= kh < n,
                0 <= hk,
        ;
        let kc = wiring::key_start(self, h) + i;
        assert(0 <= kc < c.key_dim());
        let vd = c.v_head_dim();
        assert(0 <= h * vd + j < hv * vd) by (nonlinear_arith)
            requires
                0 <= h < hv,
                0 <= j < vd,
        ;
        if x.dt_log == y.dt_log {
            assert(self.dt_bias@[kc] == o.dt_bias@[kc]);
        }
    }
}

/// The outputs of a chunk depend on its inverse in range alone.
proof fn lemma_inverse_in_range<F: Scalar>(ch: Chunk<F>, m: Grid<F>, m2: Grid<F>)
    requires
        forall|r: int, l: int|
            0 <= r < ch.rows && 0 <= l < ch.rows ==> #[trigger] m(r, l) == m2(r, l),
    ensures
        forall|r: int, j: int| 0 <= r < ch.rows ==> #[trigger] ch.out(m, r, j) == ch.out(m2, r, j),
        forall|i: int, j: int| #[trigger] ch.next(m, i, j) == ch.next(m2, i, j),
{
    assert forall|r: int, j: int| 0 <= r < ch.rows implies #[trigger] ch.v_new(m, r, j)
        == ch.v_new(m2, r, j) by {
        let f = |l: int| m(r, l).times(ch.rhs_v(l, j));
        let f2 = |l: int| m2(r, l).times(ch.rhs_v(l, j));
        assert forall|l: int| 0 <= l < ch.rows implies #[trigger] f(l) == f2(l) by {
            assert(m(r, l) == m2(r, l));
        }
        algebra::lemma_total_eq(ch.rows, f, f2);
        let h = |i: int| ch.w_wy(m, r, i).times((ch.s)(i, j));
        let h2 = |i: int| ch.w_wy(m2, r, i).times((ch.s)(i, j));
        assert forall|i: int| 0 <= i < ch.kd implies #[trigger] h(i) == h2(i) by {
            let p = |l: int| m(r, l).times(ch.rhs_k(l, i));
            let p2 = |l: int| m2(r, l).times(ch.rhs_k(l, i));
            assert forall|l: int| 0 <= l < ch.rows implies #[trigger] p(l) == p2(l) by {
                assert(m(r, l) == m2(r, l));
            }
            algebra::lemma_total_eq(ch.rows, p, p2);
        }
        algebra::lemma_total_eq(ch.kd, h, h2);
    }
    assert forall|r: int, j: int| 0 <= r < ch.rows implies #[trigger] ch.out(m, r, j) == ch.out(
        m2,
        r,
        j,
    ) by {
        let f = |l: int| ch.aqk(r, l).times(ch.v_new(m, l, j));
        let f2 = |l: int| ch.aqk(r, l).times(ch.v_new(m2, l, j));
        algebra::lemma_total_eq(ch.rows, f, f2);
    }
    assert forall|i: int, j: int| #[trigger] ch.next(m, i, j) == ch.next(m2, i, j) by {
        let f = |r: int| (ch.k)(r, i).times(ch.decay_last(r, i)).times(ch.v_new(m, r, j));
        let f2 = |r: int| (ch.k)(r, i).times(ch.decay_last(r, i)).times(ch.v_new(m2, r, j));
        algebra::lemma_total_eq(ch.rows, f, f2);
    }
}

/// Saved inverses stand for those that they were saved of: a pass with the inverses of an earlier one
/// over the same inputs gives its outputs and its states.
pub proof fn saved_inverses_change_nothing<F: Scalar>(
    ck: Chunking<F>,
    m: spec_fn(int, int, int) -> F,
    t: int,
    j: int,
    c: int,
)
    requires
        ck.size > 0,
        ck.tile > 0,
        ck.saved is None,
        forall|e: int, r: int, l: int|
            0 <= e < ck.count() && 0 <= r < ck.chunk(e).rows && 0 <= l < ck.chunk(e).rows
                ==> #[trigger] m(e, r, l) == ck.inverse(e)(r, l),
    ensures
        0 <= t < ck.tokens ==> (Chunking { saved: Some(m), ..ck }).output(t, j) == ck.output(t, j),
        0 <= c <= ck.count() ==> (Chunking { saved: Some(m), ..ck }).state(c) == ck.state(c),
{
    let o = Chunking { saved: Some(m), ..ck };
    if 0 <= c <= ck.count() {
        lemma_saved_states(ck, m, c);
    }
    if 0 <= t < ck.tokens {
        let (size, tokens, count) = (ck.size, ck.tokens, ck.count());
        let (e, r) = (t / size, t % size);
        assert(0 <= e < count && 0 <= r < size && t == e * size + r && (e + 1) * size == e * size
            + size) by (nonlinear_arith)
            requires
                size > 0,
                0 <= t < tokens,
                count == (tokens + size - 1) / size,
                e == t / size,
                r == t % size,
        ;
        equivalence::lemma_chunk_bounds(ck, e);
        lemma_saved_states(ck, m, e);
        let ch = ck.chunk(e);
        assert(o.chunk(e) =~= ch);
        assert forall|x: int, l: int| 0 <= x < ch.rows && 0 <= l < ch.rows implies #[trigger] o.inverse(
            e,
        )(x, l) == ck.inverse(e)(x, l) by {
            assert(m(e, x, l) == ck.inverse(e)(x, l));
        }
        lemma_inverse_in_range(ch, o.inverse(e), ck.inverse(e));
        assert(ch.out(o.inverse(e), r, j) == ch.out(ck.inverse(e), r, j));
    }
}

/// The states of a pass with saved inverses.
proof fn lemma_saved_states<F: Scalar>(ck: Chunking<F>, m: spec_fn(int, int, int) -> F, c: int)
    requires
        ck.size > 0,
        ck.saved is None,
        forall|e: int, r: int, l: int|
            0 <= e < ck.count() && 0 <= r < ck.chunk(e).rows && 0 <= l < ck.chunk(e).rows
                ==> #[trigger] m(e, r, l) == ck.inverse(e)(r, l),
        0 <= c <= ck.count(),
    ensures
        (Chunking { saved: Some(m), ..ck }).state(c) == ck.state(c),
    decreases c,
{
    let o = Chunking { saved: Some(m), ..ck };
    if c > 0 {
        lemma_saved_states(ck, m, c - 1);
        let ch = ck.chunk(c - 1);
        assert(o.chunk(c - 1) =~= ch);
        assert forall|x: int, l: int| 0 <= x < ch.rows && 0 <= l < ch.rows implies #[trigger] o.inverse(
            c - 1,
        )(x, l) == ck.inverse(c - 1)(x, l) by {
            assert(m(c - 1, x, l) == ck.inverse(c - 1)(x, l));
        }
        lemma_inverse_in_range(ch, o.inverse(c - 1), ck.inverse(c - 1));
        assert(o.state(c) =~= ck.state(c));
    }
}

/// The phases of the kernels and their bits: decays, scores, inverse, pseudo-keys and gates of the
/// first; written values, outputs and state of the second. All of them together are all bits.
pub proof fn phases_have_their_bits()
    ensures
        chunk_cube::STAGE_DECAYS == 1 && chunk_cube::STAGE_SCORES == 2,
        chunk_cube::STAGE_INVERSE == 4 && chunk_cube::STAGE_PSEUDO == 8,
        chunk_cube::STAGE_GATES == 16 && chunk_cube::STAGES_INTRA == 1 + 2 + 4 + 8 + 16,
        chunk_cube::STAGE_WRITES == 1 && chunk_cube::STAGE_OUTPUTS == 2,
        chunk_cube::STAGE_STATE == 4 && chunk_cube::STAGES_INTER == 1 + 2 + 4,
{
}

/// A single channel of decays or of erase gates stands for as many equal ones as there are key
/// channels: the tokens are the same.
pub proof fn single_channels_stand_for_all<F: Scalar>(
    x: Streams<F>,
    y: Streams<F>,
    scale: F,
    a: int,
    h: int,
    t: int,
)
    requires
        x.wf(),
        y.wf(),
        *x.q == *y.q && *x.k == *y.k && *x.v == *y.v && *x.w == *y.w,
        x.g.d3 == 1 && x.b.d3 == 1,
        y.g.d3 == x.kd() && y.b.d3 == x.kd(),
        0 <= a < x.batch(),
        0 <= h < x.heads(),
        0 <= t < x.tokens(),
        forall|i: int| 0 <= i < x.kd() ==> #[trigger] y.g.at(a, h, t, i) == x.g.at(a, h, t, 0),
        forall|i: int| 0 <= i < x.kd() ==> #[trigger] y.b.at(a, h, t, i) == x.b.at(a, h, t, 0),
    ensures
        x.head(scale, a, h).same_token(t, y.head(scale, a, h), t),
{
    let (h1, h2) = (x.head(scale, a, h), y.head(scale, a, h));
    assert forall|i: int| 0 <= i < x.kd() implies #[trigger] (h1.g)(t, i) == (h2.g)(t, i) && (h1.b)(
        t,
        i,
    ) == (h2.b)(t, i) by {
        assert(y.g.at(a, h, t, i) == x.g.at(a, h, t, 0));
        assert(y.b.at(a, h, t, i) == x.b.at(a, h, t, 0));
    }
}

/// Without a state a layer starts from one of zeros: every head has the outputs and the state that it
/// has from zeros.
pub proof fn no_state_is_one_of_zeros<F: Scalar>(a: int, h: int, i: int, j: int)
    ensures
        layer::starts_at::<F>(None, a)(h)(i, j) == F::nil(),
{
}

/// A head reads the tensors that it is named after, at its own batch, head, token and channel.
pub proof fn heads_read_their_tensors<F: Scalar>(
    x: Streams<F>,
    scale: F,
    a: int,
    h: int,
    t: int,
    i: int,
    j: int,
)
    requires
        x.g.d3 > 1 && x.b.d3 > 1,
    ensures
        (x.head(scale, a, h).q)(t, i) == x.q.at(a, h, t, i),
        (x.head(scale, a, h).k)(t, i) == x.k.at(a, h, t, i),
        (x.head(scale, a, h).v)(t, j) == x.v.at(a, h, t, j),
        (x.head(scale, a, h).g)(t, i) == x.g.at(a, h, t, i),
        (x.head(scale, a, h).b)(t, i) == x.b.at(a, h, t, i),
        (x.head(scale, a, h).w)(t, j) == x.w.at(a, h, t, j),
        x.head(scale, a, h).scale == scale,
{
}

impl<F: ExactScalar> GatedDeltaNet2<F> {
    /// The output gates of a new layer have no bias: those of a token of zeros are 0.
    pub proof fn new_output_gates_have_no_bias(
        self,
        c: Gdn2Config,
        x: Draws<F>,
        row: spec_fn(int) -> Seq<F>,
        t: int,
        j: int,
    )
        requires
            self.made_of(c, x),
            0 <= j < c.value_dim(),
            forall|l: int| 0 <= l < c.hidden_size ==> #[trigger] row(t)[l] == F::nil(),
        ensures
            self.output_gates(row, t)[j] == F::nil(),
    {
        self.output_gates_read_two_projections(row, t, j);
        let (w0, w1) = (self.g_proj_0.weight, self.g_proj_1.weight);
        let f = |k: int|
            scalar::total(w0.rows as int, |l: int| row(t)[l].times(w0.at(l, k))).times(
                w1.at(k, j),
            );
        assert forall|k: int| 0 <= k < w1.rows implies #[trigger] f(k) == F::nil() by {
            let g = |l: int| row(t)[l].times(w0.at(l, k));
            assert forall|l: int| 0 <= l < w0.rows implies #[trigger] g(l) == F::nil() by {
                assert(row(t)[l] == F::nil());
                algebra::lemma_times_nil(w0.at(l, k));
            }
            algebra::lemma_total_nil(w0.rows as int, g);
            algebra::lemma_times_nil(w1.at(k, j));
        }
        algebra::lemma_total_nil(w1.rows as int, f);
        assert((self.g_proj_1.bias->0)@[j] == F::nil());
        F::plus_nil(F::nil());
    }

    /// The output normalization of a new layer weighs nothing: what a head gives, normalized, times
    /// the root and `1 + exp(-gate)`, is what it gave, times its gate.
    pub proof fn new_layers_do_not_weigh(
        self,
        c: Gdn2Config,
        x: Draws<F>,
        row: spec_fn(int) -> Seq<F>,
        o: spec_fn(int) -> Seq<F>,
        t: int,
        h: int,
        j: int,
        mean: F,
        root: F,
    )
        requires
            self.made_of(c, x),
            0 <= h < c.v_heads(),
            0 <= j < c.v_head_dim(),
            o(h).len() == c.v_head_dim(),
            elements::mean_root(
                o(h),
                F::fraction(c.norm_eps.num, c.norm_eps.den),
                mean,
                root,
            ),
            l2norm::divides(
                F::unit().plus(
                    self.output_gates(row, t)[h * c.v_head_dim() + j].negated().raised(),
                ),
            ),
        ensures
            ({
                let k = h * c.v_head_dim() + j;
                let gate = self.output_gates(row, t)[k];
                self.gathered(row, o, t)[k].times(root).times(
                    F::unit().plus(gate.negated().raised()),
                ) == o(h)[j].times(gate)
            }),
    {
        self.heads_are_gated_in_their_channels(row, o, t, h, j, mean, root);
        assert(self.o_norm_weight@[j] == F::unit());
        F::times_unit(o(h)[j]);
    }
}

} // verus!
