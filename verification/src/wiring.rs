//! What each parameter of a layer does: which of them a query, key, value, decay or gate depends on,
//! and how.

use vstd::prelude::*;

use crate::activation;
use crate::algebra;
use crate::config::{Gdn2Config, Gdn2Mode};
use crate::elements;
use crate::grid::Grid;
use crate::heads;
use crate::l2norm;
use crate::layer;
use crate::linear::Linear;
use crate::module;
use crate::module::{GatedDeltaNet2, Past};
use crate::rows;
use crate::scalar;
use crate::scalar::{ExactScalar, Scalar};
use crate::short_conv;
use crate::tensor::Matrix;

verus! {

/// Whether the two layers have the same output `c` of every input: the same column of weights and
/// the same bias.
pub open spec fn same_column<F: Scalar>(l1: Linear<F>, l2: Linear<F>, c: int) -> bool {
    &&& l1.weight.rows == l2.weight.rows
    &&& l1.weight.cols == l2.weight.cols
    &&& forall|i: int|
        0 <= i < l1.weight.rows ==> #[trigger] l1.weight.at(i, c) == l2.weight.at(i, c)
    &&& match (l1.bias, l2.bias) {
        (Some(a), Some(b)) => a@[c] == b@[c],
        (None, None) => true,
        _ => false,
    }
}

/// Whether the two have the same four taps in channel `c`.
pub open spec fn same_taps<F: Scalar>(w1: Matrix<F>, w2: Matrix<F>, c: int) -> bool {
    forall|i: int| 0 <= i < 4 ==> #[trigger] w1.at(c, i) == w2.at(c, i)
}

/// Whether the two have the same columns and the same taps in channels `lo .. lo + n`.
pub open spec fn same_channels<F: Scalar>(
    l1: Linear<F>,
    l2: Linear<F>,
    w1: Matrix<F>,
    w2: Matrix<F>,
    lo: int,
    n: int,
) -> bool {
    forall|c: int|
        lo <= c < lo + n ==> #[trigger] same_column(l1, l2, c) && same_taps(w1, w2, c)
}

/// Element `c` of the row times one matrix, then another.
pub open spec fn low_rank<F: Scalar>(w0: Matrix<F>, w1: Matrix<F>, row: Seq<F>, c: int) -> F {
    scalar::total(
        w1.rows as int,
        |j: int|
            scalar::total(w0.rows as int, |l: int| row[l].times(w0.at(l, j))).times(w1.at(j, c)),
    )
}

/// The first channel of the key head that serves value head `h`, where each key head serves as many
/// value heads, in turn.
pub open spec fn key_start<F: Scalar>(g: GatedDeltaNet2<F>, h: int) -> int {
    h / (g.config.v_heads() / (g.config.num_heads as int)) * g.config.head_dim
}

/// Outputs with the same column are the same.
proof fn lemma_same_column<F: Scalar>(l1: Linear<F>, l2: Linear<F>, row: Seq<F>, c: int)
    requires
        same_column(l1, l2, c),
    ensures
        l1.value(row, c) == l2.value(row, c),
{
    let f = |i: int| row[i].times(l1.weight.at(i, c));
    let g = |i: int| row[i].times(l2.weight.at(i, c));
    algebra::lemma_total_eq(l1.weight.rows as int, f, g);
}

/// Two linear layers in turn are two products, and the bias of the second.
proof fn lemma_low_rank<F: Scalar>(l0: Linear<F>, l1: Linear<F>, x: spec_fn(int) -> Seq<F>, t: int, c: int)
    requires
        l0.bias is None,
        l0.weight.cols == l1.weight.rows,
        0 <= c < l1.weight.cols,
    ensures
        ({
            let y = low_rank(l0.weight, l1.weight, x(t), c);
            module::through(l1, module::through(l0, x))(t)[c] == match l1.bias {
                Some(b) => y.plus(b@[c]),
                None => y,
            }
        }),
{
    let mid = module::through(l0, x)(t);
    let f = |j: int| mid[j].times(l1.weight.at(j, c));
    let g = |j: int|
        scalar::total(
            l0.weight.rows as int,
            |l: int| x(t)[l].times(l0.weight.at(l, j)),
        ).times(l1.weight.at(j, c));
    assert forall|j: int| 0 <= j < l1.weight.rows implies #[trigger] f(j) == g(j) by {
        assert(mid[j] == l0.value(x(t), j));
    }
    algebra::lemma_total_eq(l1.weight.rows as int, f, g);
}

impl<F: Scalar> GatedDeltaNet2<F> {
    /// Where the channels of the heads lie.
    proof fn lemma_key_channels(self, h: int)
        requires
            self.wf(),
            0 <= h < self.config.v_heads(),
        ensures
            0 <= key_start(self, h),
            key_start(self, h) + self.config.head_dim <= self.config.key_dim(),
            key_start(self, h) == h / self.config.repeat() * self.config.head_dim,
            0 <= h * self.config.v_head_dim(),
            h * self.config.v_head_dim() + self.config.v_head_dim() <= self.config.value_dim(),
            self.config.v_head_dim() >= 1,
            0 <= h / self.config.repeat() < self.config.num_heads,
    {
        self.config.valid_extents();
        let (n, rep, hv, hk, v) = (
            self.config.num_heads as int,
            self.config.repeat(),
            self.config.v_heads(),
            self.config.head_dim as int,
            self.config.v_head_dim(),
        );
        assert(n * rep == hv) by (nonlinear_arith)
            requires
                rep * n == hv,
        ;
        heads::lemma_group(n, rep, h);
        let kh = h / rep;
        assert(0 <= kh * hk && kh * hk + hk <= n * hk) by (nonlinear_arith)
            requires
                0 <= kh < n,
                0 <= hk,
        ;
        assert(0 <= h * v && h * v + v <= hv * v) by (nonlinear_arith)
            requires
                0 <= h < hv,
                0 <= v,
        ;
    }

    /// A channel of a projection depends on its own column and its own taps.
    proof fn lemma_mixed_column(
        self,
        o: Self,
        l1: Linear<F>,
        l2: Linear<F>,
        w1: Matrix<F>,
        w2: Matrix<F>,
        x: spec_fn(int) -> Seq<F>,
        past: Option<spec_fn(int) -> Seq<F>>,
        t: int,
        c: int,
    )
        requires
            self.config.use_short_conv == o.config.use_short_conv,
            same_column(l1, l2, c),
            same_taps(w1, w2, c),
            0 <= c < l1.weight.cols,
            0 <= t,
        ensures
            self.mixed(l1, w1, x, past, t)[c] == o.mixed(l2, w2, x, past, t)[c],
    {
        let (u1, u2) = (module::through(l1, x), module::through(l2, x));
        assert forall|s: int| (#[trigger] u1(s))[c] == u2(s)[c] by {
            lemma_same_column(l1, l2, x(s), c);
        }
        let f = |i: int| short_conv::history(u1, past, t + i)[c].times(w1.at(c, i));
        let g = |i: int| short_conv::history(u2, past, t + i)[c].times(w2.at(c, i));
        assert forall|i: int| 0 <= i < 4 implies #[trigger] f(i) == g(i) by {
            assert(w1.at(c, i) == w2.at(c, i));
            assert(u1(0)[c] == u2(0)[c]);
            assert(u1(t + i - 3)[c] == u2(t + i - 3)[c]);
        }
        algebra::lemma_total_eq(4, f, g);
        assert(u1(t)[c] == u2(t)[c]);
    }

    /// The queries and keys of a value head depend on the columns and taps of its key head alone: two
    /// layers that have those in common have the same.
    pub proof fn keys_belong_to_heads(
        self,
        o: Self,
        x: spec_fn(int) -> Seq<F>,
        past: Past<F>,
        h: int,
        t: int,
        i: int,
    )
        requires
            self.wf(),
            o.wf(),
            self.config == o.config,
            0 <= h < self.config.v_heads(),
            0 <= i < self.config.head_dim,
            0 <= t,
        ensures
            same_channels(
                self.q_proj,
                o.q_proj,
                self.q_conv_w,
                o.q_conv_w,
                key_start(self, h),
                self.config.head_dim as int,
            ) ==> (self.head(x, past, h).q)(t, i) == (o.head(x, past, h).q)(t, i),
            same_channels(
                self.k_proj,
                o.k_proj,
                self.k_conv_w,
                o.k_conv_w,
                key_start(self, h),
                self.config.head_dim as int,
            ) ==> (self.head(x, past, h).k)(t, i) == (o.head(x, past, h).k)(t, i),
    {
        self.lemma_key_channels(h);
        let (lo, hk) = (key_start(self, h), self.config.head_dim as int);
        let kh = h / self.config.repeat();
        if same_channels(self.q_proj, o.q_proj, self.q_conv_w, o.q_conv_w, lo, hk) {
            let (a, b) = (
                module::part(self.mixed(self.q_proj, self.q_conv_w, x, past.q, t), kh, hk),
                module::part(o.mixed(o.q_proj, o.q_conv_w, x, past.q, t), kh, hk),
            );
            assert forall|j: int| 0 <= j < hk implies #[trigger] a[j] == b[j] by {
                assert(same_column(self.q_proj, o.q_proj, lo + j));
                self.lemma_mixed_column(
                    o,
                    self.q_proj,
                    o.q_proj,
                    self.q_conv_w,
                    o.q_conv_w,
                    x,
                    past.q,
                    t,
                    lo + j,
                );
            }
            assert(a =~= b);
        }
        if same_channels(self.k_proj, o.k_proj, self.k_conv_w, o.k_conv_w, lo, hk) {
            let (a, b) = (
                module::part(self.mixed(self.k_proj, self.k_conv_w, x, past.k, t), kh, hk),
                module::part(o.mixed(o.k_proj, o.k_conv_w, x, past.k, t), kh, hk),
            );
            assert forall|j: int| 0 <= j < hk implies #[trigger] a[j] == b[j] by {
                assert(same_column(self.k_proj, o.k_proj, lo + j));
                self.lemma_mixed_column(
                    o,
                    self.k_proj,
                    o.k_proj,
                    self.k_conv_w,
                    o.k_conv_w,
                    x,
                    past.k,
                    t,
                    lo + j,
                );
            }
            assert(a =~= b);
        }
    }

    /// Each channel of the values, of the gates and of the decays of a value head depends on its own
    /// parameters alone: two layers that have those in common have the same. Value head `h` has the
    /// value channels from `h` times their number on.
    pub proof fn channels_belong_to_heads(
        self,
        o: Self,
        x: spec_fn(int) -> Seq<F>,
        past: Past<F>,
        h: int,
        t: int,
        i: int,
        j: int,
    )
        requires
            self.wf(),
            o.wf(),
            self.config == o.config,
            0 <= h < self.config.v_heads(),
            0 <= i < self.config.head_dim,
            0 <= j < self.config.v_head_dim(),
            0 <= t,
        ensures
            ({
                let c = h * self.config.v_head_dim() + j;
                same_column(self.v_proj, o.v_proj, c) && same_taps(self.v_conv_w, o.v_conv_w, c)
            }) ==> (self.head(x, past, h).v)(t, j) == (o.head(x, past, h).v)(t, j),
            same_column(self.w_proj, o.w_proj, h * self.config.v_head_dim() + j) ==> (self.head(
                x,
                past,
                h,
            ).w)(t, j) == (o.head(x, past, h).w)(t, j),
            same_column(self.b_proj, o.b_proj, key_start(self, h) + i) ==> (self.head(
                x,
                past,
                h,
            ).b)(t, i) == (o.head(x, past, h).b)(t, i),
            ({
                let c = key_start(self, h) + i;
                let kh = h / (self.config.v_heads() / (self.config.num_heads as int));
                &&& self.f_proj_0 == o.f_proj_0
                &&& same_column(self.f_proj_1, o.f_proj_1, c)
                &&& self.dt_bias@[c] == o.dt_bias@[c]
                &&& self.a_log@[kh] == o.a_log@[kh]
                &&& self.decay_factors matches Some(d) ==> d.at(kh, i) == (o.decay_factors->0).at(
                    kh,
                    i,
                )
            }) ==> (self.head(x, past, h).g)(t, i) == (o.head(x, past, h).g)(t, i),
            self.g_proj_0 == o.g_proj_0 && same_column(
                self.g_proj_1,
                o.g_proj_1,
                h * self.config.v_head_dim() + j,
            ) ==> module::part(self.output_gates(x, t), h, self.config.v_head_dim())[j]
                == module::part(o.output_gates(x, t), h, self.config.v_head_dim())[j],
    {
        self.lemma_key_channels(h);
        let (lo, hk, v) = (
            key_start(self, h),
            self.config.head_dim as int,
            self.config.v_head_dim(),
        );
        let (kc, vc) = (lo + i, h * v + j);
        let kh = h / self.config.repeat();
        if same_column(self.v_proj, o.v_proj, vc) && same_taps(self.v_conv_w, o.v_conv_w, vc) {
            self.lemma_mixed_column(
                o,
                self.v_proj,
                o.v_proj,
                self.v_conv_w,
                o.v_conv_w,
                x,
                past.v,
                t,
                vc,
            );
        }
        if same_column(self.w_proj, o.w_proj, vc) {
            lemma_same_column(self.w_proj, o.w_proj, x(t), vc);
        }
        if same_column(self.b_proj, o.b_proj, kc) {
            lemma_same_column(self.b_proj, o.b_proj, x(t), kc);
        }
        if self.f_proj_0 == o.f_proj_0 && same_column(self.f_proj_1, o.f_proj_1, kc) {
            lemma_same_column(self.f_proj_1, o.f_proj_1, module::through(self.f_proj_0, x)(t), kc);
            assert(kc / hk == kh && kc % hk == i) by (nonlinear_arith)
                requires
                    kc == kh * hk + i,
                    0 <= i < hk,
            ;
        }
        if self.g_proj_0 == o.g_proj_0 && same_column(self.g_proj_1, o.g_proj_1, vc) {
            lemma_same_column(self.g_proj_1, o.g_proj_1, module::through(self.g_proj_0, x)(t), vc);
        }
    }
}

/// The squared length of channels `lo .. lo + n` of a row.
pub open spec fn squared_part<F: Scalar>(row: Seq<F>, lo: int, n: int) -> F {
    scalar::total(n, |i: int| row[lo + i].times(row[lo + i]))
}

/// The root of a squared length and a millionth is one, and can be divided by.
pub open spec fn has_root<F: Scalar>(square: F) -> bool {
    let y = square.plus(F::fraction(1, 1_000_000));
    y.rooted().times(y.rooted()) == y && l2norm::divides(y.rooted())
}

/// Normalized channels: their squared length, and their direction.
proof fn lemma_normalized<F: ExactScalar>(row: Seq<F>, lo: int, n: int, eps: F, q: F)
    requires
        0 <= lo,
        0 <= n,
        lo + n <= row.len(),
        q == squared_part(row, lo, n).plus(eps).rooted(),
        q.times(q) == squared_part(row, lo, n).plus(eps),
        l2norm::divides(q),
    ensures
        ({
            let p = row.subrange(lo, lo + n);
            &&& scalar::total(
                n,
                |i: int| l2norm::normalized(p, eps, i).times(l2norm::normalized(p, eps, i)),
            ).times(squared_part(row, lo, n).plus(eps)) == squared_part(row, lo, n)
            &&& forall|i: int|
                0 <= i < n ==> #[trigger] l2norm::normalized(p, eps, i).times(q) == row[lo + i]
        }),
{
    let p = row.subrange(lo, lo + n);
    let s = squared_part(row, lo, n);
    let g = |i: int| row[lo + i].times(row[lo + i]);
    let g2 = |i: int| p[i].times(p[i]);
    algebra::lemma_total_eq(n, g, g2);
    assert(l2norm::sum_of_squares(p) == s);
    assert forall|i: int| 0 <= i < n implies #[trigger] l2norm::normalized(p, eps, i).times(q)
        == row[lo + i] by {
        assert(p[i].over(q).times(q) == p[i]);
    }
    let f = |i: int| l2norm::normalized(p, eps, i).times(l2norm::normalized(p, eps, i));
    let qq = q.times(q);
    assert forall|i: int| 0 <= i < n implies #[trigger] g(i) == f(i).times(qq) by {
        let y = l2norm::normalized(p, eps, i);
        assert(y.times(q) == row[lo + i]);
        algebra::lemma_times_swap(y, y, q, q);
    }
    algebra::lemma_total_times(n, f, qq, g);
}

/// `a q = x` and `b q = y` give `a y = b x`, where one can divide by `q`.
proof fn lemma_proportional<F: ExactScalar>(a: F, b: F, x: F, y: F, q: F)
    requires
        l2norm::divides(q),
        a.times(q) == x,
        b.times(q) == y,
    ensures
        a.times(y) == b.times(x),
{
    F::times_associates(a, b, q);
    F::times_associates(b, a, q);
    F::times_commutes(a, b);
}

/// What comes out of a linear layer without bias.
proof fn lemma_plain_output<F: Scalar>(lin: Linear<F>, x: spec_fn(int) -> Seq<F>, t: int, c: int)
    requires
        lin.bias is None,
        0 <= c < lin.weight.cols,
    ensures
        module::through(lin, x)(t)[c] == scalar::total(
            lin.weight.rows as int,
            |l: int| x(t)[l].times(lin.weight.at(l, c)),
        ),
{
}

impl<F: ExactScalar> GatedDeltaNet2<F> {
    /// Queries and keys are normalized head by head: over the channels of its head, the squared
    /// length of a key times `s` and a millionth is `s`, where `s` is the squared length of those
    /// channels alone before. So it is the same for every number of heads.
    pub proof fn keys_are_normalized_by_head(
        self,
        x: spec_fn(int) -> Seq<F>,
        past: Past<F>,
        h: int,
        t: int,
    )
        requires
            self.wf(),
            0 <= h < self.config.v_heads(),
        ensures
            ({
                let n = self.config.head_dim as int;
                let row = self.mixed(self.q_proj, self.q_conv_w, x, past.q, t);
                let s = squared_part(row, key_start(self, h), n);
                let q = self.head(x, past, h).q;
                has_root(s) ==> scalar::total(n, |i: int| q(t, i).times(q(t, i))).times(
                    s.plus(F::fraction(1, 1_000_000)),
                ) == s
            }),
            ({
                let n = self.config.head_dim as int;
                let row = self.mixed(self.k_proj, self.k_conv_w, x, past.k, t);
                let s = squared_part(row, key_start(self, h), n);
                let k = self.head(x, past, h).k;
                has_root(s) ==> scalar::total(n, |i: int| k(t, i).times(k(t, i))).times(
                    s.plus(F::fraction(1, 1_000_000)),
                ) == s
            }),
    {
        self.lemma_key_channels(h);
        let (lo, n) = (key_start(self, h), self.config.head_dim as int);
        let kh = h / self.config.repeat();
        let eps = F::fraction(1, 1_000_000);
        let rq = self.mixed(self.q_proj, self.q_conv_w, x, past.q, t);
        let rk = self.mixed(self.k_proj, self.k_conv_w, x, past.k, t);
        let (sq, sk) = (squared_part(rq, lo, n), squared_part(rk, lo, n));
        let (q, k) = (self.head(x, past, h).q, self.head(x, past, h).k);
        if has_root(sq) {
            lemma_normalized(rq, lo, n, eps, sq.plus(eps).rooted());
            let p = rq.subrange(lo, lo + n);
            let f = |i: int| q(t, i).times(q(t, i));
            let g = |i: int| l2norm::normalized(p, eps, i).times(l2norm::normalized(p, eps, i));
            algebra::lemma_total_eq(n, f, g);
        }
        if has_root(sk) {
            lemma_normalized(rk, lo, n, eps, sk.plus(eps).rooted());
            let p = rk.subrange(lo, lo + n);
            let f = |i: int| k(t, i).times(k(t, i));
            let g = |i: int| l2norm::normalized(p, eps, i).times(l2norm::normalized(p, eps, i));
            algebra::lemma_total_eq(n, f, g);
        }
    }

    /// Queries and keys point where the channels of their head pointed before: any two channels are
    /// in the same proportion.
    pub proof fn keys_keep_their_direction(
        self,
        x: spec_fn(int) -> Seq<F>,
        past: Past<F>,
        h: int,
        t: int,
        i: int,
        j: int,
    )
        requires
            self.wf(),
            0 <= h < self.config.v_heads(),
            0 <= i < self.config.head_dim,
            0 <= j < self.config.head_dim,
        ensures
            ({
                let lo = key_start(self, h);
                let row = self.mixed(self.q_proj, self.q_conv_w, x, past.q, t);
                let q = self.head(x, past, h).q;
                has_root(squared_part(row, lo, self.config.head_dim as int)) ==> q(t, i).times(
                    row[lo + j],
                ) == q(t, j).times(row[lo + i])
            }),
            ({
                let lo = key_start(self, h);
                let row = self.mixed(self.k_proj, self.k_conv_w, x, past.k, t);
                let k = self.head(x, past, h).k;
                has_root(squared_part(row, lo, self.config.head_dim as int)) ==> k(t, i).times(
                    row[lo + j],
                ) == k(t, j).times(row[lo + i])
            }),
    {
        self.lemma_key_channels(h);
        let (lo, n) = (key_start(self, h), self.config.head_dim as int);
        let eps = F::fraction(1, 1_000_000);
        let rq = self.mixed(self.q_proj, self.q_conv_w, x, past.q, t);
        let rk = self.mixed(self.k_proj, self.k_conv_w, x, past.k, t);
        let (sq, sk) = (squared_part(rq, lo, n), squared_part(rk, lo, n));
        let (q, k) = (self.head(x, past, h).q, self.head(x, past, h).k);
        if has_root(sq) {
            let y = sq.plus(eps).rooted();
            lemma_normalized(rq, lo, n, eps, y);
            let p = rq.subrange(lo, lo + n);
            assert(l2norm::normalized(p, eps, i).times(y) == rq[lo + i]);
            assert(l2norm::normalized(p, eps, j).times(y) == rq[lo + j]);
            lemma_proportional(q(t, i), q(t, j), rq[lo + i], rq[lo + j], y);
        }
        if has_root(sk) {
            let y = sk.plus(eps).rooted();
            lemma_normalized(rk, lo, n, eps, y);
            let p = rk.subrange(lo, lo + n);
            assert(l2norm::normalized(p, eps, i).times(y) == rk[lo + i]);
            assert(l2norm::normalized(p, eps, j).times(y) == rk[lo + j]);
            lemma_proportional(k(t, i), k(t, j), rk[lo + i], rk[lo + j], y);
        }
    }

    /// Erase gates read their column of `b_proj` and write gates their column of `w_proj`: a gate
    /// times `1 + exp(-y)` is 1, where `y` is the token times the column. With negative eigenvalues
    /// allowed an erase gate is twice that; a write gate never is.
    pub proof fn gates_read_their_columns(
        self,
        x: spec_fn(int) -> Seq<F>,
        past: Past<F>,
        h: int,
        t: int,
        i: int,
        j: int,
    )
        requires
            self.wf(),
            0 <= h < self.config.v_heads(),
            0 <= i < self.config.head_dim,
            0 <= j < self.config.v_head_dim(),
            F::fraction(2, 1) == F::unit().plus(F::unit()),
        ensures
            ({
                let c = key_start(self, h) + i;
                let y = scalar::total(
                    self.config.hidden_size as int,
                    |l: int| x(t)[l].times(self.b_proj.weight.at(l, c)),
                );
                let d = F::unit().plus(y.negated().raised());
                self.b_proj.bias is None && l2norm::divides(d) ==> (self.head(x, past, h).b)(
                    t,
                    i,
                ).times(d) == if self.config.allow_neg_eigval {
                    F::unit().plus(F::unit())
                } else {
                    F::unit()
                }
            }),
            ({
                let c = h * self.config.v_head_dim() + j;
                let y = scalar::total(
                    self.config.hidden_size as int,
                    |l: int| x(t)[l].times(self.w_proj.weight.at(l, c)),
                );
                let d = F::unit().plus(y.negated().raised());
                self.w_proj.bias is None && l2norm::divides(d) ==> (self.head(x, past, h).w)(
                    t,
                    j,
                ).times(d) == F::unit()
            }),
    {
        self.lemma_key_channels(h);
        let (kc, vc) = (key_start(self, h) + i, h * self.config.v_head_dim() + j);
        if self.b_proj.bias is None {
            lemma_plain_output(self.b_proj, x, t, kc);
            let y = module::through(self.b_proj, x)(t)[kc];
            let d = F::unit().plus(y.negated().raised());
            if l2norm::divides(d) {
                elements::gates_double(y);
                let g = activation::gate(false, y);
                algebra::lemma_plus_times(g, g, d);
            }
        }
        if self.w_proj.bias is None {
            lemma_plain_output(self.w_proj, x, t, vc);
            let y = module::through(self.w_proj, x)(t)[vc];
            if l2norm::divides(F::unit().plus(y.negated().raised())) {
                elements::gates_double(y);
            }
        }
    }

    /// Without convolution a value is the sigmoid linear unit of the token times its column of
    /// `v_proj`: times `1 + exp(-y)` it is that product `y`.
    pub proof fn values_read_their_columns(
        self,
        x: spec_fn(int) -> Seq<F>,
        past: Past<F>,
        h: int,
        t: int,
        j: int,
    )
        requires
            self.wf(),
            0 <= h < self.config.v_heads(),
            0 <= j < self.config.v_head_dim(),
            !self.config.use_short_conv,
            self.v_proj.bias is None,
        ensures
            ({
                let c = h * self.config.v_head_dim() + j;
                let y = scalar::total(
                    self.config.hidden_size as int,
                    |l: int| x(t)[l].times(self.v_proj.weight.at(l, c)),
                );
                let d = F::unit().plus(y.negated().raised());
                l2norm::divides(d) ==> (self.head(x, past, h).v)(t, j).times(d) == y
            }),
    {
        self.lemma_key_channels(h);
        let vc = h * self.config.v_head_dim() + j;
        lemma_plain_output(self.v_proj, x, t, vc);
        let y = module::through(self.v_proj, x)(t)[vc];
        if l2norm::divides(F::unit().plus(y.negated().raised())) {
            elements::logistic_is_reciprocal(y);
        }
    }

    /// A layer whose taps are 1 for the token itself and 0 for those before it has the queries, keys
    /// and values of the layer without convolution.
    pub proof fn single_taps_are_no_convolution(
        self,
        o: Self,
        x: spec_fn(int) -> Seq<F>,
        past: Past<F>,
        h: int,
        t: int,
    )
        requires
            self.wf(),
            o.wf(),
            self.config.use_short_conv,
            o.config == (Gdn2Config { use_short_conv: false, ..self.config }),
            self.q_proj == o.q_proj,
            self.k_proj == o.k_proj,
            self.v_proj == o.v_proj,
            0 <= h < self.config.v_heads(),
            0 <= t,
            forall|c: int, i: int|
                0 <= c < self.config.key_dim() && 0 <= i < 4 ==> #[trigger] self.q_conv_w.at(c, i)
                    == last_tap::<F>(i),
            forall|c: int, i: int|
                0 <= c < self.config.key_dim() && 0 <= i < 4 ==> #[trigger] self.k_conv_w.at(c, i)
                    == last_tap::<F>(i),
            forall|c: int, i: int|
                0 <= c < self.config.value_dim() && 0 <= i < 4 ==> #[trigger] self.v_conv_w.at(
                    c,
                    i,
                ) == last_tap::<F>(i),
        ensures
            forall|i: int|
                0 <= i < self.config.head_dim ==> #[trigger] (self.head(x, past, h).q)(t, i) == (
                o.head(x, past, h).q)(t, i),
            forall|i: int|
                0 <= i < self.config.head_dim ==> #[trigger] (self.head(x, past, h).k)(t, i) == (
                o.head(x, past, h).k)(t, i),
            forall|j: int|
                0 <= j < self.config.v_head_dim() ==> #[trigger] (self.head(x, past, h).v)(t, j)
                    == (o.head(x, past, h).v)(t, j),
    {
        self.lemma_key_channels(h);
        let hk = self.config.head_dim as int;
        let kh = h / self.config.repeat();
        self.lemma_last_taps(o, self.q_proj, self.q_conv_w, o.q_conv_w, x, past.q, t);
        self.lemma_last_taps(o, self.k_proj, self.k_conv_w, o.k_conv_w, x, past.k, t);
        self.lemma_last_taps(o, self.v_proj, self.v_conv_w, o.v_conv_w, x, past.v, t);
        assert(o.config.repeat() == self.config.repeat());
    }

    /// One projection, with the last tap alone.
    proof fn lemma_last_taps(
        self,
        o: Self,
        lin: Linear<F>,
        w1: Matrix<F>,
        w2: Matrix<F>,
        x: spec_fn(int) -> Seq<F>,
        past: Option<spec_fn(int) -> Seq<F>>,
        t: int,
    )
        requires
            self.config.use_short_conv,
            !o.config.use_short_conv,
            0 <= t,
            forall|c: int, i: int|
                0 <= c < lin.weight.cols && 0 <= i < 4 ==> #[trigger] w1.at(c, i) == last_tap::<F>(
                    i,
                ),
        ensures
            self.mixed(lin, w1, x, past, t) == o.mixed(lin, w2, x, past, t),
    {
        let (a, b) = (self.mixed(lin, w1, x, past, t), o.mixed(lin, w2, x, past, t));
        assert forall|c: int| 0 <= c < a.len() implies #[trigger] a[c] == b[c] by {
            elements::single_taps_shift(module::through(lin, x), past, w1, t, c, 3);
        }
        assert(a =~= b);
    }

    /// A token reads its output gates through `g_proj_0`, then `g_proj_1`: channel `c` is the token
    /// times both matrices, and the bias of the second.
    pub proof fn output_gates_read_two_projections(
        self,
        x: spec_fn(int) -> Seq<F>,
        t: int,
        c: int,
    )
        requires
            self.wf(),
            self.g_proj_0.bias is None,
            self.g_proj_1.bias is Some,
            0 <= c < self.config.value_dim(),
        ensures
            self.output_gates(x, t)[c] == low_rank(
                self.g_proj_0.weight,
                self.g_proj_1.weight,
                x(t),
                c,
            ).plus(self.g_proj_1.bias->0@[c]),
    {
        lemma_low_rank(self.g_proj_0, self.g_proj_1, x, t, c);
    }

    /// The factor of the outputs is the reciprocal root of the channels of a key head: its square
    /// times their number is 1.
    pub proof fn factor_is_reciprocal_root(self)
        requires
            ({
                let n = F::fraction(self.config.head_dim as u64, 1);
                n.rooted().times(n.rooted()) == n && l2norm::divides(n.rooted())
            }),
        ensures
            self.factor().times(self.factor()).times(
                F::fraction(self.config.head_dim as u64, 1),
            ) == F::unit(),
    {
        let q = F::fraction(self.config.head_dim as u64, 1).rooted();
        let f = self.factor();
        assert(F::unit().over(q).times(q) == F::unit());
        algebra::lemma_times_swap(f, f, q, q);
        F::times_unit(F::unit());
    }
}

/// 1 at the last tap, 0 at the others.
pub open spec fn last_tap<F: Scalar>(i: int) -> F {
    if i == 3 {
        F::unit()
    } else {
        F::nil()
    }
}

/// What the decay of channel `c` of the key channels reads of a row: the row times both matrices,
/// and its bias.
pub open spec fn decay_input<F: Scalar>(g: GatedDeltaNet2<F>, row: Seq<F>, c: int) -> F {
    low_rank(g.f_proj_0.weight, g.f_proj_1.weight, row, c).plus(g.dt_bias@[c])
}

impl<F: ExactScalar> GatedDeltaNet2<F> {
    /// The logarithm of a decay without a lower bound.
    proof fn lemma_free_decay(self, x: spec_fn(int) -> Seq<F>, past: Past<F>, h: int, t: int, i: int)
        requires
            self.wf(),
            self.f_proj_0.bias is None,
            self.f_proj_1.bias is None,
            0 <= h < self.config.v_heads(),
            0 <= i < self.config.head_dim,
        ensures
            ({
                let c = key_start(self, h) + i;
                let kh = h / self.config.repeat();
                &&& self.decay_gate().free(
                    module::through(self.f_proj_1, module::through(self.f_proj_0, x))(t)[c],
                    c,
                ) == self.a_log@[kh].raised().negated().times(
                    activation::smooth_ramp(decay_input(self, x(t), c)),
                )
                &&& (self.head(x, past, h).g)(t, i) == self.decay_gate().value(
                    module::through(self.f_proj_1, module::through(self.f_proj_0, x))(t)[c],
                    c,
                )
            }),
    {
        self.lemma_key_channels(h);
        let (hk, kh) = (self.config.head_dim as int, h / self.config.repeat());
        let c = key_start(self, h) + i;
        lemma_low_rank(self.f_proj_0, self.f_proj_1, x, t, c);
        assert(c / hk == kh && c % hk == i) by (nonlinear_arith)
            requires
                c == kh * hk + i,
                0 <= i < hk,
        ;
    }

    /// A head has one rate of decay: channels of a head that read the same decay the same.
    pub proof fn heads_have_one_rate(
        self,
        x: spec_fn(int) -> Seq<F>,
        past: Past<F>,
        h: int,
        t: int,
        i: int,
        j: int,
    )
        requires
            self.wf(),
            self.config.min_decay is None,
            self.f_proj_0.bias is None,
            self.f_proj_1.bias is None,
            0 <= h < self.config.v_heads(),
            0 <= i < self.config.head_dim,
            0 <= j < self.config.head_dim,
            decay_input(self, x(t), key_start(self, h) + i) == decay_input(
                self,
                x(t),
                key_start(self, h) + j,
            ),
        ensures
            (self.head(x, past, h).g)(t, i) == (self.head(x, past, h).g)(t, j),
    {
        self.lemma_free_decay(x, past, h, t, i);
        self.lemma_free_decay(x, past, h, t, j);
    }

    /// The rate of a head is the exponential of its logarithm: where that grows by `delta`, the
    /// logarithms of the decays of the head are multiplied by `exp(delta)`, in all its channels.
    pub proof fn rates_are_exponentials(
        self,
        o: Self,
        x: spec_fn(int) -> Seq<F>,
        past: Past<F>,
        h: int,
        t: int,
        i: int,
        delta: F,
    )
        requires
            self.wf(),
            o.wf(),
            self.config == o.config,
            self.config.min_decay is None,
            self.f_proj_0 == o.f_proj_0 && self.f_proj_0.bias is None,
            self.f_proj_1 == o.f_proj_1 && self.f_proj_1.bias is None,
            self.dt_bias == o.dt_bias,
            0 <= h < self.config.v_heads(),
            0 <= i < self.config.head_dim,
            ({
                let kh = h / (self.config.v_heads() / (self.config.num_heads as int));
                o.a_log@[kh] == self.a_log@[kh].plus(delta)
            }),
        ensures
            (o.head(x, past, h).g)(t, i) == (self.head(x, past, h).g)(t, i).times(delta.raised()),
    {
        self.lemma_free_decay(x, past, h, t, i);
        o.lemma_free_decay(x, past, h, t, i);
        let a = self.a_log@[h / self.config.repeat()];
        let c = key_start(self, h) + i;
        let r = activation::smooth_ramp(decay_input(self, x(t), c));
        let d = delta.raised();
        F::raised_plus(a, delta);
        algebra::lemma_negated_times(a.raised(), d);
        algebra::lemma_times_rotate(a.raised().negated(), d, r);
    }

    /// At rate 1 the reciprocal decay is 1 and the exponential of what the channel reads, where the
    /// logarithm of that can be undone.
    pub proof fn unit_rates_decay(
        self,
        x: spec_fn(int) -> Seq<F>,
        past: Past<F>,
        h: int,
        t: int,
        i: int,
    )
        requires
            self.wf(),
            self.config.min_decay is None,
            self.f_proj_0.bias is None,
            self.f_proj_1.bias is None,
            0 <= h < self.config.v_heads(),
            0 <= i < self.config.head_dim,
            self.a_log@[h / (self.config.v_heads() / (self.config.num_heads as int))] == F::nil(),
            ({
                let y = decay_input(self, x(t), key_start(self, h) + i).raised().plus(F::unit());
                y.logged().raised() == y
            }),
        ensures
            (self.head(x, past, h).g)(t, i).negated().raised() == F::unit().plus(
                decay_input(self, x(t), key_start(self, h) + i).raised(),
            ),
    {
        self.lemma_free_decay(x, past, h, t, i);
        let y = decay_input(self, x(t), key_start(self, h) + i);
        let r = activation::smooth_ramp(y);
        F::raised_nil();
        algebra::lemma_negated_times(F::unit(), r);
        algebra::lemma_unit_times(r);
        algebra::lemma_negated_twice(r);
        elements::softplus_undone(y);
    }

    /// A lower bound lifts the decays: what a decay is above the bound, times `1 + exp(-f)` with its
    /// learned factor `f`, is the decay of the layer without the bound, times what the bound leaves
    /// to 1.
    pub proof fn lower_bounds_lift_decays(
        self,
        o: Self,
        x: spec_fn(int) -> Seq<F>,
        past: Past<F>,
        h: int,
        t: int,
        i: int,
    )
        requires
            self.wf(),
            o.wf(),
            self.config.min_decay is Some,
            o.config == (Gdn2Config { min_decay: None, ..self.config }),
            self.f_proj_0 == o.f_proj_0 && self.f_proj_0.bias is None,
            self.f_proj_1 == o.f_proj_1 && self.f_proj_1.bias is None,
            self.dt_bias == o.dt_bias,
            self.a_log == o.a_log,
            0 <= h < self.config.v_heads(),
            0 <= i < self.config.head_dim,
            ({
                let c = key_start(self, h) + i;
                let row = module::through(self.f_proj_1, module::through(self.f_proj_0, x))(t);
                let y = self.decay_gate().decay(row[c], c);
                y.logged().raised() == y
            }),
            ({
                let kh = h / (self.config.v_heads() / (self.config.num_heads as int));
                l2norm::divides(
                    F::unit().plus((self.decay_factors->0).at(kh, i).negated().raised()),
                )
            }),
        ensures
            ({
                let kh = h / (self.config.v_heads() / (self.config.num_heads as int));
                let m = self.config.min_decay->0;
                let least = F::fraction(m.num, m.den);
                let f = (self.decay_factors->0).at(kh, i);
                (self.head(x, past, h).g)(t, i).raised().minus(least).times(
                    F::unit().plus(f.negated().raised()),
                ) == F::unit().minus(least).times((o.head(x, past, h).g)(t, i).raised())
            }),
    {
        self.lemma_free_decay(x, past, h, t, i);
        o.lemma_free_decay(x, past, h, t, i);
        self.lemma_key_channels(h);
        assert(o.config.repeat() == self.config.repeat());
        let (hk, kh) = (self.config.head_dim as int, h / self.config.repeat());
        let c = key_start(self, h) + i;
        assert(c / hk == kh && c % hk == i) by (nonlinear_arith)
            requires
                c == kh * hk + i,
                0 <= i < hk,
        ;
        let m = self.config.min_decay->0;
        let least = F::fraction(m.num, m.den);
        let f = (self.decay_factors->0).at(kh, i);
        let e = (o.head(x, past, h).g)(t, i).raised();
        let (l, room) = (activation::logistic(f), F::unit().minus(least));
        let d = F::unit().plus(f.negated().raised());
        let y = l.times(room).times(e).plus(least);
        assert((self.head(x, past, h).g)(t, i).raised() == y);
        algebra::lemma_minus_plus(l.times(room).times(e), least);
        elements::logistic_is_reciprocal(f);
        // ((l room) e) d = (room e) (l d)
        F::times_associates(l, room, e);
        algebra::lemma_times_rotate(l, room.times(e), d);
        algebra::lemma_unit_times(room.times(e));
    }

    /// A layer whose output gates are shut gives nothing: with zero weights in `g_proj_0` and no bias
    /// after it, all outputs are zero, in every mode, whatever the heads hold.
    pub proof fn shut_gates_shut_the_layer(
        self,
        x: spec_fn(int) -> Seq<F>,
        o: spec_fn(int) -> Seq<F>,
        t: int,
        c: int,
    )
        requires
            self.wf(),
            self.g_proj_0.bias is None,
            self.g_proj_1.bias matches Some(b) ==> forall|k: int|
                0 <= k < self.config.value_dim() ==> #[trigger] b@[k] == F::nil(),
            self.o_proj.bias is None,
            forall|l: int, k: int|
                0 <= l < self.g_proj_0.weight.rows && 0 <= k < self.g_proj_0.weight.cols
                    ==> #[trigger] self.g_proj_0.weight.at(l, k) == F::nil(),
            forall|h: int|
                0 <= h < self.config.v_heads() ==> (#[trigger] o(h)).len()
                    == self.config.v_head_dim(),
            0 <= c < self.config.hidden_size,
        ensures
            rows::image(self.o_proj, self.gathered(x, o, t))[c] == F::nil(),
    {
        self.config.valid_extents();
        let (hv, v, n) = (
            self.config.v_heads(),
            self.config.v_head_dim(),
            self.config.value_dim(),
        );
        let r = self.gathered(x, o, t);
        let gates = self.output_gates(x, t);
        assert forall|k: int| 0 <= k < n implies #[trigger] gates[k] == F::nil() by {
            lemma_low_rank(self.g_proj_0, self.g_proj_1, x, t, k);
            let f = |j: int|
                scalar::total(
                    self.g_proj_0.weight.rows as int,
                    |l: int| x(t)[l].times(self.g_proj_0.weight.at(l, j)),
                ).times(self.g_proj_1.weight.at(j, k));
            assert forall|j: int| 0 <= j < self.g_proj_1.weight.rows implies #[trigger] f(j)
                == F::nil() by {
                let g = |l: int| x(t)[l].times(self.g_proj_0.weight.at(l, j));
                assert forall|l: int| 0 <= l < self.g_proj_0.weight.rows implies #[trigger] g(l)
                    == F::nil() by {
                    assert(self.g_proj_0.weight.at(l, j) == F::nil());
                    F::times_commutes(x(t)[l], F::nil());
                    algebra::lemma_times_nil(x(t)[l]);
                }
                algebra::lemma_total_nil(self.g_proj_0.weight.rows as int, g);
                algebra::lemma_times_nil(self.g_proj_1.weight.at(j, k));
            }
            algebra::lemma_total_nil(self.g_proj_1.weight.rows as int, f);
            F::plus_nil(F::nil());
        }
        elements::swish_of_nothing::<F>();
        assert forall|k: int| 0 <= k < n implies #[trigger] r[k] == F::nil() by {
            let (h, d) = (k / v, k % v);
            assert(0 <= h < hv && 0 <= d < v && h * v + d == k && h * v >= 0 && h * v + v <= n)
                by (nonlinear_arith)
                requires
                    v >= 1,
                    0 <= k < n,
                    n == hv * v,
                    h == k / v,
                    d == k % v,
            ;
            assert(o(h).len() == v);
            let gate = module::part(gates, h, v);
            assert(gate[d] == gates[h * v + d]);
            let y = layer::gated_row(
                o(h),
                gate,
                self.o_norm_weight@,
                F::fraction(self.config.norm_eps.num, self.config.norm_eps.den),
            );
            let z = o(h)[d].over(
                l2norm::sum_of_squares(o(h)).over(F::fraction(o(h).len() as u64, 1)).plus(
                    F::fraction(self.config.norm_eps.num, self.config.norm_eps.den),
                ).rooted(),
            ).times(self.o_norm_weight@[d]);
            assert(y[d] == z.times(F::nil()));
            F::times_commutes(z, F::nil());
            algebra::lemma_times_nil(z);
        }
        let f = |k: int| r[k].times(self.o_proj.weight.at(k, c));
        assert forall|k: int| 0 <= k < n implies #[trigger] f(k) == F::nil() by {
            assert(r[k] == F::nil());
            algebra::lemma_times_nil(self.o_proj.weight.at(k, c));
        }
        algebra::lemma_total_nil(n, f);
    }

    /// So does the layer itself, in every mode and where the state is only read.
    pub proof fn shut_gates_give_nothing(
        self,
        mode: Gdn2Mode,
        x: spec_fn(int) -> Seq<F>,
        past: Past<F>,
        s: spec_fn(int) -> Grid<F>,
        tokens: int,
        t: int,
        c: int,
    )
        requires
            self.wf(),
            self.g_proj_0.bias is None,
            self.g_proj_1.bias matches Some(b) ==> forall|k: int|
                0 <= k < self.config.value_dim() ==> #[trigger] b@[k] == F::nil(),
            self.o_proj.bias is None,
            forall|l: int, k: int|
                0 <= l < self.g_proj_0.weight.rows && 0 <= k < self.g_proj_0.weight.cols
                    ==> #[trigger] self.g_proj_0.weight.at(l, k) == F::nil(),
            0 <= c < self.config.hidden_size,
        ensures
            self.answer(mode, x, past, s, tokens, t)[c] == F::nil(),
            self.glimpse(x, past, s, t)[c] == F::nil(),
    {
        self.config.valid_extents();
        let o1 = |h: int| self.attended(mode, x, past, s, tokens, t, h);
        let o2 = |h: int| self.found(x, past, s, t, h);
        self.shut_gates_shut_the_layer(x, o1, t, c);
        self.shut_gates_shut_the_layer(x, o2, t, c);
    }

    /// What a head gives is normalized, weighted and gated in its own channels, those from `h` times
    /// their number on: each times the root of the mean square of the head and the configured
    /// epsilon, and times `1 + exp(-gate)`, is what the head gave, times its weight and its gate.
    pub proof fn heads_are_gated_in_their_channels(
        self,
        x: spec_fn(int) -> Seq<F>,
        o: spec_fn(int) -> Seq<F>,
        t: int,
        h: int,
        j: int,
        mean: F,
        root: F,
    )
        requires
            self.wf(),
            0 <= h < self.config.v_heads(),
            0 <= j < self.config.v_head_dim(),
            o(h).len() == self.config.v_head_dim(),
            elements::mean_root(
                o(h),
                F::fraction(self.config.norm_eps.num, self.config.norm_eps.den),
                mean,
                root,
            ),
            l2norm::divides(
                F::unit().plus(
                    self.output_gates(
                        x,
                        t,
                    )[h * self.config.v_head_dim() + j].negated().raised(),
                ),
            ),
        ensures
            ({
                let c = h * self.config.v_head_dim() + j;
                let gate = self.output_gates(x, t)[c];
                self.gathered(x, o, t)[c].times(root).times(
                    F::unit().plus(gate.negated().raised()),
                ) == o(h)[j].times(self.o_norm_weight@[j]).times(gate)
            }),
    {
        self.lemma_key_channels(h);
        let v = self.config.v_head_dim();
        let c = h * v + j;
        assert(c / v == h && c % v == j) by (nonlinear_arith)
            requires
                c == h * v + j,
                0 <= j < v,
        ;
        let gate = module::part(self.output_gates(x, t), h, v);
        assert(gate[j] == self.output_gates(x, t)[c]);
        elements::norms_weigh_and_gate(
            o(h),
            gate,
            self.o_norm_weight@,
            F::fraction(self.config.norm_eps.num, self.config.norm_eps.den),
            mean,
            root,
            j,
        );
    }

    /// Up to sixty-four tokens the layer infers token by token, whatever its mode; longer sequences
    /// run in its mode.
    pub proof fn short_sequences_run_by_token(self, tokens: int)
        ensures
            tokens <= 64 ==> self.inference_mode(tokens) == Gdn2Mode::FusedRecurrent,
            tokens > 64 ==> self.inference_mode(tokens) == self.config.mode,
    {
    }

    /// To read the state that the last token left, with that token, gives its output again.
    pub proof fn reading_again_repeats_the_output(
        self,
        x: spec_fn(int) -> Seq<F>,
        past: Past<F>,
        s: spec_fn(int) -> Grid<F>,
        tokens: int,
    )
        requires
            self.wf(),
            tokens >= 1,
        ensures
            self.glimpse(
                x,
                past,
                |h: int| self.carried(Gdn2Mode::FusedRecurrent, x, past, s, tokens, h),
                tokens - 1,
            ) == self.answer(Gdn2Mode::FusedRecurrent, x, past, s, tokens, tokens - 1),
    {
        let m = Gdn2Mode::FusedRecurrent;
        let s2 = |h: int| self.carried(m, x, past, s, tokens, h);
        let t = tokens - 1;
        let o1 = |h: int| self.found(x, past, s2, t, h);
        let o2 = |h: int| self.attended(m, x, past, s, tokens, t, h);
        assert forall|h: int| #[trigger] o1(h) == o2(h) by {
            let hd = self.head(x, past, h);
            let state = hd.run(s(h), 0, tokens);
            let (a, b) = (o1(h), o2(h));
            assert forall|j: int| 0 <= j < a.len() implies #[trigger] a[j] == b[j] by {
                let f = |i: int| (hd.q)(t, i).times(state(i, j));
                let g = |i: int| state(i, j).times((hd.q)(t, i));
                assert forall|i: int| 0 <= i < hd.kd implies #[trigger] f(i) == g(i) by {
                    F::times_commutes((hd.q)(t, i), state(i, j));
                }
                algebra::lemma_total_eq(hd.kd, f, g);
            }
            assert(a =~= b);
        }
        assert(o1 =~= o2);
    }
}

} // verus!
