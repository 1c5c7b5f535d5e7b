//! A chunked pass stays in range, however long its chunks: it divides by no exponential of more than
//! sixteen decays.

use vstd::prelude::*;

use crate::algebra;
use crate::equivalence;
use crate::forward;
use crate::grid::Grid;
use crate::kernel::cubecl_chunk;
use crate::kernel::cubecl_forward;
use crate::scalar;
use crate::scalar::Scalar;
use crate::tensor::Tensor4;
use crate::word::Word;
use crate::wy;
use crate::wy::{Chunk, Chunking, Pass};

verus! {

/// Numbers of limited range. `fine` says which are in range, `safe` by which of them one may divide:
/// sums, products and quotients by what is safe stay in range, and so do exponentials of numbers
/// that are at most 0. Adding a number that is at most 0 does not raise a sum.
pub open spec fn ranged<F: Scalar>(fine: spec_fn(F) -> bool, safe: spec_fn(F) -> bool) -> bool {
    &&& fine(F::nil())
    &&& fine(F::unit())
    &&& forall|a: F, b: F| fine(a) && fine(b) ==> fine(#[trigger] a.plus(b))
    &&& forall|a: F, b: F| fine(a) && fine(b) ==> fine(#[trigger] a.minus(b))
    &&& forall|a: F, b: F| fine(a) && fine(b) ==> fine(#[trigger] a.times(b))
    &&& forall|a: F, b: F| fine(a) && safe(b) ==> fine(#[trigger] a.over(b))
    &&& forall|a: F| fine(a) ==> fine(#[trigger] a.negated())
    &&& forall|a: F| a.below(F::nil()) ==> fine(#[trigger] a.raised())
    &&& forall|a: F| #[trigger] a.below(a)
    &&& forall|a: F, b: F, c: F| #[trigger] a.below(b) && #[trigger] b.below(c) ==> a.below(c)
    &&& forall|a: F, b: F| b.below(F::nil()) ==> (#[trigger] a.plus(b)).below(a)
    &&& forall|a: F, b: F| a.below(b) ==> (#[trigger] a.minus(b)).below(F::nil())
    &&& forall|a: F| #[trigger] a.plus(F::nil()) == a
}

/// Words of any size are in range: the notion can be met.
pub proof fn words_are_ranged()
    ensures
        ranged::<Word>(|a: Word| true, |a: Word| true),
{
    assert forall|a: Word| #[trigger] a.plus(Word::nil()) == a by {
        <Word as crate::scalar::ExactScalar>::plus_nil(a);
    }
}

/// One may divide by the exponential of the sum of any sixteen or fewer of the decays `g(0 .. n)`
/// that follow each other. Nothing is said of longer sums.
pub open spec fn short_spans<F: Scalar>(
    g: spec_fn(int) -> F,
    n: int,
    safe: spec_fn(F) -> bool,
) -> bool {
    &&& forall|u: int, r: int|
        0 <= u <= r <= n && r - u <= 16 ==> safe(
            (#[trigger] scalar::total(r, g).minus(#[trigger] scalar::total(u, g))).raised(),
        )
    &&& forall|r: int| 0 <= r <= n && r <= 16 ==> safe((#[trigger] scalar::total(r, g)).raised())
}

/// A chunk of at most sixteen rows to a tile, whose inputs are in range, whose decays are at most 0,
/// and by whose short decays one may divide.
spec fn mild<F: Scalar>(ch: Chunk<F>, fine: spec_fn(F) -> bool, safe: spec_fn(F) -> bool) -> bool {
    &&& ch.tile == 16
    &&& 1 <= ch.n <= ch.rows
    &&& ch.n <= 16 ==> ch.rows == ch.n
    &&& fine(ch.scale)
    &&& forall|r: int, i: int|
        0 <= r < ch.rows && 0 <= i < ch.kd ==> fine(#[trigger] (ch.q)(r, i))
    &&& forall|r: int, i: int|
        0 <= r < ch.rows && 0 <= i < ch.kd ==> fine(#[trigger] (ch.k)(r, i))
    &&& forall|r: int, i: int|
        0 <= r < ch.rows && 0 <= i < ch.kd ==> fine(#[trigger] (ch.b)(r, i))
    &&& forall|r: int, j: int|
        0 <= r < ch.rows && 0 <= j < ch.vd ==> fine(#[trigger] (ch.v)(r, j))
    &&& forall|r: int, j: int|
        0 <= r < ch.rows && 0 <= j < ch.vd ==> fine(#[trigger] (ch.w)(r, j))
    &&& forall|i: int, j: int|
        0 <= i < ch.kd && 0 <= j < ch.vd ==> fine(#[trigger] (ch.s)(i, j))
    &&& forall|r: int, i: int|
        0 <= r < ch.rows && 0 <= i < ch.kd ==> (#[trigger] (ch.g)(r, i)).below(F::nil())
    &&& forall|r: int, i: int|
        ch.n <= r < ch.rows && 0 <= i < ch.kd ==> #[trigger] (ch.g)(r, i) == F::nil()
    &&& forall|i: int| 0 <= i < ch.kd ==> #[trigger] short_spans(column(ch.g, i), ch.rows, safe)
}

/// Column `i` of a matrix.
spec fn column<F>(g: Grid<F>, i: int) -> spec_fn(int) -> F {
    |x: int| g(x, i)
}

/// A sum of numbers in range is in range.
proof fn lemma_total_fine<F: Scalar>(
    n: int,
    f: spec_fn(int) -> F,
    fine: spec_fn(F) -> bool,
    safe: spec_fn(F) -> bool,
)
    requires
        ranged(fine, safe),
        forall|i: int| 0 <= i < n ==> fine(#[trigger] f(i)),
    ensures
        fine(scalar::total(n, f)),
    decreases n,
{
    if n > 0 {
        lemma_total_fine(n - 1, f, fine, safe);
    }
}

/// Sums of numbers that are at most 0 fall.
proof fn lemma_total_falls<F: Scalar>(
    u: int,
    r: int,
    f: spec_fn(int) -> F,
    fine: spec_fn(F) -> bool,
    safe: spec_fn(F) -> bool,
)
    requires
        ranged(fine, safe),
        0 <= u <= r,
        forall|i: int| 0 <= i < r ==> (#[trigger] f(i)).below(F::nil()),
    ensures
        scalar::total(r, f).below(scalar::total(u, f)),
    decreases r,
{
    if u < r {
        lemma_total_falls(u, r - 1, f, fine, safe);
        let (a, b) = (scalar::total(r - 1, f), scalar::total(u, f));
        assert(f(r - 1).below(F::nil()));
        assert(a.plus(f(r - 1)).below(a));
        assert(a.below(b));
    }
}

/// Zeros at the end add nothing.
proof fn lemma_total_padded<F: Scalar>(
    n: int,
    r: int,
    f: spec_fn(int) -> F,
    fine: spec_fn(F) -> bool,
    safe: spec_fn(F) -> bool,
)
    requires
        ranged(fine, safe),
        0 <= n <= r,
        forall|i: int| n <= i < r ==> #[trigger] f(i) == F::nil(),
    ensures
        scalar::total(r, f) == scalar::total(n, f),
    decreases r,
{
    if n < r {
        lemma_total_padded(n, r - 1, f, fine, safe);
        assert(f(r - 1) == F::nil());
    }
}

/// The decays of a chunk, and those within its tiles.
proof fn lemma_decays_fine<F: Scalar>(
    ch: Chunk<F>,
    r: int,
    i: int,
    fine: spec_fn(F) -> bool,
    safe: spec_fn(F) -> bool,
)
    requires
        ranged(fine, safe),
        mild(ch, fine, safe),
        0 <= r < ch.rows,
        0 <= i < ch.kd,
    ensures
        fine(ch.e(r, i)),
        ch.n <= 16 ==> safe(ch.e(r, i)),
        fine(ch.rel(r, i)),
        safe(ch.rel(r, i)),
        fine(ch.decay_last(r, i)),
{
    let g = column(ch.g, i);
    assert(g =~= (|x: int| (ch.g)(x, i)));
    assert(short_spans(g, ch.rows, safe));
    assert forall|x: int| 0 <= x < ch.rows implies (#[trigger] g(x)).below(F::nil()) by {
        assert((ch.g)(x, i).below(F::nil()));
    }
    lemma_total_falls(0, r + 1, g, fine, safe);
    assert(ch.g_cum(r, i) == scalar::total(r + 1, g));
    let u = r / 16 * 16;
    assert(0 <= u <= r && r + 1 - u <= 16) by (nonlinear_arith)
        requires
            0 <= r,
            u == r / 16 * 16,
    ;
    assert(ch.bound(r / 16, i) == scalar::total(u, g)) by {
        assert(r / 16 > 0 ==> ch.bound(r / 16, i) == scalar::total(u - 1 + 1, g));
    }
    lemma_total_falls(u, r + 1, g, fine, safe);
    let d = scalar::total(r + 1, g).minus(scalar::total(u, g));
    assert(safe(d.raised()));
    assert(fine(d.raised()));
    assert(ch.g_cum(ch.n - 1, i) == scalar::total(ch.n, g));
    if r < ch.n {
        lemma_total_falls(r + 1, ch.n, g, fine, safe);
    } else {
        assert forall|x: int| ch.n <= x < r + 1 implies #[trigger] g(x) == F::nil() by {
            assert((ch.g)(x, i) == F::nil());
        }
        lemma_total_padded(ch.n, r + 1, g, fine, safe);
    }
}

/// The scores of a chunk are in range.
proof fn lemma_scores_fine<F: Scalar>(
    ch: Chunk<F>,
    r: int,
    l: int,
    fine: spec_fn(F) -> bool,
    safe: spec_fn(F) -> bool,
)
    requires
        ranged(fine, safe),
        mild(ch, fine, safe),
        0 <= r < ch.rows,
        0 <= l < ch.rows,
    ensures
        fine(ch.aqk(r, l)),
        fine(ch.akk(r, l)),
{
    assert(fine(wy::scaled_causal(ch.scale, r, l)) && fine(wy::strictly_causal::<F>(r, l)));
    let f = |i: int| ch.qg(r, i).times(ch.kg(l, i));
    let g = |i: int| ch.rhs_k(r, i).times(ch.kg(l, i));
    let h = |i: int|
        (ch.q)(r, i).times(ch.rel(r, i)).times((ch.k)(l, i).over(ch.rel(l, i))).times(
            ch.hop(r, l, i),
        );
    let k = |i: int|
        ch.bk(r, i).times(ch.rel(r, i)).times((ch.k)(l, i).over(ch.rel(l, i))).times(
            ch.hop(r, l, i),
        );
    assert forall|i: int| 0 <= i < ch.kd implies fine(#[trigger] h(i)) && fine(k(i)) by {
        lemma_decays_fine(ch, r, i, fine, safe);
        lemma_decays_fine(ch, l, i, fine, safe);
        assert(F::nil().below(F::nil()));
        assert(scalar::at_most(ch.gap(r, l, i), F::nil()).below(F::nil()));
        assert(fine(ch.hop(r, l, i)));
        assert(fine((ch.q)(r, i)) && fine((ch.k)(r, i)) && fine((ch.b)(r, i)) && fine(
            (ch.k)(l, i),
        ));
    }
    if ch.n <= 16 {
        assert forall|i: int| 0 <= i < ch.kd implies fine(#[trigger] f(i)) && fine(g(i)) by {
            lemma_decays_fine(ch, r, i, fine, safe);
            lemma_decays_fine(ch, l, i, fine, safe);
            assert(fine((ch.q)(r, i)) && fine((ch.k)(r, i)) && fine((ch.b)(r, i)) && fine(
                (ch.k)(l, i),
            ));
        }
        assert forall|i: int| 0 <= i < ch.kd implies fine(#[trigger] g(i)) by {
            assert(fine(f(i)) && fine(g(i)));
        }
        lemma_total_fine(ch.kd, f, fine, safe);
        lemma_total_fine(ch.kd, g, fine, safe);
    } else {
        assert forall|i: int| 0 <= i < ch.kd implies fine(#[trigger] k(i)) by {
            assert(fine(h(i)) && fine(k(i)));
        }
        lemma_total_fine(ch.kd, h, fine, safe);
        lemma_total_fine(ch.kd, k, fine, safe);
    }
}

/// The inverse of a matrix in range is in range.
proof fn lemma_inverse_fine<F: Scalar>(
    a: Grid<F>,
    rows: int,
    r: int,
    l: int,
    fine: spec_fn(F) -> bool,
    safe: spec_fn(F) -> bool,
)
    requires
        ranged(fine, safe),
        forall|x: int, y: int| 0 <= x < rows && 0 <= y < rows ==> fine(#[trigger] a(x, y)),
        0 <= r < rows,
        0 <= l < rows,
    ensures
        fine(Chunk::inverse(a, r, l)),
    decreases r,
{
    if l < r {
        equivalence::lemma_substituted(a, r, l, r);
        let f = |x: int| a(r, x).times(Chunk::inverse(a, x, l));
        assert forall|x: int| 0 <= x < r implies fine(#[trigger] f(x)) by {
            lemma_inverse_fine(a, rows, x, l, fine, safe);
            assert(fine(a(r, x)));
        }
        lemma_total_fine(r, f, fine, safe);
    }
}

/// The written values of a chunk are in range.
proof fn lemma_writes_fine<F: Scalar>(
    ch: Chunk<F>,
    r: int,
    j: int,
    fine: spec_fn(F) -> bool,
    safe: spec_fn(F) -> bool,
)
    requires
        ranged(fine, safe),
        mild(ch, fine, safe),
        0 <= r < ch.rows,
        0 <= j < ch.vd,
    ensures
        fine(ch.v_new(ch.solver(), r, j)),
{
    let m = ch.solver();
    let a = |x: int, y: int| ch.akk(x, y);
    assert forall|x: int, y: int| 0 <= x < ch.rows && 0 <= y < ch.rows implies fine(
        #[trigger] a(x, y),
    ) by {
        lemma_scores_fine(ch, x, y, fine, safe);
    }
    assert forall|l: int| 0 <= l < ch.rows implies fine(#[trigger] m(r, l)) by {
        lemma_inverse_fine(a, ch.rows, r, l, fine, safe);
    }
    let f = |l: int| m(r, l).times(ch.rhs_v(l, j));
    assert forall|l: int| 0 <= l < ch.rows implies fine(#[trigger] f(l)) by {
        assert(fine(m(r, l)) && fine((ch.w)(l, j)) && fine((ch.v)(l, j)));
    }
    lemma_total_fine(ch.rows, f, fine, safe);
    let h = |i: int| ch.w_wy(m, r, i).times((ch.s)(i, j));
    assert forall|i: int| 0 <= i < ch.kd implies fine(#[trigger] h(i)) by {
        let p = |l: int| m(r, l).times(ch.rhs_k(l, i));
        assert forall|l: int| 0 <= l < ch.rows implies fine(#[trigger] p(l)) by {
            lemma_decays_fine(ch, l, i, fine, safe);
            assert(fine(m(r, l)) && fine((ch.b)(l, i)) && fine((ch.k)(l, i)));
        }
        lemma_total_fine(ch.rows, p, fine, safe);
        assert(fine((ch.s)(i, j)));
    }
    lemma_total_fine(ch.kd, h, fine, safe);
}

/// The outputs of a chunk, and the state after it, are in range.
proof fn lemma_chunk_fine<F: Scalar>(
    ch: Chunk<F>,
    fine: spec_fn(F) -> bool,
    safe: spec_fn(F) -> bool,
)
    requires
        ranged(fine, safe),
        mild(ch, fine, safe),
    ensures
        forall|r: int, j: int|
            0 <= r < ch.rows && 0 <= j < ch.vd ==> fine(#[trigger] ch.out(ch.solver(), r, j)),
        forall|i: int, j: int|
            0 <= i < ch.kd && 0 <= j < ch.vd ==> fine(#[trigger] ch.next(ch.solver(), i, j)),
{
    let m = ch.solver();
    assert forall|r: int, j: int| 0 <= r < ch.rows && 0 <= j < ch.vd implies fine(
        #[trigger] ch.out(m, r, j),
    ) by {
        let f = |l: int| ch.aqk(r, l).times(ch.v_new(m, l, j));
        assert forall|l: int| 0 <= l < ch.rows implies fine(#[trigger] f(l)) by {
            lemma_scores_fine(ch, r, l, fine, safe);
            lemma_writes_fine(ch, l, j, fine, safe);
        }
        lemma_total_fine(ch.rows, f, fine, safe);
        let h = |i: int| ch.qg(r, i).times((ch.s)(i, j));
        assert forall|i: int| 0 <= i < ch.kd implies fine(#[trigger] h(i)) by {
            lemma_decays_fine(ch, r, i, fine, safe);
            assert(fine((ch.q)(r, i)) && fine((ch.s)(i, j)));
        }
        lemma_total_fine(ch.kd, h, fine, safe);
    }
    assert forall|i: int, j: int| 0 <= i < ch.kd && 0 <= j < ch.vd implies fine(
        #[trigger] ch.next(m, i, j),
    ) by {
        lemma_decays_fine(ch, ch.n - 1, i, fine, safe);
        assert(fine((ch.s)(i, j)));
        let f = |r: int| (ch.k)(r, i).times(ch.decay_last(r, i)).times(ch.v_new(m, r, j));
        assert forall|r: int| 0 <= r < ch.rows implies fine(#[trigger] f(r)) by {
            lemma_decays_fine(ch, r, i, fine, safe);
            lemma_writes_fine(ch, r, j, fine, safe);
            assert(fine((ch.k)(r, i)));
        }
        lemma_total_fine(ch.rows, f, fine, safe);
    }
}

/// A head cut into chunks, whose inputs are in range, whose decays are at most 0, and where one may
/// divide by the exponential of up to sixteen of the decays of a chunk that follow each other.
pub open spec fn mild_head<F: Scalar>(
    ck: Chunking<F>,
    fine: spec_fn(F) -> bool,
    safe: spec_fn(F) -> bool,
) -> bool {
    let h = ck.head;
    &&& fine(h.scale)
    &&& forall|t: int, i: int|
        0 <= t < ck.tokens && 0 <= i < h.kd ==> fine(#[trigger] (h.q)(t, i))
    &&& forall|t: int, i: int|
        0 <= t < ck.tokens && 0 <= i < h.kd ==> fine(#[trigger] (h.k)(t, i))
    &&& forall|t: int, i: int|
        0 <= t < ck.tokens && 0 <= i < h.kd ==> fine(#[trigger] (h.b)(t, i))
    &&& forall|t: int, j: int|
        0 <= t < ck.tokens && 0 <= j < h.vd ==> fine(#[trigger] (h.v)(t, j))
    &&& forall|t: int, j: int|
        0 <= t < ck.tokens && 0 <= j < h.vd ==> fine(#[trigger] (h.w)(t, j))
    &&& forall|i: int, j: int|
        0 <= i < h.kd && 0 <= j < h.vd ==> fine(#[trigger] (ck.s)(i, j))
    &&& forall|t: int, i: int|
        0 <= t < ck.tokens && 0 <= i < h.kd ==> (#[trigger] (h.g)(t, i)).below(F::nil())
    &&& forall|c: int, i: int|
        0 <= c < ck.count() && 0 <= i < h.kd ==> short_spans(
            #[trigger] chunk_decays(h.g, c * ck.size, i),
            ck.len(c),
            safe,
        )
}

/// The decays of channel `i` from token `start` on.
pub open spec fn chunk_decays<F>(g: Grid<F>, start: int, i: int) -> spec_fn(int) -> F {
    |x: int| g(start + x, i)
}

/// A chunk of such a head is such a chunk.
proof fn lemma_piece_mild<F: Scalar>(
    ck: Chunking<F>,
    c: int,
    s: Grid<F>,
    fine: spec_fn(F) -> bool,
    safe: spec_fn(F) -> bool,
)
    requires
        ranged(fine, safe),
        mild_head(ck, fine, safe),
        ck.size > 0,
        ck.tile == 16,
        0 <= c < ck.count(),
        forall|i: int, j: int|
            0 <= i < ck.head.kd && 0 <= j < ck.head.vd ==> fine(#[trigger] s(i, j)),
    ensures
        mild(ck.piece(c, s), fine, safe),
{
    equivalence::lemma_chunk_bounds(ck, c);
    let ch = ck.piece(c, s);
    let (h, start, n) = (ck.head, c * ck.size, ck.len(c));
    assert forall|r: int, i: int| 0 <= r < ch.rows && 0 <= i < ch.kd implies fine(
        #[trigger] (ch.q)(r, i),
    ) by {
        if r < n {
            assert(fine((h.q)(start + r, i)));
        }
    }
    assert forall|r: int, i: int| 0 <= r < ch.rows && 0 <= i < ch.kd implies fine(
        #[trigger] (ch.k)(r, i),
    ) by {
        if r < n {
            assert(fine((h.k)(start + r, i)));
        }
    }
    assert forall|r: int, i: int| 0 <= r < ch.rows && 0 <= i < ch.kd implies fine(
        #[trigger] (ch.b)(r, i),
    ) by {
        if r < n {
            assert(fine((h.b)(start + r, i)));
        }
    }
    assert forall|r: int, j: int| 0 <= r < ch.rows && 0 <= j < ch.vd implies fine(
        #[trigger] (ch.v)(r, j),
    ) by {
        if r < n {
            assert(fine((h.v)(start + r, j)));
        }
    }
    assert forall|r: int, j: int| 0 <= r < ch.rows && 0 <= j < ch.vd implies fine(
        #[trigger] (ch.w)(r, j),
    ) by {
        if r < n {
            assert(fine((h.w)(start + r, j)));
        }
    }
    assert forall|r: int, i: int| 0 <= r < ch.rows && 0 <= i < ch.kd implies (#[trigger] (ch.g)(
        r,
        i,
    )).below(F::nil()) by {
        if r < n {
            assert((h.g)(start + r, i).below(F::nil()));
        }
    }
    assert forall|i: int| 0 <= i < ch.kd implies #[trigger] short_spans(
        column(ch.g, i),
        ch.rows,
        safe,
    ) by {
        let (f, g) = (column(ch.g, i), chunk_decays(h.g, start, i));
        assert(short_spans(g, n, safe));
        assert forall|r: int| 0 <= r <= ch.rows implies #[trigger] scalar::total(r, f)
            == scalar::total(
            if r <= n {
                r
            } else {
                n
            },
            g,
        ) by {
            let m = if r <= n {
                r
            } else {
                n
            };
            lemma_total_padded(m, r, f, fine, safe);
            algebra::lemma_total_eq(m, f, g);
        }
        assert forall|u: int, r: int| 0 <= u <= r <= ch.rows && r - u <= 16 implies safe(
            (#[trigger] scalar::total(r, f).minus(#[trigger] scalar::total(u, f))).raised(),
        ) by {
            let (a, b) = (
                if u <= n {
                    u
                } else {
                    n
                },
                if r <= n {
                    r
                } else {
                    n
                },
            );
            assert(safe(scalar::total(b, g).minus(scalar::total(a, g)).raised()));
        }
        assert forall|r: int| 0 <= r <= ch.rows && r <= 16 implies safe(
            (#[trigger] scalar::total(r, f)).raised(),
        ) by {
            let b = if r <= n {
                r
            } else {
                n
            };
            assert(safe(scalar::total(b, g).raised()));
        }
    }
}

/// The states of such a head are in range.
proof fn lemma_state_fine<F: Scalar>(
    ck: Chunking<F>,
    c: int,
    fine: spec_fn(F) -> bool,
    safe: spec_fn(F) -> bool,
)
    requires
        ranged(fine, safe),
        mild_head(ck, fine, safe),
        ck.size > 0,
        ck.tile == 16,
        ck.saved is None,
        0 <= c <= ck.count(),
    ensures
        forall|i: int, j: int|
            0 <= i < ck.head.kd && 0 <= j < ck.head.vd ==> fine(#[trigger] ck.state(c)(i, j)),
    decreases c,
{
    if c > 0 {
        lemma_state_fine(ck, c - 1, fine, safe);
        let s = ck.state(c - 1);
        lemma_piece_mild(ck, c - 1, s, fine, safe);
        let ch = ck.piece(c - 1, s);
        lemma_chunk_fine(ch, fine, safe);
        assert forall|i: int, j: int| 0 <= i < ck.head.kd && 0 <= j < ck.head.vd implies fine(
            #[trigger] ck.state(c)(i, j),
        ) by {
            assert(fine(ch.next(ch.solver(), i, j)));
        }
    }
}

/// A chunked pass stays in range for every chunk size, on numbers of limited range, however small
/// the decays of a whole chunk are: with inputs in range and decays that are at most 0, all outputs
/// and the state after the last token are in range if one may divide by the exponential of the sum
/// of up to sixteen decays that follow each other. So it divides by no exponential of more.
pub proof fn chunked_pass_stays_in_range<F: Scalar>(
    p: Pass<F>,
    out: Tensor4<F>,
    next: Tensor4<F>,
    fine: spec_fn(F) -> bool,
    safe: spec_fn(F) -> bool,
)
    requires
        p.wf(),
        p.saved is None,
        ranged(fine, safe),
        forall|a: int, h: int|
            0 <= a < p.x.batch() && 0 <= h < p.x.heads() ==> mild_head(
                #[trigger] p.head(a, h),
                fine,
                safe,
            ),
        forward::chunked_outputs(p, out, next),
    ensures
        forall|a: int, h: int, t: int, j: int|
            0 <= a < p.x.batch() && 0 <= h < p.x.heads() && 0 <= t < p.x.tokens() && 0 <= j
                < p.x.vd() ==> fine(#[trigger] out.at(a, h, t, j)),
        forall|a: int, h: int, i: int, j: int|
            0 <= a < p.x.batch() && 0 <= h < p.x.heads() && 0 <= i < p.x.kd() && 0 <= j < p.x.vd()
                ==> fine(#[trigger] next.at(a, h, i, j)),
{
    assert forall|a: int, h: int, t: int, j: int|
        0 <= a < p.x.batch() && 0 <= h < p.x.heads() && 0 <= t < p.x.tokens() && 0 <= j
            < p.x.vd() implies fine(#[trigger] out.at(a, h, t, j)) by {
        let ck = p.head(a, h);
        assert(mild_head(ck, fine, safe));
        let (size, tokens, count) = (ck.size, ck.tokens, ck.count());
        let (c, r) = (t / size, t % size);
        assert(0 <= c < count && 0 <= r < size && t == c * size + r && (c + 1) * size == c * size
            + size) by (nonlinear_arith)
            requires
                size > 0,
                0 <= t < tokens,
                count == (tokens + size - 1) / size,
                c == t / size,
                r == t % size,
        ;
        equivalence::lemma_chunk_bounds(ck, c);
        lemma_state_fine(ck, c, fine, safe);
        lemma_piece_mild(ck, c, ck.state(c), fine, safe);
        let ch = ck.chunk(c);
        lemma_chunk_fine(ch, fine, safe);
        assert(fine(ch.out(ch.solver(), r, j)));
    }
    assert forall|a: int, h: int, i: int, j: int|
        0 <= a < p.x.batch() && 0 <= h < p.x.heads() && 0 <= i < p.x.kd() && 0 <= j
            < p.x.vd() implies fine(#[trigger] next.at(a, h, i, j)) by {
        let ck = p.head(a, h);
        assert(mild_head(ck, fine, safe));
        let (size, tokens, count) = (ck.size, ck.tokens, ck.count());
        assert(0 <= count) by (nonlinear_arith)
            requires
                size > 0,
                0 <= tokens,
                count == (tokens + size - 1) / size,
        ;
        lemma_state_fine(ck, count, fine, safe);
    }
}

/// A solution by substitution is in range.
proof fn lemma_solved_fine<F: Scalar>(
    a: Grid<F>,
    y: Grid<F>,
    rows: int,
    r: int,
    c: int,
    n: int,
    fine: spec_fn(F) -> bool,
    safe: spec_fn(F) -> bool,
)
    requires
        ranged(fine, safe),
        forall|x: int, z: int| 0 <= x < rows && 0 <= z < rows ==> fine(#[trigger] a(x, z)),
        forall|x: int| 0 <= x < rows ==> fine(#[trigger] y(x, c)),
        0 <= n <= r < rows,
    ensures
        fine(cubecl_chunk::reduced(a, y, r, c, n)),
        n == r ==> fine(cubecl_chunk::solved(a, y, r, c)),
    decreases r, n,
{
    if n > 0 {
        lemma_solved_fine(a, y, rows, r, c, n - 1, fine, safe);
        lemma_solved_fine(a, y, rows, n - 1, c, n - 1, fine, safe);
        assert(fine(a(r, n - 1)));
    } else {
        assert(fine(y(r, c)));
    }
}

/// The written values, the outputs and the next state of a chunk by substitution are in range.
proof fn lemma_substituted_fine<F: Scalar>(
    ch: Chunk<F>,
    fine: spec_fn(F) -> bool,
    safe: spec_fn(F) -> bool,
)
    requires
        ranged(fine, safe),
        mild(ch, fine, safe),
    ensures
        forall|r: int, j: int|
            0 <= r < ch.rows && 0 <= j < ch.vd ==> fine(#[trigger] ch.out_sub(r, j)),
        forall|i: int, j: int|
            0 <= i < ch.kd && 0 <= j < ch.vd ==> fine(
                #[trigger] ch.next_with(ch.v_sub(), i, j),
            ),
{
    let a = |x: int, y: int| ch.akk(x, y);
    let rk = |r: int, i: int| ch.rhs_k(r, i);
    let rv = |r: int, j: int| ch.rhs_v(r, j);
    assert forall|x: int, y: int| 0 <= x < ch.rows && 0 <= y < ch.rows implies fine(
        #[trigger] a(x, y),
    ) by {
        lemma_scores_fine(ch, x, y, fine, safe);
    }
    let v = ch.v_sub();
    assert forall|r: int, j: int| 0 <= r < ch.rows && 0 <= j < ch.vd implies fine(
        #[trigger] v(r, j),
    ) by {
        assert forall|x: int| 0 <= x < ch.rows implies fine(#[trigger] rv(x, j)) by {
            assert(fine((ch.w)(x, j)) && fine((ch.v)(x, j)));
        }
        lemma_solved_fine(a, rv, ch.rows, r, j, r, fine, safe);
        let h = |i: int| ch.w_sub()(r, i).times((ch.s)(i, j));
        assert forall|i: int| 0 <= i < ch.kd implies fine(#[trigger] h(i)) by {
            assert forall|x: int| 0 <= x < ch.rows implies fine(#[trigger] rk(x, i)) by {
                lemma_decays_fine(ch, x, i, fine, safe);
                assert(fine((ch.b)(x, i)) && fine((ch.k)(x, i)));
            }
            lemma_solved_fine(a, rk, ch.rows, r, i, r, fine, safe);
            assert(fine((ch.s)(i, j)));
        }
        lemma_total_fine(ch.kd, h, fine, safe);
    }
    assert forall|r: int, j: int| 0 <= r < ch.rows && 0 <= j < ch.vd implies fine(
        #[trigger] ch.out_sub(r, j),
    ) by {
        let f = |l: int| ch.aqk(r, l).times(ch.v_sub()(l, j));
        assert forall|l: int| 0 <= l < ch.rows implies fine(#[trigger] f(l)) by {
            lemma_scores_fine(ch, r, l, fine, safe);
            assert(fine(v(l, j)));
        }
        lemma_total_fine(ch.rows, f, fine, safe);
        let h = |i: int| ch.qg(r, i).times((ch.s)(i, j));
        assert forall|i: int| 0 <= i < ch.kd implies fine(#[trigger] h(i)) by {
            lemma_decays_fine(ch, r, i, fine, safe);
            assert(fine((ch.q)(r, i)) && fine((ch.s)(i, j)));
        }
        lemma_total_fine(ch.kd, h, fine, safe);
    }
    assert forall|i: int, j: int| 0 <= i < ch.kd && 0 <= j < ch.vd implies fine(
        #[trigger] ch.next_with(v, i, j),
    ) by {
        lemma_decays_fine(ch, ch.n - 1, i, fine, safe);
        assert(fine((ch.s)(i, j)));
        let f = |r: int| (ch.k)(r, i).times(ch.decay_last(r, i)).times(v(r, j));
        assert forall|r: int| 0 <= r < ch.rows implies fine(#[trigger] f(r)) by {
            lemma_decays_fine(ch, r, i, fine, safe);
            assert(fine(v(r, j)) && fine((ch.k)(r, i)));
        }
        lemma_total_fine(ch.rows, f, fine, safe);
    }
}

/// The states of such a head by substitution are in range.
proof fn lemma_substituted_state_fine<F: Scalar>(
    ck: Chunking<F>,
    c: int,
    fine: spec_fn(F) -> bool,
    safe: spec_fn(F) -> bool,
)
    requires
        ranged(fine, safe),
        mild_head(ck, fine, safe),
        ck.size > 0,
        ck.tile == 16,
        0 <= c <= ck.count(),
    ensures
        forall|i: int, j: int|
            0 <= i < ck.head.kd && 0 <= j < ck.head.vd ==> fine(#[trigger] ck.state_sub(c)(i, j)),
    decreases c,
{
    if c > 0 {
        lemma_substituted_state_fine(ck, c - 1, fine, safe);
        let s = ck.state_sub(c - 1);
        lemma_piece_mild(ck, c - 1, s, fine, safe);
        let ch = ck.piece(c - 1, s);
        lemma_substituted_fine(ch, fine, safe);
        assert forall|i: int, j: int| 0 <= i < ck.head.kd && 0 <= j < ck.head.vd implies fine(
            #[trigger] ck.state_sub(c)(i, j),
        ) by {
            assert(fine(ch.next_with(ch.v_sub(), i, j)));
        }
    }
}

/// The pass whose chunks are solved by substitution stays in range as the other does.
pub proof fn substituted_pass_stays_in_range<F: Scalar>(
    p: Pass<F>,
    out: Tensor4<F>,
    next: Tensor4<F>,
    fine: spec_fn(F) -> bool,
    safe: spec_fn(F) -> bool,
)
    requires
        p.wf(),
        p.saved is None,
        ranged(fine, safe),
        forall|a: int, h: int|
            0 <= a < p.x.batch() && 0 <= h < p.x.heads() ==> mild_head(
                #[trigger] p.head(a, h),
                fine,
                safe,
            ),
        cubecl_forward::substituted_outputs(p, out, next),
    ensures
        forall|a: int, h: int, t: int, j: int|
            0 <= a < p.x.batch() && 0 <= h < p.x.heads() && 0 <= t < p.x.tokens() && 0 <= j
                < p.x.vd() ==> fine(#[trigger] out.at(a, h, t, j)),
        forall|a: int, h: int, i: int, j: int|
            0 <= a < p.x.batch() && 0 <= h < p.x.heads() && 0 <= i < p.x.kd() && 0 <= j < p.x.vd()
                ==> fine(#[trigger] next.at(a, h, i, j)),
{
    assert forall|a: int, h: int, t: int, j: int|
        0 <= a < p.x.batch() && 0 <= h < p.x.heads() && 0 <= t < p.x.tokens() && 0 <= j
            < p.x.vd() implies fine(#[trigger] out.at(a, h, t, j)) by {
        let ck = p.head(a, h);
        assert(mild_head(ck, fine, safe));
        let (size, tokens, count) = (ck.size, ck.tokens, ck.count());
        let (c, r) = (t / size, t % size);
        assert(0 <= c < count && 0 <= r < size && t == c * size + r && (c + 1) * size == c * size
            + size) by (nonlinear_arith)
            requires
                size > 0,
                0 <= t < tokens,
                count == (tokens + size - 1) / size,
                c == t / size,
                r == t % size,
        ;
        equivalence::lemma_chunk_bounds(ck, c);
        lemma_substituted_state_fine(ck, c, fine, safe);
        lemma_piece_mild(ck, c, ck.state_sub(c), fine, safe);
        let ch = ck.piece(c, ck.state_sub(c));
        lemma_substituted_fine(ch, fine, safe);
        assert(fine(ch.out_sub(r, j)));
    }
    assert forall|a: int, h: int, i: int, j: int|
        0 <= a < p.x.batch() && 0 <= h < p.x.heads() && 0 <= i < p.x.kd() && 0 <= j
            < p.x.vd() implies fine(#[trigger] next.at(a, h, i, j)) by {
        let ck = p.head(a, h);
        assert(mild_head(ck, fine, safe));
        let (size, tokens, count) = (ck.size, ck.tokens, ck.count());
        assert(0 <= count) by (nonlinear_arith)
            requires
                size > 0,
                0 <= tokens,
                count == (tokens + size - 1) / size,
        ;
        lemma_substituted_state_fine(ck, count, fine, safe);
    }
}

} // verus!
