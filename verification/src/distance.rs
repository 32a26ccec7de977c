use vstd::prelude::*;
use vstd::arithmetic::mul::lemma_mul_is_commutative;
use crate::SCALE;
use crate::tags::MAX_TAGS;
use crate::tags::pair_views;
use crate::tags::unique_keys;

verus! {

/// Self-distance tolerance, in millionths: one thousandth.
pub const TOL_MICRO: i64 = 1_000;

/// The score of `k` in a tag map, or zero where the map lacks it.
pub open spec fn lookup(ps: Seq<(Seq<char>, int)>, k: Seq<char>) -> int
    decreases ps.len(),
{
    if ps.len() == 0 {
        0
    } else if ps[0].0 == k {
        ps[0].1
    } else {
        lookup(ps.drop_first(), k)
    }
}

/// The dot product of two sparse vectors: labels absent from either side
/// contribute nothing.
pub open spec fn dot_v(a: Seq<(Seq<char>, int)>, b: Seq<(Seq<char>, int)>) -> int
    decreases a.len(),
{
    if a.len() == 0 {
        0
    } else {
        a[0].1 * lookup(b, a[0].0) + dot_v(a.drop_first(), b)
    }
}

/// The cosine distance between two unit-scaled sparse vectors, in
/// millionths: one minus their similarity.
pub open spec fn cos_dist(a: Seq<(Seq<char>, int)>, b: Seq<(Seq<char>, int)>) -> int {
    let d = dot_v(a, b);
    if d >= 0 {
        SCALE - d / (SCALE as int)
    } else {
        SCALE + (-d) / (SCALE as int)
    }
}

proof fn lemma_lookup_absent(ps: Seq<(Seq<char>, int)>, k: Seq<char>)
    requires
        !crate::tags::has_key(ps, k),
    ensures
        lookup(ps, k) == 0,
    decreases ps.len(),
{
    if ps.len() > 0 {
        assert(ps[0].0 != k);
        assert(!crate::tags::has_key(ps.drop_first(), k)) by {
            if crate::tags::has_key(ps.drop_first(), k) {
                let i = choose|i: int|
                    0 <= i < ps.drop_first().len() && #[trigger] ps.drop_first()[i].0 == k;
                assert(ps[i + 1].0 == k);
            }
        }
        lemma_lookup_absent(ps.drop_first(), k);
    }
}

proof fn lemma_dot_empty(b: Seq<(Seq<char>, int)>)
    ensures
        dot_v(b, Seq::empty()) == 0,
    decreases b.len(),
{
    if b.len() > 0 {
        lemma_dot_empty(b.drop_first());
    }
}

proof fn lemma_unique_drop_first(ps: Seq<(Seq<char>, int)>)
    requires
        ps.len() >= 1,
        unique_keys(ps),
    ensures
        unique_keys(ps.drop_first()),
        !crate::tags::has_key(ps.drop_first(), ps[0].0),
{
    assert(forall|i: int, j: int|
        0 <= i < j < ps.drop_first().len() ==> #[trigger] ps.drop_first()[i].0
            != #[trigger] ps.drop_first()[j].0) by {
        assert(forall|i: int|
            0 <= i < ps.drop_first().len() ==> #[trigger] ps.drop_first()[i] == ps[i + 1]);
    }
    if crate::tags::has_key(ps.drop_first(), ps[0].0) {
        let i = choose|i: int|
            0 <= i < ps.drop_first().len() && #[trigger] ps.drop_first()[i].0 == ps[0].0;
        assert(ps[i + 1].0 == ps[0].0);
    }
}

proof fn lemma_dot_cons(b: Seq<(Seq<char>, int)>, a: Seq<(Seq<char>, int)>)
    requires
        a.len() >= 1,
        unique_keys(a),
        unique_keys(b),
    ensures
        dot_v(b, a) == lookup(b, a[0].0) * a[0].1 + dot_v(b, a.drop_first()),
    decreases b.len(),
{
    lemma_unique_drop_first(a);
    if b.len() == 0 {
    } else {
        let g = b[0];
        let s = b.drop_first();
        lemma_unique_drop_first(b);
        lemma_dot_cons(s, a);
        if g.0 == a[0].0 {
            lemma_lookup_absent(s, a[0].0);
            lemma_lookup_absent(a.drop_first(), g.0);
            assert(lookup(a, g.0) == a[0].1);
            assert(dot_v(b, a.drop_first()) == g.1 * lookup(a.drop_first(), g.0) + dot_v(
                s,
                a.drop_first(),
            ));
            assert(g.1 * 0 == 0) by (nonlinear_arith);
            assert(0 * a[0].1 == 0) by (nonlinear_arith);
        } else {
            assert(lookup(a, g.0) == lookup(a.drop_first(), g.0));
            assert(lookup(b, a[0].0) == lookup(s, a[0].0));
        }
    }
}

/// The dot product does not depend on the order of its two arguments.
pub proof fn lemma_dot_symmetric(a: Seq<(Seq<char>, int)>, b: Seq<(Seq<char>, int)>)
    requires
        unique_keys(a),
        unique_keys(b),
    ensures
        dot_v(a, b) == dot_v(b, a),
    decreases a.len(),
{
    if a.len() == 0 {
        lemma_dot_empty(b);
        assert(a =~= Seq::<(Seq<char>, int)>::empty());
    } else {
        lemma_unique_drop_first(a);
        lemma_dot_symmetric(a.drop_first(), b);
        lemma_dot_cons(b, a);
        lemma_mul_is_commutative(a[0].1, lookup(b, a[0].0));
    }
}

/// Cosine distance is symmetric: the distance from `a` to `b` equals the
/// distance from `b` to `a`, for any two tag maps with distinct labels.
pub proof fn lemma_distance_symmetric(a: Seq<(Seq<char>, int)>, b: Seq<(Seq<char>, int)>)
    requires
        unique_keys(a),
        unique_keys(b),
    ensures
        cos_dist(a, b) == cos_dist(b, a),
{
    lemma_dot_symmetric(a, b);
}

/// Unit scaling is exact for an item with a single non-zero tag: its
/// distance to itself is exactly zero, not merely zero within tolerance.
pub proof fn lemma_single_tag_self_distance(name: Seq<char>, v: int)
    requires
        v != 0,
    ensures
        cos_dist(
            crate::tags::unit_pairs(seq![(name, v)]),
            crate::tags::unit_pairs(seq![(name, v)]),
        ) == 0,
{
    let ps: Seq<(Seq<char>, int)> = seq![(name, v)];
    assert(ps.len() == 1);
    assert(ps.last() == (name, v));
    assert(ps.drop_last() =~= Seq::<(Seq<char>, int)>::empty());
    assert(crate::tags::sumsq_v(ps.drop_last()) == 0);
    assert(crate::tags::sumsq_v(ps) == crate::tags::sumsq_v(ps.drop_last()) + ps.last().1
        * ps.last().1);
    assert(crate::tags::sumsq_v(ps) == v * v);
    let m = if v >= 0 {
        v
    } else {
        -v
    };
    assert(m * m == v * v) by (nonlinear_arith)
        requires
            m == v || m == -v,
    ;
    assert(m * m <= v * v < (m + 1) * (m + 1)) by (nonlinear_arith)
        requires
            m >= 1,
            m * m == v * v,
    ;
    crate::lemma_sqrt_unique((v * v) as nat, m as nat);
    let n = crate::sqrt_of(crate::tags::sumsq_v(ps) as nat) as int;
    assert(n == m);
    vstd::arithmetic::div_mod::lemma_div_multiples_vanish(SCALE as int, m);
    assert(m * (SCALE as int) == (SCALE as int) * m) by (nonlinear_arith);
    assert(crate::tags::norm_coord(v, n) == if v >= 0 {
        SCALE as int
    } else {
        -(SCALE as int)
    });
    let w = crate::tags::norm_coord(v, n);
    let u = crate::tags::unit_pairs(ps);
    assert(u =~= seq![(name, w)]);
    assert(u.drop_first() =~= Seq::<(Seq<char>, int)>::empty());
    assert(lookup(u, name) == w);
    assert(dot_v(u, u) == w * lookup(u, name) + dot_v(u.drop_first(), u));
    assert(w * w == (SCALE as int) * (SCALE as int)) by (nonlinear_arith)
        requires
            w == SCALE as int || w == -(SCALE as int),
    ;
    vstd::arithmetic::div_mod::lemma_div_multiples_vanish(SCALE as int, SCALE as int);
    assert((SCALE as int) * (SCALE as int) / (SCALE as int) == SCALE as int);
}

/// The squared scores of a vector whose every coordinate was rescaled by
/// the fixed denominator `n`, summed.
pub open spec fn sum_normsq(ps: Seq<(Seq<char>, int)>, n: int) -> int
    decreases ps.len(),
{
    if ps.len() == 0 {
        0
    } else {
        sum_normsq(ps.drop_last(), n) + crate::tags::norm_coord(ps.last().1, n)
            * crate::tags::norm_coord(ps.last().1, n)
    }
}

/// The score magnitudes of a vector, summed.
pub open spec fn sum_abs(ps: Seq<(Seq<char>, int)>) -> int
    decreases ps.len(),
{
    if ps.len() == 0 {
        0
    } else {
        sum_abs(ps.drop_last()) + (if ps.last().1 >= 0 {
            ps.last().1
        } else {
            -ps.last().1
        })
    }
}

proof fn lemma_sumsq_cons(u: Seq<(Seq<char>, int)>)
    requires
        u.len() >= 1,
    ensures
        crate::tags::sumsq_v(u) == u[0].1 * u[0].1 + crate::tags::sumsq_v(u.drop_first()),
    decreases u.len(),
{
    if u.len() == 1 {
        assert(u.drop_last() =~= Seq::<(Seq<char>, int)>::empty());
        assert(u.drop_first() =~= Seq::<(Seq<char>, int)>::empty());
        assert(u.last() == u[0]);
    } else {
        lemma_sumsq_cons(u.drop_last());
        assert(u.drop_last().drop_first() =~= u.drop_first().drop_last());
        assert(u.drop_first().last() == u.last());
        assert(u.drop_last()[0] == u[0]);
    }
}

proof fn lemma_dot_head_absent(a: Seq<(Seq<char>, int)>, u: Seq<(Seq<char>, int)>)
    requires
        u.len() >= 1,
        !crate::tags::has_key(a, u[0].0),
    ensures
        dot_v(a, u) == dot_v(a, u.drop_first()),
    decreases a.len(),
{
    if a.len() > 0 {
        assert(a[0].0 != u[0].0);
        assert(!crate::tags::has_key(a.drop_first(), u[0].0)) by {
            if crate::tags::has_key(a.drop_first(), u[0].0) {
                let i = choose|i: int|
                    0 <= i < a.drop_first().len() && #[trigger] a.drop_first()[i].0 == u[0].0;
                assert(a[i + 1].0 == u[0].0);
            }
        }
        lemma_dot_head_absent(a.drop_first(), u);
        assert(lookup(u, a[0].0) == lookup(u.drop_first(), a[0].0));
    }
}

/// The dot product of a vector with itself is the sum of its squared
/// scores, for a vector with distinct labels.
pub proof fn lemma_dot_self(u: Seq<(Seq<char>, int)>)
    requires
        unique_keys(u),
    ensures
        dot_v(u, u) == crate::tags::sumsq_v(u),
    decreases u.len(),
{
    if u.len() == 0 {
    } else {
        lemma_unique_drop_first(u);
        lemma_dot_head_absent(u.drop_first(), u);
        lemma_dot_self(u.drop_first());
        lemma_sumsq_cons(u);
        assert(lookup(u, u[0].0) == u[0].1);
    }
}

proof fn lemma_unit_sumsq_prefix(ps: Seq<(Seq<char>, int)>, n: int, i: int)
    requires
        0 <= i <= ps.len(),
        n == crate::sqrt_of(crate::tags::sumsq_v(ps) as nat) as int,
    ensures
        crate::tags::sumsq_v(crate::tags::unit_pairs(ps).take(i)) == sum_normsq(ps.take(i), n),
    decreases i,
{
    let u = crate::tags::unit_pairs(ps);
    if i > 0 {
        lemma_unit_sumsq_prefix(ps, n, i - 1);
        assert(u.take(i).drop_last() =~= u.take(i - 1));
        assert(ps.take(i).drop_last() =~= ps.take(i - 1));
        assert(u.take(i).last() == u[i - 1]);
        assert(ps.take(i).last() == ps[i - 1]);
        assert(u[i - 1].1 == crate::tags::norm_coord(ps[i - 1].1, n));
    }
}

proof fn lemma_normsq_elem(v: int, n: int)
    requires
        n >= 1,
    ensures
        crate::tags::norm_coord(v, n) * crate::tags::norm_coord(v, n) * n * n <= v * v * (
        SCALE as int) * (SCALE as int),
        crate::tags::norm_coord(v, n) * crate::tags::norm_coord(v, n) * n * n >= v * v * (
        SCALE as int) * (SCALE as int) - 2 * n * (SCALE as int) * (if v >= 0 {
            v
        } else {
            -v
        }),
        crate::tags::norm_coord(v, n) * crate::tags::norm_coord(v, n) >= 0,
{
    let c = SCALE as int;
    let m = if v >= 0 {
        v
    } else {
        -v
    };
    let x = (m * c) / n;
    assert(m * c >= 0) by (nonlinear_arith)
        requires
            m >= 0,
            c >= 0,
    ;
    vstd::arithmetic::div_mod::lemma_fundamental_div_mod(m * c, n);
    vstd::arithmetic::div_mod::lemma_div_pos_is_pos(m * c, n);
    let r = (m * c) % n;
    vstd::arithmetic::div_mod::lemma_remainder_lower(m * c, n);
    vstd::arithmetic::div_mod::lemma_remainder_upper(m * c, n);
    assert(0 <= r < n);
    assert(m * c == n * x + r);
    let w = crate::tags::norm_coord(v, n);
    assert(w == x || w == -x);
    assert(w * w == x * x) by (nonlinear_arith)
        requires
            w == x || w == -x,
    ;
    assert(x * n <= m * c) by (nonlinear_arith)
        requires
            m * c == n * x + r,
            r >= 0,
    ;
    assert(x * n >= m * c - n + 1) by (nonlinear_arith)
        requires
            m * c == n * x + r,
            r < n,
    ;
    assert(x * x * n * n <= (m * c) * (m * c)) by (nonlinear_arith)
        requires
            0 <= x * n <= m * c,
    ;
    assert((m * c) * (m * c) == m * m * c * c) by (nonlinear_arith);
    assert(m * m == v * v) by (nonlinear_arith)
        requires
            m == v || m == -v,
    ;
    assert(x * x * n * n >= v * v * c * c - 2 * n * c * m) by {
        if m * c >= n {
            assert(x * n >= m * c - n >= 0);
            assert(x * x * n * n >= (m * c - n) * (m * c - n)) by (nonlinear_arith)
                requires
                    x * n >= m * c - n >= 0,
            ;
            assert((m * c - n) * (m * c - n) >= m * m * c * c - 2 * n * c * m) by (nonlinear_arith);
        } else {
            assert(x == 0) by {
                vstd::arithmetic::div_mod::lemma_basic_div(m * c, n);
            }
            assert(m * c * (m * c) <= 2 * n * (m * c)) by (nonlinear_arith)
                requires
                    0 <= m * c < n,
            ;
            assert(0 >= m * m * c * c - 2 * n * c * m) by (nonlinear_arith)
                requires
                    m * c * (m * c) <= 2 * n * (m * c),
            ;
            assert(x * x * n * n == 0) by (nonlinear_arith)
                requires
                    x == 0,
            ;
        }
    }
    assert(x * x >= 0) by (nonlinear_arith);
}

proof fn lemma_sum_bounds(ps: Seq<(Seq<char>, int)>, n: int)
    requires
        n >= 1,
    ensures
        sum_normsq(ps, n) * n * n <= crate::tags::sumsq_v(ps) * (SCALE as int) * (SCALE as int),
        sum_normsq(ps, n) * n * n >= crate::tags::sumsq_v(ps) * (SCALE as int) * (SCALE as int) - 2
            * n * (SCALE as int) * sum_abs(ps),
        sum_normsq(ps, n) >= 0,
        sum_abs(ps) >= 0,
    decreases ps.len(),
{
    let c = SCALE as int;
    if ps.len() == 0 {
    } else {
        lemma_sum_bounds(ps.drop_last(), n);
        let v = ps.last().1;
        let w = crate::tags::norm_coord(v, n);
        lemma_normsq_elem(v, n);
        assert((sum_normsq(ps.drop_last(), n) + w * w) * n * n == sum_normsq(ps.drop_last(), n) * n
            * n + w * w * n * n) by (nonlinear_arith);
        assert((crate::tags::sumsq_v(ps.drop_last()) + v * v) * c * c == crate::tags::sumsq_v(
            ps.drop_last(),
        ) * c * c + v * v * c * c) by (nonlinear_arith);
        let mm = if v >= 0 {
            v
        } else {
            -v
        };
        assert(2 * n * c * (sum_abs(ps.drop_last()) + mm) == 2 * n * c * sum_abs(ps.drop_last())
            + 2 * n * c * mm) by (nonlinear_arith);
    }
}

proof fn lemma_sum_abs_bound(ps: Seq<(Seq<char>, int)>, b: int)
    requires
        b >= 0,
        forall|i: int| 0 <= i < ps.len() ==> -b <= #[trigger] ps[i].1 <= b,
    ensures
        sum_abs(ps) <= ps.len() * b,
    decreases ps.len(),
{
    if ps.len() > 0 {
        assert(forall|i: int|
            0 <= i < ps.drop_last().len() ==> -b <= #[trigger] ps.drop_last()[i].1 <= b);
        lemma_sum_abs_bound(ps.drop_last(), b);
        assert((ps.len() - 1) * b + b == ps.len() * b) by (nonlinear_arith);
    }
}

/// Unit scaling works: a vector that was rescaled to unit length has
/// distance zero to itself within the tolerance.  Fixed-point truncation
/// makes this false only for degenerate inputs, which the bounds below
/// exclude: the vector may carry at most five hundred labels, and its raw
/// length must be at least two thousandths.
pub proof fn lemma_unit_self_distance(ps: Seq<(Seq<char>, int)>)
    requires
        unique_keys(ps),
        ps.len() <= 500,
        crate::sqrt_of(crate::tags::sumsq_v(ps) as nat) >= 2000,
    ensures
        -TOL_MICRO <= cos_dist(
            crate::tags::unit_pairs(ps),
            crate::tags::unit_pairs(ps),
        ) <= TOL_MICRO,
{
    let c = SCALE as int;
    let u = crate::tags::unit_pairs(ps);
    let s = crate::tags::sumsq_v(ps);
    crate::tags::lemma_sumsq_nonneg(ps);
    let n = crate::sqrt_of(s as nat) as int;
    crate::lemma_sqrt_exists(s as nat);
    assert(crate::is_sqrt(crate::sqrt_of(s as nat), s as nat));
    assert(n * n <= s < (n + 1) * (n + 1));
    assert(unique_keys(u)) by {
        assert(forall|i: int| 0 <= i < u.len() ==> #[trigger] u[i].0 == ps[i].0);
    }
    lemma_dot_self(u);
    lemma_unit_sumsq_prefix(ps, n, ps.len() as int);
    assert(u.take(u.len() as int) =~= u);
    assert(ps.take(ps.len() as int) =~= ps);
    let dot = dot_v(u, u);
    assert(dot == sum_normsq(ps, n));
    assert(forall|i: int| 0 <= i < ps.len() ==> -n <= #[trigger] ps[i].1 <= n) by {
        assert forall|i: int| 0 <= i < ps.len() implies -n <= #[trigger] ps[i].1 <= n by {
            crate::tags::lemma_sumsq_term(ps, i);
            assert(-n <= ps[i].1 <= n) by (nonlinear_arith)
                requires
                    ps[i].1 * ps[i].1 <= s,
                    s < (n + 1) * (n + 1),
                    n >= 0,
            ;
        }
    }
    lemma_sum_abs_bound(ps, n);
    lemma_sum_bounds(ps, n);
    let m = ps.len() as int;
    assert(dot >= c * c - 2 * m * c) by (nonlinear_arith)
        requires
            dot * n * n >= s * c * c - 2 * n * c * sum_abs(ps),
            sum_abs(ps) <= m * n,
            s >= n * n,
            n >= 1,
            c >= 1,
            m >= 0,
            dot == sum_normsq(ps, n),
    ;
    assert(dot >= c * c - 1000 * c) by (nonlinear_arith)
        requires
            dot >= c * c - 2 * m * c,
            m <= 500,
            c >= 1,
    ;
    assert(dot <= c * c + 1000 * c) by (nonlinear_arith)
        requires
            dot * n * n <= s * c * c,
            s < (n + 1) * (n + 1),
            n >= 2000,
            c == 1_000_000,
    ;
    assert(dot >= 0) by (nonlinear_arith)
        requires
            dot >= c * c - 1000 * c,
            c == 1_000_000,
    ;
    assert(c * c - 1000 * c == c * (c - 1000)) by (nonlinear_arith);
    assert(c * c + 1000 * c == c * (c + 1000)) by (nonlinear_arith);
    vstd::arithmetic::div_mod::lemma_div_is_ordered(c * (c - 1000), dot, c);
    vstd::arithmetic::div_mod::lemma_div_is_ordered(dot, c * (c + 1000), c);
    vstd::arithmetic::div_mod::lemma_div_multiples_vanish(c - 1000, c);
    vstd::arithmetic::div_mod::lemma_div_multiples_vanish(c + 1000, c);
    assert(c - 1000 <= dot / c <= c + 1000);
}

/// A well-scaled tag vector: distinct labels, unit-scaled scores, and a
/// bounded label count.
pub open spec fn wf_unit_vec(v: Seq<(String, i64)>) -> bool {
    &&& unique_keys(pair_views(v))
    &&& v.len() <= MAX_TAGS
    &&& forall|i: int| 0 <= i < v.len() ==> -SCALE <= #[trigger] v[i].1 <= SCALE
}

fn lookup_exec(b: &Vec<(String, i64)>, k: &String) -> (r: i64)
    ensures
        r == lookup(pair_views(b@), k@),
        crate::tags::has_key(pair_views(b@), k@) || r == 0,
        (forall|i: int| 0 <= i < b@.len() ==> -SCALE <= #[trigger] b@[i].1 <= SCALE) ==> -SCALE
            <= r <= SCALE,
{
    let ghost pb = pair_views(b@);
    proof {
        assert(forall|i: int| 0 <= i < b@.len() ==> #[trigger] pb[i] == (b@[i].0@, b@[i].1 as int));
        assert(pb.skip(0) =~= pb);
    }
    let mut j: usize = 0;
    while j < b.len()
        invariant
            pb == pair_views(b@),
            pb.len() == b@.len(),
            forall|i: int| 0 <= i < b@.len() ==> #[trigger] pb[i] == (b@[i].0@, b@[i].1 as int),
            j <= b@.len(),
            lookup(pb, k@) == lookup(pb.skip(j as int), k@),
        decreases b@.len() - j,
    {
        proof {
            assert(pb.skip(j as int)[0] == pb[j as int]);
            assert(pb.skip(j as int).drop_first() =~= pb.skip(j + 1));
        }
        if b[j].0 == *k {
            proof {
                assert(pb[j as int].0 == k@);
            }
            return b[j].1;
        }
        j = j + 1;
    }
    proof {
        assert(pb.skip(b@.len() as int) =~= Seq::<(Seq<char>, int)>::empty());
    }
    0
}

/// The dot product of two unit-scaled tag vectors.
pub fn dot(a: &Vec<(String, i64)>, b: &Vec<(String, i64)>) -> (r: i64)
    requires
        a@.len() <= MAX_TAGS,
        forall|i: int| 0 <= i < a@.len() ==> -SCALE <= #[trigger] a@[i].1 <= SCALE,
        forall|i: int| 0 <= i < b@.len() ==> -SCALE <= #[trigger] b@[i].1 <= SCALE,
    ensures
        r == dot_v(pair_views(a@), pair_views(b@)),
        -(MAX_TAGS as int) * (SCALE as int) * (SCALE as int) <= r as int <= (MAX_TAGS as int) * (
        SCALE as int) * (SCALE as int),
{
    let ghost pa = pair_views(a@);
    let ghost pb = pair_views(b@);
    proof {
        assert(forall|i: int| 0 <= i < a@.len() ==> #[trigger] pa[i] == (a@[i].0@, a@[i].1 as int));
        assert(pa.skip(0) =~= pa);
    }
    let mut acc: i64 = 0;
    let mut i: usize = 0;
    while i < a.len()
        invariant
            pa == pair_views(a@),
            pb == pair_views(b@),
            pa.len() == a@.len(),
            a@.len() <= MAX_TAGS,
            forall|t: int| 0 <= t < a@.len() ==> #[trigger] pa[t] == (a@[t].0@, a@[t].1 as int),
            forall|t: int| 0 <= t < a@.len() ==> -SCALE <= #[trigger] a@[t].1 <= SCALE,
            forall|t: int| 0 <= t < b@.len() ==> -SCALE <= #[trigger] b@[t].1 <= SCALE,
            i <= a@.len(),
            dot_v(pa, pb) == acc + dot_v(pa.skip(i as int), pb),
            -(i as int) * (SCALE as int) * (SCALE as int) <= acc as int <= (i as int) * (
            SCALE as int) * (SCALE as int),
        decreases a@.len() - i,
    {
        proof {
            assert(pa.skip(i as int)[0] == pa[i as int]);
            assert(pa.skip(i as int).drop_first() =~= pa.skip(i + 1));
        }
        let w = lookup_exec(b, &a[i].0);
        proof {
            assert(-SCALE <= w <= SCALE);
            assert(-(SCALE as int) * (SCALE as int) <= (a@[i as int].1 as int) * (w as int) <= (
            SCALE as int) * (SCALE as int)) by (nonlinear_arith)
                requires
                    -SCALE <= a@[i as int].1 <= SCALE,
                    -SCALE <= w <= SCALE,
            ;
            assert((i as int + 1) * (SCALE as int) * (SCALE as int) == (i as int) * (SCALE as int)
                * (SCALE as int) + (SCALE as int) * (SCALE as int)) by (nonlinear_arith);
            assert((i as int + 1) * (SCALE as int) * (SCALE as int) <= (MAX_TAGS as int) * (
            SCALE as int) * (SCALE as int)) by (nonlinear_arith)
                requires
                    i as int + 1 <= MAX_TAGS as int,
            ;
        }
        acc = acc + a[i].1 * w;
        i = i + 1;
    }
    proof {
        assert(pa.skip(a@.len() as int) =~= Seq::<(Seq<char>, int)>::empty());
        assert((i as int) * (SCALE as int) * (SCALE as int) <= (MAX_TAGS as int) * (SCALE as int)
            * (SCALE as int)) by (nonlinear_arith)
            requires
                i as int <= MAX_TAGS as int,
    ;
    }
    acc
}

/// The cosine distance between two unit-scaled tag vectors, in millionths.
pub fn distance(a: &Vec<(String, i64)>, b: &Vec<(String, i64)>) -> (r: i64)
    requires
        a@.len() <= MAX_TAGS,
        forall|i: int| 0 <= i < a@.len() ==> -SCALE <= #[trigger] a@[i].1 <= SCALE,
        forall|i: int| 0 <= i < b@.len() ==> -SCALE <= #[trigger] b@[i].1 <= SCALE,
    ensures
        r == cos_dist(pair_views(a@), pair_views(b@)),
        -(MAX_TAGS as int) * (SCALE as int) <= r as int <= (MAX_TAGS as int) * (SCALE as int)
            + SCALE as int,
{
    let d = dot(a, b);
    proof {
        vstd::arithmetic::div_mod::lemma_div_is_ordered(
            if d >= 0 {
                d as int
            } else {
                -(d as int)
            },
            (MAX_TAGS as int) * (SCALE as int) * (SCALE as int),
            SCALE as int,
        );
        assert(((MAX_TAGS as int) * (SCALE as int) * (SCALE as int)) / (SCALE as int) == (
        MAX_TAGS as int) * (SCALE as int)) by {
            vstd::arithmetic::div_mod::lemma_div_multiples_vanish(
                (MAX_TAGS as int) * (SCALE as int),
                SCALE as int,
            );
            assert((SCALE as int) * ((MAX_TAGS as int) * (SCALE as int)) == (MAX_TAGS as int) * (
            SCALE as int) * (SCALE as int)) by (nonlinear_arith);
        }
        vstd::arithmetic::div_mod::lemma_div_pos_is_pos(
            if d >= 0 {
                d as int
            } else {
                -(d as int)
            },
            SCALE as int,
        );
    }
    if d >= 0 {
        let q = (d as u64) / 1_000_000;
        1_000_000 - (q as i64)
    } else {
        let q = ((-d) as u64) / 1_000_000;
        1_000_000 + (q as i64)
    }
}

} // verus!
