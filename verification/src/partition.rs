use vstd::prelude::*;
use crate::SCALE;
use crate::GroupError;
use crate::distance::cos_dist;
use crate::distance::distance;
use crate::distance::TOL_MICRO;
use crate::tags::MAX_TAGS;
use crate::tags::TaggedItem;
use crate::tags::pair_views;

verus! {

/// Largest item count one clustering call may receive; keeps every loss sum
/// inside the clustering library within `i64` range.
pub const MAX_ITEMS: usize = 10_000_000;

/// Largest magnitude of a dissimilarity entry handed to the clustering
/// library.
pub const ENTRY_CAP: i64 = 20_000_000_000;

/// The tag map of one item, viewed.
pub open spec fn item_tags(items: Seq<TaggedItem>, i: int) -> Seq<(Seq<char>, int)> {
    pair_views(items[i].tags@)
}

/// A well-formed item: its tag vector is unit-scaled with distinct labels.
pub open spec fn wf_item(it: TaggedItem) -> bool {
    crate::distance::wf_unit_vec(it.tags@)
}

pub open spec fn wf_items(items: Seq<TaggedItem>) -> bool {
    forall|i: int| 0 <= i < items.len() ==> wf_item(#[trigger] items[i])
}

/// Relies on kmedoids::random_initialization: it samples `k` distinct
/// indices below `n`, drawing from rand's StdRng seeded from `seed`.
#[verifier::external_body]
fn random_medoids(n: usize, k: usize, seed: u64) -> (r: Vec<usize>)
    requires
        k <= n,
    ensures
        r@.len() == k,
        forall|i: int| 0 <= i < k ==> #[trigger] r@[i] < n,
        forall|i: int, j: int| 0 <= i < j < k ==> r@[i] != r@[j],
{
    let mut rng = <rand::rngs::StdRng as rand::SeedableRng>::seed_from_u64(seed);
    kmedoids::random_initialization(n, k, &mut rng)
}

/// Relies on kmedoids::fasterpam over kmedoids' own LowerTriangle adapter,
/// whose diagonal is zero: it returns one cluster index per item, each
/// below the medoid count, and refines the medoids in place, keeping them
/// below `n`.
#[verifier::external_body]
fn fasterpam_assign(tri: &Vec<i64>, n: usize, meds: &mut Vec<usize>, maxiter: usize) -> (r: Vec<
    usize,
>)
    requires
        1 <= old(meds)@.len() <= n,
        n <= MAX_ITEMS,
        forall|i: int| 0 <= i < old(meds)@.len() ==> #[trigger] old(meds)@[i] < n,
        forall|i: int, j: int| 0 <= i < j < old(meds)@.len() ==> old(meds)@[i] != old(meds)@[j],
        tri@.len() == (n * (n - 1)) / 2,
        forall|i: int| 0 <= i < tri@.len() ==> -ENTRY_CAP <= #[trigger] tri@[i] <= ENTRY_CAP,
    ensures
        r@.len() == n,
        forall|i: int| 0 <= i < n ==> #[trigger] r@[i] < old(meds)@.len(),
        final(meds)@.len() == old(meds)@.len(),
        forall|i: int| 0 <= i < final(meds)@.len() ==> #[trigger] final(meds)@[i] < n,
{
    let mat = kmedoids::arrayadapter::LowerTriangle { n, data: tri.clone() };
    let result: (i64, Vec<usize>, usize, usize) = kmedoids::fasterpam(&mat, meds, maxiter);
    result.1
}

proof fn lemma_consecutive_even(n: int)
    requires
        n >= 0,
    ensures
        (n * (n - 1)) % 2 == 0,
        n * (n - 1) >= 0,
    decreases n,
{
    if n <= 1 {
        assert(n * (n - 1) == 0) by (nonlinear_arith)
            requires
                0 <= n <= 1,
        ;
    } else {
        lemma_consecutive_even(n - 1);
        assert(n * (n - 1) == (n - 1) * (n - 2) + 2 * (n - 1)) by (nonlinear_arith);
        assert(((n - 1) * (n - 2) + 2 * (n - 1)) % 2 == 0) by (nonlinear_arith)
            requires
                ((n - 1) * (n - 2)) % 2 == 0,
        ;
    }
}

/// Within the serialized lower triangle of an `x`-row matrix, the entry of
/// row `a` and column `b` stands before the row-`x` entries.
proof fn lemma_tri_index(a: int, b: int, x: int)
    requires
        0 <= b < a < x,
    ensures
        0 <= a * (a - 1) / 2 + b,
        a * (a - 1) / 2 + b < x * (x - 1) / 2,
{
    lemma_consecutive_even(a);
    lemma_consecutive_even(x);
    let m1 = a * (a - 1);
    let m2 = x * (x - 1);
    vstd::arithmetic::div_mod::lemma_fundamental_div_mod(m1, 2);
    vstd::arithmetic::div_mod::lemma_fundamental_div_mod(m2, 2);
    assert(m1 == 2 * (m1 / 2));
    assert(m2 == 2 * (m2 / 2));
    assert(m1 + 2 * b + 2 <= m2) by (nonlinear_arith)
        requires
            0 <= b < a < x,
            m1 == a * (a - 1),
            m2 == x * (x - 1),
    ;
    vstd::arithmetic::div_mod::lemma_div_pos_is_pos(m1, 2);
}

/// The dissimilarity matrix in serialized lower-triangle form, row by row
/// without the diagonal: the entry for `x > y` stands at `x (x - 1) / 2 + y`.
pub open spec fn tri_entries_ok(tri: Seq<i64>, items: Seq<TaggedItem>) -> bool {
    forall|x: int, y: int|
        0 <= y < x < items.len() ==> #[trigger] tri[x * (x - 1) / 2 + y] == cos_dist(
            item_tags(items, x),
            item_tags(items, y),
        )
}

/// Build the pairwise cosine-distance matrix, checking on the way that every
/// item is at distance zero from itself within tolerance; a violation is the
/// fatal internal-consistency error.
pub fn build_matrix(items: &Vec<TaggedItem>) -> (r: Result<Vec<i64>, GroupError>)
    requires
        wf_items(items@),
        items@.len() <= MAX_ITEMS,
    ensures
        match r {
            Ok(tri) => {
                &&& forall|i: int|
                    0 <= i < items@.len() ==> -TOL_MICRO <= #[trigger] cos_dist(
                        item_tags(items@, i),
                        item_tags(items@, i),
                    ) <= TOL_MICRO
                &&& tri@.len() == (items@.len() * (items@.len() - 1)) / 2
                &&& tri_entries_ok(tri@, items@)
                &&& forall|i: int|
                    0 <= i < tri@.len() ==> -ENTRY_CAP <= #[trigger] tri@[i] <= ENTRY_CAP
            },
            Err(e) => e == GroupError::SelfDistance && exists|i: int|
                0 <= i < items@.len() && !(-TOL_MICRO <= #[trigger] cos_dist(
                    item_tags(items@, i),
                    item_tags(items@, i),
                ) <= TOL_MICRO),
        },
{
    let n = items.len();
    let mut i: usize = 0;
    while i < n
        invariant
            n == items@.len(),
            wf_items(items@),
            i <= n,
            forall|t: int|
                0 <= t < i ==> -TOL_MICRO <= #[trigger] cos_dist(
                    item_tags(items@, t),
                    item_tags(items@, t),
                ) <= TOL_MICRO,
        decreases n - i,
    {
        let d = distance(&items[i].tags, &items[i].tags);
        if d > TOL_MICRO || d < -TOL_MICRO {
            proof {
                assert(d == cos_dist(item_tags(items@, i as int), item_tags(items@, i as int)));
                assert(!(-TOL_MICRO <= cos_dist(
                    item_tags(items@, i as int),
                    item_tags(items@, i as int),
                ) <= TOL_MICRO));
            }
            return Err(GroupError::SelfDistance);
        }
        proof {
            assert(d == cos_dist(item_tags(items@, i as int), item_tags(items@, i as int)));
        }
        i = i + 1;
    }
    let mut tri: Vec<i64> = Vec::new();
    let mut x: usize = 1;
    if n == 0 {
        return Ok(tri);
    }
    while x < n
        invariant
            n == items@.len(),
            wf_items(items@),
            n <= MAX_ITEMS,
            1 <= x <= n,
            tri@.len() == (x * (x - 1)) / 2,
            forall|a: int, b: int|
                0 <= b < a < x ==> #[trigger] tri@[a * (a - 1) / 2 + b] == cos_dist(
                    item_tags(items@, a),
                    item_tags(items@, b),
                ),
            forall|t: int| 0 <= t < tri@.len() ==> -ENTRY_CAP <= #[trigger] tri@[t] <= ENTRY_CAP,
        decreases n - x,
    {
        let mut y: usize = 0;
        while y < x
            invariant
                n == items@.len(),
                wf_items(items@),
                n <= MAX_ITEMS,
                1 <= x < n,
                0 <= y <= x,
                tri@.len() == (x * (x - 1)) / 2 + y,
                forall|a: int, b: int|
                    0 <= b < a < x ==> #[trigger] tri@[a * (a - 1) / 2 + b] == cos_dist(
                        item_tags(items@, a),
                        item_tags(items@, b),
                    ),
                forall|b: int|
                    0 <= b < y ==> #[trigger] tri@[x as int * (x - 1) / 2 + b] == cos_dist(
                        item_tags(items@, x as int),
                        item_tags(items@, b),
                    ),
                forall|t: int|
                    0 <= t < tri@.len() ==> -ENTRY_CAP <= #[trigger] tri@[t] <= ENTRY_CAP,
            decreases x - y,
        {
            let d = distance(&items[x].tags, &items[y].tags);
            proof {
                assert((MAX_TAGS as int) * (SCALE as int) + (SCALE as int) < (ENTRY_CAP as int));
                assert(tri@.len() == x as int * (x - 1) / 2 + y);
            }
            tri.push(d);
            proof {
                assert forall|a: int, b: int| 0 <= b < a < x implies #[trigger] tri@[a * (a - 1)
                    / 2 + b] == cos_dist(item_tags(items@, a), item_tags(items@, b)) by {
                    lemma_tri_index(a, b, x as int);
                }
                assert forall|b: int| 0 <= b < y as int + 1 implies #[trigger] tri@[x as int * (
                x as int - 1) / 2 + b] == cos_dist(item_tags(items@, x as int), item_tags(
                    items@,
                    b,
                )) by {
                    if b < y as int {
                        lemma_tri_index(x as int, b, x as int + 1);
                        assert(x as int * (x as int - 1) / 2 + b < tri@.len());
                    }
                }
            }
            y = y + 1;
        }
        proof {
            assert((x as int + 1) * (x as int + 1 - 1) / 2 == x as int * (x as int - 1) / 2
                + x as int) by (nonlinear_arith);
            assert forall|a: int, b: int| 0 <= b < a < x as int + 1 implies #[trigger] tri@[a * (a
                - 1) / 2 + b] == cos_dist(item_tags(items@, a), item_tags(items@, b)) by {
                if a == x as int {
                    assert(tri@[x as int * (x as int - 1) / 2 + b] == cos_dist(
                        item_tags(items@, x as int),
                        item_tags(items@, b),
                    ));
                }
            }
        }
        x = x + 1;
    }
    Ok(tri)
}

/// One resolved group: its representative item, its member item indices,
/// and the distinct labels observed among its members.
pub struct GroupResult {
    pub medoid: usize,
    pub members: Vec<usize>,
    pub labels: Vec<String>,
}

pub open spec fn seq_has_str(v: Seq<String>, k: Seq<char>) -> bool {
    exists|t: int| 0 <= t < v.len() && #[trigger] v[t]@ == k
}

pub open spec fn bucket_has(b: Seq<usize>, i: int) -> bool {
    exists|t: int| 0 <= t < b.len() && #[trigger] b[t] == i
}

/// The labels of a group are exactly the labels its members carry, each
/// label once.
pub open spec fn group_labels_ok(
    items: Seq<TaggedItem>,
    members: Seq<usize>,
    labels: Seq<String>,
) -> bool {
    &&& forall|t1: int, t2: int|
        0 <= t1 < t2 < labels.len() ==> #[trigger] labels[t1]@ != #[trigger] labels[t2]@
    &&& forall|kk: Seq<char>|
        #[trigger] seq_has_str(labels, kk) <==> exists|j: int|
            0 <= j < members.len() && crate::tags::has_key(
                #[trigger] item_tags(items, members[j] as int),
                kk,
            )
}

pub(crate) fn contains_str(v: &Vec<String>, k: &String) -> (r: bool)
    ensures
        r == seq_has_str(v@, k@),
{
    let mut t: usize = 0;
    while t < v.len()
        invariant
            t <= v@.len(),
            forall|u: int| 0 <= u < t ==> #[trigger] v@[u]@ != k@,
        decreases v@.len() - t,
    {
        if v[t] == *k {
            return true;
        }
        t = t + 1;
    }
    proof {
        if seq_has_str(v@, k@) {
            let u = choose|u: int| 0 <= u < v@.len() && #[trigger] v@[u]@ == k@;
        }
    }
    false
}

/// The de-duplicated union of the labels appearing among the given members.
fn label_union(items: &Vec<TaggedItem>, members: &Vec<usize>) -> (r: Vec<String>)
    requires
        wf_items(items@),
        forall|j: int| 0 <= j < members@.len() ==> #[trigger] members@[j] < items@.len(),
    ensures
        group_labels_ok(items@, members@, r@),
{
    let mut out: Vec<String> = Vec::new();
    let mut j: usize = 0;
    while j < members.len()
        invariant
            wf_items(items@),
            forall|u: int| 0 <= u < members@.len() ==> #[trigger] members@[u] < items@.len(),
            j <= members@.len(),
            forall|t1: int, t2: int|
                0 <= t1 < t2 < out@.len() ==> #[trigger] out@[t1]@ != #[trigger] out@[t2]@,
            forall|kk: Seq<char>|
                #[trigger] seq_has_str(out@, kk) <==> exists|u: int|
                    0 <= u < j && crate::tags::has_key(
                        #[trigger] item_tags(items@, members@[u] as int),
                        kk,
                    ),
        decreases members@.len() - j,
    {
        let m = members[j];
        let ghost pm = item_tags(items@, m as int);
        let tag_count = items[m].tags.len();
        let mut t: usize = 0;
        proof {
            assert(forall|u: int|
                0 <= u < items@[m as int].tags@.len() ==> #[trigger] pm[u] == (
                items@[m as int].tags@[u].0@,
                items@[m as int].tags@[u].1 as int,
                ));
        }
        while t < tag_count
            invariant
                wf_items(items@),
                forall|u: int| 0 <= u < members@.len() ==> #[trigger] members@[u] < items@.len(),
                j < members@.len(),
                m == members@[j as int],
                m < items@.len(),
                pm == item_tags(items@, m as int),
                tag_count == items@[m as int].tags@.len(),
                tag_count == pm.len(),
                forall|u: int|
                    0 <= u < items@[m as int].tags@.len() ==> #[trigger] pm[u] == (
                    items@[m as int].tags@[u].0@,
                    items@[m as int].tags@[u].1 as int,
                    ),
                t <= tag_count,
                forall|t1: int, t2: int|
                    0 <= t1 < t2 < out@.len() ==> #[trigger] out@[t1]@ != #[trigger] out@[t2]@,
                forall|kk: Seq<char>|
                    #[trigger] seq_has_str(out@, kk) <==> ((exists|u: int|
                        0 <= u < j && crate::tags::has_key(
                            #[trigger] item_tags(items@, members@[u] as int),
                            kk,
                        )) || (exists|u: int| 0 <= u < t && #[trigger] pm[u].0 == kk)),
            decreases tag_count - t,
        {
            let name = &items[m].tags[t].0;
            let ghost old_out = out@;
            if !contains_str(&out, name) {
                out.push(name.clone());
                proof {
                    assert forall|kk: Seq<char>| #[trigger] seq_has_str(out@, kk) implies ((
                    exists|u: int|
                        0 <= u < j && crate::tags::has_key(
                            #[trigger] item_tags(items@, members@[u] as int),
                            kk,
                        )) || (exists|u: int| 0 <= u < t + 1 && #[trigger] pm[u].0 == kk)) by {
                        let w = choose|w: int| 0 <= w < out@.len() && #[trigger] out@[w]@ == kk;
                        if w < old_out.len() {
                            assert(seq_has_str(old_out, kk));
                        } else {
                            assert(pm[t as int].0 == kk);
                        }
                    }
                    assert forall|kk: Seq<char>|
                        ((exists|u: int|
                            0 <= u < j && crate::tags::has_key(
                                #[trigger] item_tags(items@, members@[u] as int),
                                kk,
                            )) || (exists|u: int|
                            0 <= u < t + 1 && #[trigger] pm[u].0 == kk)) implies seq_has_str(
                        out@,
                        kk,
                    ) by {
                        if exists|u: int| 0 <= u < t + 1 && #[trigger] pm[u].0 == kk {
                            let u = choose|u: int| 0 <= u < t + 1 && #[trigger] pm[u].0 == kk;
                            if u < t {
                                assert(seq_has_str(old_out, kk));
                                let w = choose|w: int|
                                    0 <= w < old_out.len() && #[trigger] old_out[w]@ == kk;
                                assert(out@[w]@ == kk);
                            } else {
                                assert(out@[out@.len() - 1]@ == kk);
                            }
                        } else {
                            assert(seq_has_str(old_out, kk));
                            let w = choose|w: int|
                                0 <= w < old_out.len() && #[trigger] old_out[w]@ == kk;
                            assert(out@[w]@ == kk);
                        }
                    }
                }
            } else {
                proof {
                    assert forall|kk: Seq<char>| #[trigger] seq_has_str(out@, kk) implies ((
                    exists|u: int|
                        0 <= u < j && crate::tags::has_key(
                            #[trigger] item_tags(items@, members@[u] as int),
                            kk,
                        )) || (exists|u: int| 0 <= u < t + 1 && #[trigger] pm[u].0 == kk)) by {
                    }
                    assert forall|kk: Seq<char>|
                        ((exists|u: int|
                            0 <= u < j && crate::tags::has_key(
                                #[trigger] item_tags(items@, members@[u] as int),
                                kk,
                            )) || (exists|u: int|
                            0 <= u < t + 1 && #[trigger] pm[u].0 == kk)) implies seq_has_str(
                        out@,
                        kk,
                    ) by {
                        if exists|u: int| 0 <= u < t + 1 && #[trigger] pm[u].0 == kk {
                            let u = choose|u: int| 0 <= u < t + 1 && #[trigger] pm[u].0 == kk;
                            if u == t {
                                assert(pm[t as int].0 == kk);
                                assert(seq_has_str(out@, kk));
                            }
                        }
                    }
                }
            }
            t = t + 1;
        }
        proof {
            assert forall|kk: Seq<char>| #[trigger] seq_has_str(out@, kk) implies (exists|u: int|
                0 <= u < j + 1 && crate::tags::has_key(
                    #[trigger] item_tags(items@, members@[u] as int),
                    kk,
                )) by {
                if exists|u: int| 0 <= u < t && #[trigger] pm[u].0 == kk {
                    let u = choose|u: int| 0 <= u < t && #[trigger] pm[u].0 == kk;
                    assert(crate::tags::has_key(item_tags(items@, members@[j as int] as int), kk));
                }
            }
            assert forall|kk: Seq<char>|
                (exists|u: int|
                    0 <= u < j + 1 && crate::tags::has_key(
                        #[trigger] item_tags(items@, members@[u] as int),
                        kk,
                    )) implies seq_has_str(out@, kk) by {
                let u = choose|u: int|
                    0 <= u < j + 1 && crate::tags::has_key(
                        #[trigger] item_tags(items@, members@[u] as int),
                        kk,
                    );
                if u == j as int {
                    let w = choose|w: int| 0 <= w < pm.len() && #[trigger] pm[w].0 == kk;
                }
            }
        }
        j = j + 1;
    }
    out
}

/// The target group count: about fifty items per group, at least one group.
pub open spec fn target_k(n: nat) -> nat {
    if n / 50 >= 1 {
        n / 50
    } else {
        1
    }
}

pub fn target_group_count(n: usize) -> (r: usize)
    ensures
        r == target_k(n as nat),
{
    let k = n / 50;
    if k == 0 {
        1
    } else {
        k
    }
}

/// Item `i` is a member of group `c`.
pub open spec fn group_has(groups: Seq<GroupResult>, c: int, i: int) -> bool {
    0 <= c < groups.len() && bucket_has(groups[c].members@, i)
}

/// Item `i` is a member of some group.
pub open spec fn covered(groups: Seq<GroupResult>, i: int) -> bool {
    exists|c: int| #[trigger] group_has(groups, c, i)
}

spec fn label_used(assign: Seq<usize>, cc: int) -> bool {
    exists|i: int| 0 <= i < assign.len() && #[trigger] assign[i] == cc
}

spec fn label_emitted(srcs: Seq<int>, cc: int) -> bool {
    exists|p: int| 0 <= p < srcs.len() && #[trigger] srcs[p] == cc
}

proof fn lemma_strict_lower(s: Seq<int>, p: int)
    requires
        forall|a: int, b: int| 0 <= a < b < s.len() ==> s[a] < s[b],
        forall|a: int| 0 <= a < s.len() ==> #[trigger] s[a] >= 0,
        0 <= p < s.len(),
    ensures
        s[p] >= p,
    decreases p,
{
    if p > 0 {
        lemma_strict_lower(s, p - 1);
    }
}

/// Partition the items into about `n / 50` groups around medoids chosen and
/// refined by the clustering library.  Every item lands in exactly one
/// group; every emitted group is non-empty, and carries its medoid and the
/// union of its members' labels.  An empty input cannot satisfy the one
/// requested group and fails; an item whose self-distance is not zero
/// within tolerance is the fatal internal-consistency failure.
pub fn cut(items: &Vec<TaggedItem>, seed: u64) -> (r: Result<Vec<GroupResult>, GroupError>)
    requires
        wf_items(items@),
        items@.len() <= MAX_ITEMS,
    ensures
        match r {
            Ok(groups) => {
                &&& items@.len() >= 1
                &&& 1 <= groups@.len() <= target_k(items@.len() as nat)
                &&& forall|i: int| 0 <= i < items@.len() ==> #[trigger] covered(groups@, i)
                &&& forall|c1: int, c2: int, i: int|
                    group_has(groups@, c1, i) && group_has(groups@, c2, i) ==> c1 == c2
                &&& forall|c: int|
                    0 <= c < groups@.len() ==> #[trigger] groups@[c].members@.len() >= 1
                &&& forall|c: int|
                    0 <= c < groups@.len() ==> #[trigger] groups@[c].medoid < items@.len()
                &&& forall|c: int, t: int|
                    0 <= c < groups@.len() && 0 <= t < groups@[c].members@.len()
                        ==> #[trigger] groups@[c].members@[t] < items@.len()
                &&& forall|c: int|
                    0 <= c < groups@.len() ==> group_labels_ok(
                        items@,
                        #[trigger] groups@[c].members@,
                        groups@[c].labels@,
                    )
                &&& forall|i: int|
                    0 <= i < items@.len() ==> -TOL_MICRO <= #[trigger] cos_dist(
                        item_tags(items@, i),
                        item_tags(items@, i),
                    ) <= TOL_MICRO
            },
            Err(e) => (e == GroupError::ClusterFailed && items@.len() == 0) || (e
                == GroupError::SelfDistance && items@.len() >= 1 && exists|i: int|
                0 <= i < items@.len() && !(-TOL_MICRO <= #[trigger] cos_dist(
                    item_tags(items@, i),
                    item_tags(items@, i),
                ) <= TOL_MICRO)),
        },
{
    let n = items.len();
    if n == 0 {
        return Err(GroupError::ClusterFailed);
    }
    let k = target_group_count(n);
    proof {
        assert(k >= 1);
        assert(k <= n);
    }
    let tri = match build_matrix(items) {
        Ok(tri) => tri,
        Err(e) => {
            return Err(e);
        },
    };
    let mut meds = random_medoids(n, k, seed);
    let assign = fasterpam_assign(&tri, n, &mut meds, k);
    let mut groups: Vec<GroupResult> = Vec::new();
    let ghost mut srcs: Seq<int> = Seq::empty();
    let mut c: usize = 0;
    while c < k
        invariant
            n == items@.len(),
            wf_items(items@),
            1 <= k <= n,
            assign@.len() == n,
            forall|i: int| 0 <= i < n ==> #[trigger] assign@[i] < k,
            meds@.len() == k,
            forall|i: int| 0 <= i < k ==> #[trigger] meds@[i] < n,
            c <= k,
            srcs.len() == groups@.len(),
            forall|a: int, b: int| 0 <= a < b < srcs.len() ==> srcs[a] < srcs[b],
            forall|p: int| 0 <= p < srcs.len() ==> 0 <= #[trigger] srcs[p] < c,
            forall|p: int, i: int|
                0 <= p < srcs.len() && 0 <= i < n ==> ((assign@[i] == srcs[p])
                    <==> #[trigger] bucket_has(groups@[p].members@, i)),
            forall|p: int| 0 <= p < groups@.len() ==> #[trigger] groups@[p].members@.len() >= 1,
            forall|p: int, t: int|
                0 <= p < groups@.len() && 0 <= t < groups@[p].members@.len()
                    ==> #[trigger] groups@[p].members@[t] < n,
            forall|p: int|
                0 <= p < groups@.len() ==> #[trigger] groups@[p].medoid < n,
            forall|p: int|
                0 <= p < groups@.len() ==> group_labels_ok(
                    items@,
                    #[trigger] groups@[p].members@,
                    groups@[p].labels@,
                ),
            forall|cc: int|
                0 <= cc < c ==> (#[trigger] label_used(assign@, cc) <==> label_emitted(
                    srcs,
                    cc,
                )),
        decreases k - c,
    {
        let mut mem: Vec<usize> = Vec::new();
        let mut i: usize = 0;
        while i < n
            invariant
                n == assign@.len(),
                c < k,
                i <= n,
                forall|t: int| 0 <= t < mem@.len() ==> #[trigger] mem@[t] < i,
                forall|t: int| 0 <= t < mem@.len() ==> assign@[#[trigger] mem@[t] as int] == c,
                forall|i2: int| 0 <= i2 < i && assign@[i2] == c ==> bucket_has(mem@, i2),
            decreases n - i,
        {
            if assign[i] == c {
                let ghost mem_old = mem@;
                mem.push(i);
                proof {
                    assert(mem@[mem@.len() - 1] == i as int);
                    assert forall|i2: int| 0 <= i2 < i + 1 && assign@[i2] == c implies bucket_has(
                        mem@,
                        i2,
                    ) by {
                        if i2 < i as int {
                            assert(bucket_has(mem_old, i2));
                            let tx = choose|tx: int|
                                0 <= tx < mem_old.len() && #[trigger] mem_old[tx] == i2;
                            assert(mem@[tx] == i2);
                        } else {
                            assert(mem@[mem@.len() - 1] == i2);
                        }
                    }
                }
            } else {
                proof {
                    assert forall|i2: int| 0 <= i2 < i + 1 && assign@[i2] == c implies bucket_has(
                        mem@,
                        i2,
                    ) by {
                        if i2 < i as int {
                            assert(bucket_has(mem@, i2));
                        }
                    }
                }
            }
            i = i + 1;
        }
        if mem.len() > 0 {
            let labs = label_union(items, &mem);
            let md = meds[c];
            groups.push(GroupResult { medoid: md, members: mem, labels: labs });
            proof {
                let ghost srcs_old = srcs;
                srcs = srcs.push(c as int);
                assert(srcs.drop_last() =~= srcs_old);
                assert(groups@.last().members@.len() >= 1);
                assert forall|p: int, i2: int|
                    0 <= p < srcs.len() && 0 <= i2 < n implies ((assign@[i2] == srcs[p])
                    <==> #[trigger] bucket_has(groups@[p].members@, i2)) by {
                    if p < srcs.len() - 1 {
                        assert(groups@[p] == groups@.drop_last()[p]);
                    } else {
                        if assign@[i2] == c {
                            assert(bucket_has(groups@[p].members@, i2));
                        }
                        if bucket_has(groups@[p].members@, i2) {
                            let t = choose|t: int|
                                0 <= t < groups@[p].members@.len()
                                    && #[trigger] groups@[p].members@[t] == i2;
                        }
                    }
                }
                assert forall|cc: int|
                    0 <= cc < c + 1 implies (#[trigger] label_used(assign@, cc) <==> label_emitted(
                    srcs,
                    cc,
                )) by {
                    if cc < c as int {
                        if label_used(assign@, cc) {
                            assert(label_emitted(srcs_old, cc));
                            let p = choose|p: int|
                                0 <= p < srcs_old.len() && #[trigger] srcs_old[p] == cc;
                            assert(srcs[p] == cc);
                            assert(label_emitted(srcs, cc));
                        } else {
                            if label_emitted(srcs, cc) {
                                let p = choose|p: int|
                                    0 <= p < srcs.len() && #[trigger] srcs[p] == cc;
                                assert(p < srcs.len() - 1);
                                assert(groups@[p].members@.len() >= 1);
                                let i2 = groups@[p].members@[0];
                                assert(bucket_has(groups@[p].members@, i2 as int));
                                assert(assign@[i2 as int] == srcs[p]);
                                assert(label_used(assign@, cc));
                            }
                        }
                    } else {
                        assert(srcs[srcs.len() - 1] == cc);
                        assert(label_emitted(srcs, cc));
                        let t0 = groups@.last().members@[0];
                        assert(bucket_has(groups@.last().members@, t0 as int));
                        assert(assign@[t0 as int] == cc);
                        assert(label_used(assign@, cc));
                    }
                }
            }
        } else {
            proof {
                assert forall|cc: int|
                    0 <= cc < c + 1 implies (#[trigger] label_used(assign@, cc) <==> label_emitted(
                    srcs,
                    cc,
                )) by {
                    if cc == c as int {
                        if label_used(assign@, cc) {
                            let i2 = choose|i2: int|
                                0 <= i2 < assign@.len() && #[trigger] assign@[i2] == cc;
                            assert(bucket_has(mem@, i2));
                            let t = choose|t: int|
                                0 <= t < mem@.len() && #[trigger] mem@[t] == i2;
                        }
                        if label_emitted(srcs, cc) {
                            let p = choose|p: int| 0 <= p < srcs.len() && #[trigger] srcs[p] == cc;
                        }
                    }
                }
            }
        }
        c = c + 1;
    }
    proof {
        assert forall|i: int| 0 <= i < items@.len() implies #[trigger] covered(groups@, i) by {
            let cc = assign@[i] as int;
            assert(0 <= cc < k);
            assert(label_used(assign@, cc));
            assert(label_emitted(srcs, cc));
            let p = choose|p: int| 0 <= p < srcs.len() && #[trigger] srcs[p] == cc;
            assert(bucket_has(groups@[p].members@, i));
            assert(group_has(groups@, p, i));
        }
        assert forall|c1: int, c2: int, i: int|
            group_has(groups@, c1, i) && group_has(groups@, c2, i) implies c1 == c2 by {
            let t1 = choose|t: int|
                0 <= t < groups@[c1].members@.len() && #[trigger] groups@[c1].members@[t] == i;
            let t2 = choose|t: int|
                0 <= t < groups@[c2].members@.len() && #[trigger] groups@[c2].members@[t] == i;
            assert(0 <= i < n);
            assert(assign@[i] == srcs[c1]);
            assert(assign@[i] == srcs[c2]);
            if c1 < c2 {
                assert(srcs[c1] < srcs[c2]);
            }
            if c2 < c1 {
                assert(srcs[c2] < srcs[c1]);
            }
        }
        assert(groups@.len() <= k) by {
            if groups@.len() > k {
                lemma_strict_lower(srcs, srcs.len() - 1);
            }
        }
        assert(groups@.len() >= 1) by {
            assert(covered(groups@, 0));
            let cx = choose|cx: int| #[trigger] group_has(groups@, cx, 0);
        }
    }
    Ok(groups)
}

} // verus!
