use vstd::prelude::*;
use vstd::pervasive::VecAdditionalExecFns;
use vstd::string::StrSliceExecFns;
use crate::is_sqrt;
use crate::sqrt_of;
use crate::SCALE;
use crate::text::split_at;
use crate::text::split_char;
use crate::text::views;
use crate::text::is_space;

verus! {

/// Largest score magnitude an item may carry, in millionths.
pub const SCORE_CAP: i64 = 1_000_000_000_000;

/// Largest number of distinct tags one item may carry.
pub const MAX_TAGS: usize = 10_000;

pub open spec fn is_digit(c: char) -> bool {
    48 <= c as int <= 57
}

pub open spec fn digit_val(c: char) -> int {
    c as int - 48
}

/// The value of a string of decimal digits.
pub open spec fn digits_val(s: Seq<char>) -> int
    decreases s.len(),
{
    if s.len() == 0 {
        0
    } else {
        digits_val(s.drop_last()) * 10 + digit_val(s.last())
    }
}

pub open spec fn all_digits(s: Seq<char>) -> bool {
    forall|i: int| 0 <= i < s.len() ==> is_digit(s[i])
}

proof fn lemma_digits_val_nonneg(s: Seq<char>)
    requires
        all_digits(s),
    ensures
        digits_val(s) >= 0,
    decreases s.len(),
{
    if s.len() > 0 {
        assert(all_digits(s.drop_last()));
        lemma_digits_val_nonneg(s.drop_last());
    }
}

proof fn lemma_digits_val_prefix(s: Seq<char>, i: int)
    requires
        all_digits(s),
        0 <= i <= s.len(),
    ensures
        digits_val(s) >= digits_val(s.take(i)),
    decreases s.len() - i,
{
    if i < s.len() {
        lemma_digits_val_prefix(s, i + 1);
        assert(s.take(i + 1).drop_last() =~= s.take(i));
        assert(all_digits(s.take(i + 1)));
        lemma_digits_val_nonneg(s.take(i));
    } else {
        assert(s.take(i) =~= s);
    }
}

/// Ten to the power `e`.
pub open spec fn pow10(e: int) -> int
    decreases e,
{
    if e <= 0 {
        1
    } else {
        10 * pow10(e - 1)
    }
}

/// The sign and the unsigned body of a score string: a leading minus sign
/// negates the value.
pub open spec fn score_neg(s: Seq<char>) -> bool {
    s.len() > 0 && s[0] == '-'
}

pub open spec fn score_body(s: Seq<char>) -> Seq<char> {
    if score_neg(s) {
        s.drop_first()
    } else {
        s
    }
}

/// The integer-digit and fraction-digit parts of the body, split at the dot.
pub open spec fn score_pieces(s: Seq<char>) -> Seq<Seq<char>> {
    split_at(score_body(s), '.')
}

pub open spec fn score_frac_digits(s: Seq<char>) -> Seq<char> {
    if score_pieces(s).len() == 2 {
        score_pieces(s)[1]
    } else {
        Seq::empty()
    }
}

/// The magnitude of a score in millionths: fraction digits beyond the sixth
/// are cut off.
pub open spec fn score_magnitude(s: Seq<char>) -> int {
    let f = score_frac_digits(s);
    let k = if f.len() <= 6 {
        f.len() as int
    } else {
        6
    };
    digits_val(score_pieces(s)[0]) * 1_000_000 + digits_val(f.take(k)) * pow10(6 - k)
}

/// A score is valid when it is an optional minus sign, then digits with at
/// most one dot and at least one digit, and its magnitude stays under the
/// supported cap.
pub open spec fn valid_score(s: Seq<char>) -> bool {
    let p = score_pieces(s);
    &&& score_body(s).len() > 0
    &&& p.len() <= 2
    &&& all_digits(p[0])
    &&& (p.len() == 2 ==> all_digits(p[1]))
    &&& p[0].len() + score_frac_digits(s).len() > 0
    &&& score_magnitude(s) <= SCORE_CAP as int
}

/// The value of a valid score in millionths.
pub open spec fn score_micro(s: Seq<char>) -> int {
    if score_neg(s) {
        -score_magnitude(s)
    } else {
        score_magnitude(s)
    }
}

fn all_digits_exec(s: &String) -> (r: bool)
    ensures
        r == all_digits(s@),
{
    let n = s.as_str().unicode_len();
    let mut i: usize = 0;
    while i < n
        invariant
            n == s@.len(),
            i <= n,
            forall|j: int| 0 <= j < i ==> is_digit(s@[j]),
        decreases n - i,
    {
        let c = s.as_str().get_char(i);
        if (c as u32) < 48 || (c as u32) > 57 {
            return false;
        }
        i = i + 1;
    }
    true
}

/// The value of a digit string, or `None` once it passes the score cap.
fn digits_value_capped(s: &String, cap: u64) -> (r: Option<u64>)
    requires
        all_digits(s@),
        cap <= 1_000_000_000_000,
    ensures
        match r {
            Some(v) => v == digits_val(s@) && v <= cap,
            None => digits_val(s@) > cap,
        },
{
    let n = s.as_str().unicode_len();
    let mut acc: u64 = 0;
    let mut i: usize = 0;
    while i < n
        invariant
            n == s@.len(),
            i <= n,
            all_digits(s@),
            acc == digits_val(s@.take(i as int)),
            acc <= cap,
            cap <= 1_000_000_000_000,
        decreases n - i,
    {
        let c = s.as_str().get_char(i);
        let d: u64 = (c as u32 as u64) - 48;
        proof {
            assert(s@.take(i + 1).drop_last() =~= s@.take(i as int));
            assert(s@.take(i + 1).last() == s@[i as int]);
        }
        acc = acc * 10 + d;
        i = i + 1;
        if acc > cap {
            proof {
                lemma_digits_val_prefix(s@, i as int);
            }
            return None;
        }
    }
    proof {
        assert(s@.take(n as int) =~= s@);
    }
    Some(acc)
}

fn pow10_exec(e: usize) -> (r: u64)
    requires
        e <= 6,
    ensures
        r == pow10(e as int),
{
    proof {
        reveal_with_fuel(pow10, 8);
    }
    if e == 0 {
        1
    } else if e == 1 {
        10
    } else if e == 2 {
        100
    } else if e == 3 {
        1_000
    } else if e == 4 {
        10_000
    } else if e == 5 {
        100_000
    } else {
        proof {
            reveal_with_fuel(pow10, 8);
        }
        1_000_000
    }
}

/// Parse a score of the textual form `-?[0-9.]+` into millionths, or `None`
/// where the text is not a valid score.
pub fn parse_score(s: &str) -> (r: Option<i64>)
    ensures
        match r {
            Some(v) => valid_score(s@) && v == score_micro(s@) && -SCORE_CAP <= v <= SCORE_CAP,
            None => !valid_score(s@),
        },
{
    let n = s.unicode_len();
    let neg = n > 0 && s.get_char(0) == '-';
    let body = if neg {
        s.substring_char(1, n)
    } else {
        s.substring_char(0, n)
    };
    proof {
        assert(neg == score_neg(s@));
        assert(body@ =~= score_body(s@));
    }
    if body.unicode_len() == 0 {
        return None;
    }
    let pieces = split_char(body, '.');
    proof {
        assert(views(pieces@) == score_pieces(s@));
        assert(pieces@.len() > 0) by {
            crate::text::lemma_split_nonempty(body@, '.');
        }
        assert(pieces@.len() == score_pieces(s@).len());
        assert(forall|i: int|
            0 <= i < pieces@.len() ==> pieces@[i]@ == #[trigger] score_pieces(s@)[i]) by {
            assert(forall|i: int|
                0 <= i < pieces@.len() ==> #[trigger] views(pieces@)[i] == pieces@[i]@);
        }
    }
    if pieces.len() > 2 {
        return None;
    }
    if !all_digits_exec(&pieces[0]) {
        return None;
    }
    if pieces.len() == 2 && !all_digits_exec(&pieces[1]) {
        return None;
    }
    let frac_len = if pieces.len() == 2 {
        pieces[1].as_str().unicode_len()
    } else {
        0
    };
    proof {
        if pieces@.len() == 2 {
            assert(pieces@[1]@ == score_frac_digits(s@));
        } else {
            assert(score_frac_digits(s@) =~= Seq::<char>::empty());
        }
    }
    if pieces[0].as_str().unicode_len() == 0 && frac_len == 0 {
        return None;
    }
    let int_v = match digits_value_capped(&pieces[0], 1_000_000) {
        Some(v) => v,
        None => {
            proof {
                if valid_score(s@) {
                    let f = score_frac_digits(s@);
                    let kk: int = if f.len() <= 6 {
                        f.len() as int
                    } else {
                        6
                    };
                    lemma_digits_val_take6_bound(f, kk);
                }
            }
            return None;
        },
    };
    let k: usize = if frac_len <= 6 {
        frac_len
    } else {
        6
    };
    let frac_digits = if pieces.len() == 2 {
        pieces[1].as_str().substring_char(0, k)
    } else {
        ""
    };
    let frac_str = frac_digits.to_owned();
    proof {
        if pieces@.len() == 2 {
            assert(frac_str@ == score_frac_digits(s@).take(k as int));
            assert(all_digits(frac_str@));
        } else {
            assert(score_frac_digits(s@).take(k as int) =~= Seq::<char>::empty());
            assert(frac_str@ =~= Seq::<char>::empty()) by {
                reveal_strlit("");
            }
        }
    }
    let frac_v = match digits_value_capped(&frac_str, 1_000_000) {
        Some(v) => v,
        None => {
            proof {
                lemma_digits_val_take6_bound(score_frac_digits(s@), k as int);
            }
            return None;
        },
    };
    let mult = pow10_exec(6 - k);
    proof {
        lemma_digits_val_take6_bound(score_frac_digits(s@), k as int);
        lemma_pow10_bound(6 - k as int);
    }
    let magnitude: u64 = int_v * 1_000_000 + frac_v * mult;
    if magnitude > 1_000_000_000_000 {
        return None;
    }
    if neg {
        Some(-(magnitude as i64))
    } else {
        Some(magnitude as i64)
    }
}

/// `s` with leading whitespace removed.
pub open spec fn trim_front(s: Seq<char>) -> Seq<char>
    decreases s.len(),
{
    if s.len() > 0 && is_space(s[0]) {
        trim_front(s.drop_first())
    } else {
        s
    }
}

/// `s` with trailing whitespace removed.
pub open spec fn trim_back(s: Seq<char>) -> Seq<char>
    decreases s.len(),
{
    if s.len() > 0 && is_space(s.last()) {
        trim_back(s.drop_last())
    } else {
        s
    }
}

/// `s` with surrounding whitespace removed, as `str::trim` gives it.
pub open spec fn trimmed(s: Seq<char>) -> Seq<char> {
    trim_back(trim_front(s))
}

/// The index of the last colon of `s`, or -1 where there is none.
pub open spec fn last_colon(s: Seq<char>) -> int
    decreases s.len(),
{
    if s.len() == 0 {
        -1
    } else if s.last() == ':' {
        s.len() - 1
    } else {
        last_colon(s.drop_last())
    }
}

/// What stands between the outer parentheses of a trimmed tag.
pub open spec fn tag_inner(s: Seq<char>) -> Seq<char> {
    trimmed(s).subrange(1, trimmed(s).len() - 1)
}

/// A tag is valid when, after trimming, it has the form `(name:score)`: the
/// name is everything up to the last colon and must be non-empty, and the
/// score after that colon must be a valid score.
pub open spec fn valid_tag(s: Seq<char>) -> bool {
    let t = trimmed(s);
    &&& t.len() >= 2
    &&& t[0] == '('
    &&& t.last() == ')'
    &&& last_colon(tag_inner(s)) >= 1
    &&& valid_score(tag_inner(s).skip(last_colon(tag_inner(s)) + 1))
}

pub open spec fn tag_name(s: Seq<char>) -> Seq<char> {
    tag_inner(s).take(last_colon(tag_inner(s)))
}

pub open spec fn tag_score(s: Seq<char>) -> int {
    score_micro(tag_inner(s).skip(last_colon(tag_inner(s)) + 1))
}

/// Parse one tag of the textual form `(name:score)`, giving its name and its
/// score in millionths, or `None` where the text is not a valid tag.
pub fn parse_tag(s: &str) -> (r: Option<(String, i64)>)
    ensures
        match r {
            Some(p) => valid_tag(s@) && p.0@ == tag_name(s@) && p.1 == tag_score(s@)
                && -SCORE_CAP <= p.1 <= SCORE_CAP,
            None => !valid_tag(s@),
        },
{
    let n = s.unicode_len();
    let mut a: usize = 0;
    proof {
        assert(s@.skip(0) =~= s@);
    }
    while a < n && s.get_char(a).is_whitespace()
        invariant
            n == s@.len(),
            a <= n,
            trim_front(s@) == trim_front(s@.skip(a as int)),
        decreases n - a,
    {
        proof {
            assert(s@.skip(a as int)[0] == s@[a as int]);
            assert(s@.skip(a as int).drop_first() =~= s@.skip(a + 1));
        }
        a = a + 1;
    }
    proof {
        assert(s@.skip(a as int) =~= s@.subrange(a as int, n as int));
        if a < n {
            assert(s@.skip(a as int)[0] == s@[a as int]);
        }
        assert(trim_front(s@) == s@.subrange(a as int, n as int));
    }
    let mut b: usize = n;
    while b > a && s.get_char(b - 1).is_whitespace()
        invariant
            n == s@.len(),
            a <= b <= n,
            trim_front(s@) == s@.subrange(a as int, n as int),
            trim_back(s@.subrange(a as int, n as int)) == trim_back(
                s@.subrange(a as int, b as int),
            ),
        decreases b,
    {
        proof {
            assert(s@.subrange(a as int, b as int).last() == s@[b - 1]);
            assert(s@.subrange(a as int, b as int).drop_last() =~= s@.subrange(a as int, b - 1));
        }
        b = b - 1;
    }
    proof {
        if b > a {
            assert(s@.subrange(a as int, b as int).last() == s@[b - 1]);
        }
        assert(trimmed(s@) == s@.subrange(a as int, b as int));
    }
    let t = s.substring_char(a, b);
    let m = b - a;
    proof {
        assert(t@ == trimmed(s@));
    }
    if m < 2 {
        return None;
    }
    if !(t.get_char(0) == '(') {
        return None;
    }
    if !(t.get_char(m - 1) == ')') {
        return None;
    }
    let inner = t.substring_char(1, m - 1);
    let inner_len = m - 2;
    proof {
        assert(inner@ == tag_inner(s@));
        assert(trimmed(s@).last() == t@[m - 1]);
    }
    let mut i: usize = inner_len;
    let mut colon: usize = 0;
    let mut found = false;
    proof {
        assert(inner@.take(inner_len as int) =~= inner@);
    }
    while i > 0 && !found
        invariant
            inner_len == inner@.len(),
            i <= inner_len,
            !found ==> last_colon(inner@) == last_colon(inner@.take(i as int)),
            found ==> i >= 1 && last_colon(inner@) == colon && colon == i - 1,
        decreases i + (if found {
            0int
        } else {
            1int
        }),
    {
        proof {
            assert(inner@.take(i as int).last() == inner@[i - 1]);
            assert(inner@.take(i as int).drop_last() =~= inner@.take(i - 1));
        }
        if inner.get_char(i - 1) == ':' {
            colon = i - 1;
            found = true;
        } else {
            i = i - 1;
        }
    }
    proof {
        if !found {
            assert(inner@.take(0) =~= Seq::<char>::empty());
            assert(last_colon(inner@) == -1);
        }
    }
    if !found {
        return None;
    }
    if colon < 1 {
        return None;
    }
    let name = inner.substring_char(0, colon);
    let score_str = inner.substring_char(colon + 1, inner_len);
    proof {
        assert(name@ == tag_name(s@));
        assert(score_str@ =~= tag_inner(s@).skip(last_colon(tag_inner(s@)) + 1));
    }
    match parse_score(score_str) {
        Some(v) => Some((name.to_owned(), v)),
        None => None,
    }
}

proof fn lemma_pow10_bound(e: int)
    requires
        0 <= e <= 6,
    ensures
        1 <= pow10(e) <= 1_000_000,
{
    reveal_with_fuel(pow10, 8);
    if e == 0 {
    } else if e == 1 {
    } else if e == 2 {
    } else if e == 3 {
    } else if e == 4 {
    } else if e == 5 {
    } else {
        assert(pow10(6) == 1_000_000);
    }
}

proof fn lemma_digits_val_take6_bound(f: Seq<char>, k: int)
    requires
        all_digits(f),
        0 <= k <= 6,
        k <= f.len(),
        k == if f.len() <= 6 {
            f.len() as int
        } else {
            6
        },
    ensures
        digits_val(f.take(k)) * pow10(6 - k) < 1_000_000,
        digits_val(f.take(k)) * pow10(6 - k) >= 0,
        0 <= digits_val(f.take(k)) < 1_000_000,
    decreases k,
{
    assert(all_digits(f.take(k)));
    lemma_digits_val_nonneg(f.take(k));
    lemma_digits_bound(f.take(k));
    lemma_pow10_bound(6 - k);
    assert(digits_val(f.take(k)) < pow10(k));
    assert(pow10(k) * pow10(6 - k) == pow10(6)) by {
        lemma_pow10_add(k, 6 - k);
    }
    assert(pow10(6) == 1_000_000) by {
        reveal_with_fuel(pow10, 8);
    }
    assert(digits_val(f.take(k)) * pow10(6 - k) < pow10(k) * pow10(6 - k)) by (nonlinear_arith)
        requires
            digits_val(f.take(k)) < pow10(k),
            pow10(6 - k) >= 1,
    ;
    assert(digits_val(f.take(k)) * pow10(6 - k) >= 0) by (nonlinear_arith)
        requires
            digits_val(f.take(k)) >= 0,
            pow10(6 - k) >= 1,
    ;
    assert(pow10(k) <= 1_000_000) by (nonlinear_arith)
        requires
            pow10(k) * pow10(6 - k) == 1_000_000,
            pow10(6 - k) >= 1,
            pow10(k) >= 1,
    ;
}

proof fn lemma_digits_bound(s: Seq<char>)
    requires
        all_digits(s),
    ensures
        digits_val(s) < pow10(s.len() as int),
    decreases s.len(),
{
    if s.len() == 0 {
    } else {
        assert(all_digits(s.drop_last()));
        lemma_digits_bound(s.drop_last());
        assert(digits_val(s.drop_last()) <= pow10(s.len() - 1) - 1);
        assert(pow10(s.len() as int) == 10 * pow10(s.len() - 1));
        assert(digits_val(s.drop_last()) * 10 <= (pow10(s.len() - 1) - 1) * 10) by (nonlinear_arith)
            requires
                digits_val(s.drop_last()) <= pow10(s.len() - 1) - 1,
        ;
    }
}

proof fn lemma_pow10_add(a: int, b: int)
    requires
        a >= 0,
        b >= 0,
    ensures
        pow10(a) * pow10(b) == pow10(a + b),
    decreases a,
{
    if a == 0 {
    } else {
        lemma_pow10_add(a - 1, b);
        assert(pow10(a) * pow10(b) == 10 * (pow10(a - 1) * pow10(b))) by (nonlinear_arith)
            requires
                pow10(a) == 10 * pow10(a - 1),
        ;
    }
}

/// One annotated item: its identifier and its unit-scaled tag map.
pub struct TaggedItem {
    pub id: String,
    pub tags: Vec<(String, i64)>,
}

/// The views of a vector of (name, score) pairs.
pub open spec fn pair_views(s: Seq<(String, i64)>) -> Seq<(Seq<char>, int)> {
    s.map_values(|p: (String, i64)| (p.0@, p.1 as int))
}

pub open spec fn has_key(ps: Seq<(Seq<char>, int)>, k: Seq<char>) -> bool {
    exists|i: int| 0 <= i < ps.len() && #[trigger] ps[i].0 == k
}

pub open spec fn index_of_key(ps: Seq<(Seq<char>, int)>, k: Seq<char>) -> int {
    choose|i: int| 0 <= i < ps.len() && #[trigger] ps[i].0 == k
}

pub open spec fn unique_keys(ps: Seq<(Seq<char>, int)>) -> bool {
    forall|i: int, j: int|
        0 <= i < j < ps.len() ==> #[trigger] ps[i].0 != #[trigger] ps[j].0
}

/// The (name, score) pairs of the valid tags among the fragments, in order.
pub open spec fn valid_pairs(frags: Seq<Seq<char>>) -> Seq<(Seq<char>, int)>
    decreases frags.len(),
{
    if frags.len() == 0 {
        Seq::empty()
    } else if valid_tag(frags.last()) {
        valid_pairs(frags.drop_last()).push(
            (tag_name(frags.last()), tag_score(frags.last())),
        )
    } else {
        valid_pairs(frags.drop_last())
    }
}

/// Collapse repeated names: the earlier entry keeps its place, the later
/// score wins.
pub open spec fn dedup_pairs(ps: Seq<(Seq<char>, int)>) -> Seq<(Seq<char>, int)>
    decreases ps.len(),
{
    if ps.len() == 0 {
        Seq::empty()
    } else {
        let d = dedup_pairs(ps.drop_last());
        let p = ps.last();
        if has_key(d, p.0) {
            d.update(index_of_key(d, p.0), p)
        } else {
            d.push(p)
        }
    }
}

/// The tag map of one comma-separated tag list: tags are split at commas,
/// invalid tags are skipped, and a repeated name keeps the last score.
pub open spec fn tag_pairs(s: Seq<char>) -> Seq<(Seq<char>, int)> {
    dedup_pairs(valid_pairs(split_at(s, ',')))
}

pub proof fn lemma_dedup_unique(ps: Seq<(Seq<char>, int)>)
    ensures
        unique_keys(dedup_pairs(ps)),
    decreases ps.len(),
{
    if ps.len() > 0 {
        lemma_dedup_unique(ps.drop_last());
        let d = dedup_pairs(ps.drop_last());
        let p = ps.last();
        if has_key(d, p.0) {
            let i = index_of_key(d, p.0);
            assert(0 <= i < d.len() && d[i].0 == p.0);
            assert(unique_keys(d.update(i, p)));
        } else {
            assert(unique_keys(d.push(p)));
        }
    }
}

proof fn lemma_valid_pairs_bounded(frags: Seq<Seq<char>>)
    ensures
        forall|i: int|
            0 <= i < valid_pairs(frags).len() ==> -(SCORE_CAP as int) <= #[trigger] valid_pairs(
                frags,
            )[i].1 <= SCORE_CAP as int,
    decreases frags.len(),
{
    if frags.len() > 0 {
        lemma_valid_pairs_bounded(frags.drop_last());
        let vp = valid_pairs(frags.drop_last());
        if valid_tag(frags.last()) {
            lemma_score_micro_bounded(
                tag_inner(frags.last()).skip(last_colon(tag_inner(frags.last())) + 1),
            );
            assert(valid_pairs(frags) == vp.push(
                (tag_name(frags.last()), tag_score(frags.last())),
            ));
            assert forall|i: int| 0 <= i < valid_pairs(frags).len() implies -(SCORE_CAP as int)
                <= #[trigger] valid_pairs(frags)[i].1 <= SCORE_CAP as int by {
                if i < vp.len() {
                    assert(valid_pairs(frags)[i] == vp[i]);
                }
            }
        } else {
            assert(valid_pairs(frags) == vp);
        }
    }
}

proof fn lemma_score_micro_bounded(s: Seq<char>)
    requires
        valid_score(s),
    ensures
        -(SCORE_CAP as int) <= score_micro(s) <= SCORE_CAP as int,
{
    let f = score_frac_digits(s);
    let kk: int = if f.len() <= 6 {
        f.len() as int
    } else {
        6
    };
    lemma_digits_val_take6_bound(f, kk);
    assert(all_digits(score_pieces(s)[0]));
    lemma_digits_val_nonneg(score_pieces(s)[0]);
}

/// Parse a comma-separated tag list into its tag map: one entry per distinct
/// name among the valid tags, a repeated name keeping the last score.
pub fn parse_tag_list(s: &str) -> (r: Vec<(String, i64)>)
    ensures
        pair_views(r@) == tag_pairs(s@),
        unique_keys(pair_views(r@)),
        forall|i: int| 0 <= i < r@.len() ==> -SCORE_CAP <= #[trigger] r@[i].1 <= SCORE_CAP,
{
    let frags = split_char(s, ',');
    let ghost fv = views(frags@);
    proof {
        assert(forall|i: int| 0 <= i < frags@.len() ==> #[trigger] views(frags@)[i] == frags@[i]@);
        assert(fv.take(0) =~= Seq::<Seq<char>>::empty());
    }
    let mut out: Vec<(String, i64)> = Vec::new();
    let mut j: usize = 0;
    proof {
        assert(pair_views(out@) =~= Seq::<(Seq<char>, int)>::empty());
    }
    while j < frags.len()
        invariant
            fv == views(frags@),
            fv == split_at(s@, ','),
            j <= frags@.len(),
            fv.len() == frags@.len(),
            forall|i: int| 0 <= i < frags@.len() ==> frags@[i]@ == #[trigger] fv[i],
            pair_views(out@) == dedup_pairs(valid_pairs(fv.take(j as int))),
            unique_keys(pair_views(out@)),
            out@.len() == pair_views(out@).len(),
            forall|i: int| 0 <= i < out@.len() ==> -SCORE_CAP <= #[trigger] out@[i].1 <= SCORE_CAP,
        decreases frags@.len() - j,
    {
        let ghost vp_old = valid_pairs(fv.take(j as int));
        let ghost d_old = pair_views(out@);
        proof {
            assert(fv.take(j + 1).drop_last() =~= fv.take(j as int));
            assert(fv.take(j + 1).last() == fv[j as int]);
        }
        match parse_tag(frags[j].as_str()) {
            None => {
                proof {
                    assert(valid_pairs(fv.take(j + 1)) =~= vp_old);
                }
            },
            Some(pair) => {
                let (name, score) = pair;
                let ghost npair = (name@, score as int);
                proof {
                    assert(valid_pairs(fv.take(j + 1)) =~= vp_old.push(npair));
                    assert(vp_old.push(npair).drop_last() =~= vp_old);
                    assert(dedup_pairs(vp_old.push(npair)) == if has_key(d_old, name@) {
                        d_old.update(index_of_key(d_old, name@), npair)
                    } else {
                        d_old.push(npair)
                    });
                }
                let mut t: usize = 0;
                let mut found = false;
                while t < out.len() && !found
                    invariant
                        t <= out@.len(),
                        !found ==> forall|u: int|
                            0 <= u < t ==> #[trigger] out@[u].0@ != name@,
                        found ==> t < out@.len() && out@[t as int].0@ == name@,
                    decreases out@.len() - t + (if found {
                        0int
                    } else {
                        1int
                    }),
                {
                    if out[t].0 == name {
                        found = true;
                    } else {
                        t = t + 1;
                    }
                }
                if found {
                    proof {
                        assert(d_old[t as int].0 == name@);
                        assert(has_key(d_old, name@));
                        let i = index_of_key(d_old, name@);
                        assert(0 <= i < d_old.len() && d_old[i].0 == name@);
                        assert(i == t as int);
                    }
                    out.set(t, (name, score));
                    proof {
                        assert(pair_views(out@) =~= d_old.update(t as int, npair));
                    }
                } else {
                    proof {
                        assert(!has_key(d_old, name@)) by {
                            if has_key(d_old, name@) {
                                let i = index_of_key(d_old, name@);
                                assert(0 <= i < d_old.len() && d_old[i].0 == name@);
                                assert(out@[i].0@ != name@);
                            }
                        }
                    }
                    out.push((name, score));
                    proof {
                        assert(pair_views(out@) =~= d_old.push(npair));
                    }
                }
            },
        }
        j = j + 1;
    }
    proof {
        assert(fv.take(frags@.len() as int) =~= fv);
    }
    out
}

/// The sum of the squared scores of a tag map.
pub open spec fn sumsq_v(ps: Seq<(Seq<char>, int)>) -> int
    decreases ps.len(),
{
    if ps.len() == 0 {
        0
    } else {
        sumsq_v(ps.drop_last()) + ps.last().1 * ps.last().1
    }
}

pub proof fn lemma_sumsq_term(ps: Seq<(Seq<char>, int)>, i: int)
    requires
        0 <= i < ps.len(),
    ensures
        ps[i].1 * ps[i].1 <= sumsq_v(ps),
        sumsq_v(ps) >= 0,
    decreases ps.len(),
{
    lemma_sumsq_nonneg(ps);
    if i == ps.len() - 1 {
        lemma_sumsq_nonneg(ps.drop_last());
    } else {
        lemma_sumsq_term(ps.drop_last(), i);
        assert(ps.drop_last()[i] == ps[i]);
        assert(ps.last().1 * ps.last().1 >= 0) by (nonlinear_arith);
    }
}

pub proof fn lemma_sumsq_nonneg(ps: Seq<(Seq<char>, int)>)
    ensures
        sumsq_v(ps) >= 0,
    decreases ps.len(),
{
    if ps.len() > 0 {
        lemma_sumsq_nonneg(ps.drop_last());
        assert(ps.last().1 * ps.last().1 >= 0) by (nonlinear_arith);
    }
}

/// A coordinate scaled to unit length: `v * SCALE / n`, rounded toward zero.
pub open spec fn norm_coord(v: int, n: int) -> int {
    if v >= 0 {
        (v * SCALE) / n
    } else {
        -(((-v) * SCALE) / n)
    }
}

/// The tag map rescaled so that the vector has unit length, within
/// fixed-point truncation.
pub open spec fn unit_pairs(ps: Seq<(Seq<char>, int)>) -> Seq<(Seq<char>, int)> {
    ps.map_values(
        |p: (Seq<char>, int)| (p.0, norm_coord(p.1, sqrt_of(sumsq_v(ps) as nat) as int)),
    )
}

/// Scale an item's raw tag scores so the vector has unit length; `None`
/// where every score is zero (such an item is dropped).
pub fn normalize(raw: &Vec<(String, i64)>) -> (r: Option<Vec<(String, i64)>>)
    requires
        raw@.len() <= MAX_TAGS,
        forall|i: int| 0 <= i < raw@.len() ==> -SCORE_CAP <= #[trigger] raw@[i].1 <= SCORE_CAP,
    ensures
        match r {
            None => sumsq_v(pair_views(raw@)) == 0,
            Some(o) => {
                &&& sumsq_v(pair_views(raw@)) > 0
                &&& pair_views(o@) == unit_pairs(pair_views(raw@))
                &&& o@.len() == raw@.len()
                &&& forall|i: int| 0 <= i < o@.len() ==> -SCALE <= #[trigger] o@[i].1 <= SCALE
                &&& forall|i: int| 0 <= i < o@.len() ==> #[trigger] o@[i].0@ == raw@[i].0@
            },
        },
{
    let ghost pv = pair_views(raw@);
    proof {
        assert(pv.len() == raw@.len());
        assert(forall|i: int|
            0 <= i < raw@.len() ==> #[trigger] pv[i] == (raw@[i].0@, raw@[i].1 as int));
        assert(pv.take(0) =~= Seq::<(Seq<char>, int)>::empty());
    }
    let mut s: u128 = 0;
    let mut i: usize = 0;
    while i < raw.len()
        invariant
            pv == pair_views(raw@),
            pv.len() == raw@.len(),
            forall|t: int|
                0 <= t < raw@.len() ==> #[trigger] pv[t] == (raw@[t].0@, raw@[t].1 as int),
            raw@.len() <= MAX_TAGS,
            forall|t: int| 0 <= t < raw@.len() ==> -SCORE_CAP <= #[trigger] raw@[t].1 <= SCORE_CAP,
            i <= raw@.len(),
            s == sumsq_v(pv.take(i as int)),
            s <= (i as int) * (SCORE_CAP as int) * (SCORE_CAP as int),
        decreases raw@.len() - i,
    {
        let v: i64 = raw[i].1;
        proof {
            assert(pv.take(i + 1).drop_last() =~= pv.take(i as int));
            assert(pv.take(i + 1).last() == pv[i as int]);
            assert((v as i128) * (v as i128) >= 0) by (nonlinear_arith);
            assert((v as i128) * (v as i128) <= (SCORE_CAP as i128) * (SCORE_CAP as i128))
                by (nonlinear_arith)
                requires
                    -SCORE_CAP <= v <= SCORE_CAP,
            ;
        }
        let sq: u128 = ((v as i128) * (v as i128)) as u128;
        s = s + sq;
        i = i + 1;
    }
    proof {
        assert(pv.take(raw@.len() as int) =~= pv);
    }
    if s == 0 {
        return None;
    }
    let nrm: u64 = crate::isqrt(s);
    proof {
        if nrm == 0 {
            assert((0int + 1) * (0int + 1) == 1) by (nonlinear_arith);
        }
    }
    let mut out: Vec<(String, i64)> = Vec::new();
    let mut i: usize = 0;
    while i < raw.len()
        invariant
            pv == pair_views(raw@),
            pv.len() == raw@.len(),
            forall|t: int|
                0 <= t < raw@.len() ==> #[trigger] pv[t] == (raw@[t].0@, raw@[t].1 as int),
            forall|t: int| 0 <= t < raw@.len() ==> -SCORE_CAP <= #[trigger] raw@[t].1 <= SCORE_CAP,
            i <= raw@.len(),
            1 <= nrm,
            nrm == sqrt_of(sumsq_v(pv) as nat),
            out@.len() == i,
            forall|t: int|
                0 <= t < i ==> #[trigger] out@[t].1 == norm_coord(pv[t].1, nrm as int),
            forall|t: int| 0 <= t < i ==> -SCALE <= #[trigger] out@[t].1 <= SCALE,
            forall|t: int| 0 <= t < i ==> #[trigger] out@[t].0@ == raw@[t].0@,
        decreases raw@.len() - i,
    {
        let v: i64 = raw[i].1;
        let neg = v < 0;
        let mag: u64 = if neg {
            (-v) as u64
        } else {
            v as u64
        };
        proof {
            lemma_sumsq_term(pv, i as int);
            assert(pv[i as int].1 == v as int);
            if neg {
                assert(mag as int == -(v as int));
            } else {
                assert(mag as int == v as int);
            }
            assert((mag as int) * (mag as int) == (v as int) * (v as int)) by (nonlinear_arith)
                requires
                    mag as int == v as int || mag as int == -(v as int),
            ;
            assert((mag as int) * (mag as int) == pv[i as int].1 * pv[i as int].1);
            assert(mag <= nrm) by {
                if mag > nrm {
                    assert((mag as int) * (mag as int) >= (nrm as int + 1) * (nrm as int + 1))
                        by (nonlinear_arith)
                        requires
                            mag as int >= nrm as int + 1,
                            nrm >= 0,
                    ;
                    assert(is_sqrt(sqrt_of(sumsq_v(pv) as nat), sumsq_v(pv) as nat)) by {
                        crate::lemma_sqrt_exists(sumsq_v(pv) as nat);
                    }
                }
            }
            assert((mag as int) * (SCALE as int) <= (nrm as int) * (SCALE as int))
                by (nonlinear_arith)
                requires
                    mag <= nrm,
                    SCALE as int >= 0,
            ;
            vstd::arithmetic::div_mod::lemma_div_is_ordered(
                (mag as int) * (SCALE as int),
                (nrm as int) * (SCALE as int),
                nrm as int,
            );
            vstd::arithmetic::div_mod::lemma_div_multiples_vanish(SCALE as int, nrm as int);
            vstd::arithmetic::div_mod::lemma_div_pos_is_pos(
                (mag as int) * (SCALE as int),
                nrm as int,
            );
            assert((mag as int) * (SCALE as int) >= 0) by (nonlinear_arith)
                requires
                    mag >= 0,
            ;
        }
        let w128: u128 = (mag as u128) * 1_000_000 / (nrm as u128);
        let w: i64 = if neg {
            -(w128 as i64)
        } else {
            w128 as i64
        };
        proof {
            assert(w == norm_coord(pv[i as int].1, nrm as int));
        }
        out.push((raw[i].0.clone(), w));
        i = i + 1;
    }
    proof {
        assert(pair_views(out@) =~= unit_pairs(pv));
    }
    Some(out)
}

/// Parse one tag-mode input record: four tab-separated fields, of which the
/// second is the item id and the third its comma-separated tag list.  A line
/// with the wrong field count is a parse error; an item with too many
/// distinct tags passes the machine limit; an item whose surviving tags are
/// all zero (or absent) is dropped and `Ok(None)` returned; otherwise the
/// item id and its unit-scaled tag map are returned.
pub fn parse_tag_line(line: &str) -> (r: Result<
    Option<(String, Vec<(String, i64)>)>,
    crate::GroupError,
>)
    ensures
        ({
            let fields = split_at(line@, '\t');
            match r {
                Err(e) => (e == crate::GroupError::MalformedLine && fields.len() != 4) || (e
                    == crate::GroupError::TooManyTags && fields.len() == 4 && tag_pairs(
                    fields[2],
                ).len() > MAX_TAGS),
                Ok(None) => fields.len() == 4 && tag_pairs(fields[2]).len() <= MAX_TAGS
                    && sumsq_v(tag_pairs(fields[2])) == 0,
                Ok(Some(p)) => fields.len() == 4 && tag_pairs(fields[2]).len() <= MAX_TAGS
                    && sumsq_v(tag_pairs(fields[2])) > 0 && p.0@ == fields[1] && pair_views(
                    p.1@,
                ) == unit_pairs(tag_pairs(fields[2])) && unique_keys(pair_views(p.1@)) && (
                forall|i: int|
                    0 <= i < p.1@.len() ==> -SCALE <= #[trigger] p.1@[i].1 <= SCALE)
                    && p.1@.len() <= MAX_TAGS,
            }
        }),
{
    let fields = split_char(line, '\t');
    proof {
        assert(forall|i: int|
            0 <= i < fields@.len() ==> #[trigger] views(fields@)[i] == fields@[i]@);
    }
    if fields.len() != 4 {
        return Err(crate::GroupError::MalformedLine);
    }
    let raw = parse_tag_list(fields[2].as_str());
    proof {
        assert(pair_views(raw@).len() == raw@.len());
    }
    if raw.len() > MAX_TAGS {
        return Err(crate::GroupError::TooManyTags);
    }
    proof {
        crate::tags::lemma_dedup_unique(valid_pairs(split_at(fields@[2]@, ',')));
    }
    match normalize(&raw) {
        None => Ok(None),
        Some(u) => {
            proof {
                assert(unique_keys(pair_views(u@))) by {
                    assert(forall|i: int|
                        0 <= i < u@.len() ==> #[trigger] pair_views(u@)[i].0 == pair_views(
                            raw@,
                        )[i].0);
                }
            }
            Ok(Some((fields[1].clone(), u)))
        },
    }
}

} // verus!
