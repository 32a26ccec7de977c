use vstd::prelude::*;
use crate::GroupError;
use crate::SCALE;
use crate::text::cleaned;
use crate::text::clean;
use crate::text::split_at;
use crate::text::split_char;
use crate::text::views;
use crate::partition::seq_has_str;
use crate::partition::contains_str;

verus! {

/// Parse one caption-mode input record: at least three tab-separated fields,
/// of which the second is the item id and the third the caption; any further
/// fields are ignored.  A line with fewer fields is a parse error.
pub fn parse_caption_line(line: &str) -> (r: Result<(String, String), GroupError>)
    ensures
        ({
            let fields = split_at(line@, '\t');
            match r {
                Ok(p) => fields.len() >= 3 && p.0@ == fields[1] && p.1@ == fields[2],
                Err(e) => e == GroupError::MalformedLine && fields.len() < 3,
            }
        }),
{
    let fields = split_char(line, '\t');
    proof {
        assert(forall|i: int|
            0 <= i < fields@.len() ==> #[trigger] views(fields@)[i] == fields@[i]@);
    }
    if fields.len() < 3 {
        return Err(GroupError::MalformedLine);
    }
    Ok((fields[1].clone(), fields[2].clone()))
}

/// `t` is one of the caption's tokens: a non-empty cleaned fragment of the
/// caption split at spaces.
pub open spec fn is_caption_token(s: Seq<char>, t: Seq<char>) -> bool {
    t.len() > 0 && exists|i: int|
        0 <= i < split_at(s, ' ').len() && #[trigger] cleaned(split_at(s, ' ')[i]) == t
}

/// The distinct cleaned tokens of a caption, in order of first appearance:
/// the caption is split at spaces, every non-alphanumeric character removed
/// from each fragment, and fragments left empty are dropped.
pub fn tokenize(caption: &str) -> (r: Vec<String>)
    ensures
        forall|t1: int, t2: int|
            0 <= t1 < t2 < r@.len() ==> #[trigger] r@[t1]@ != #[trigger] r@[t2]@,
        forall|kk: Seq<char>| #[trigger] seq_has_str(r@, kk) <==> is_caption_token(caption@, kk),
{
    let pieces = split_char(caption, ' ');
    let ghost pv = views(pieces@);
    proof {
        assert(forall|i: int|
            0 <= i < pieces@.len() ==> #[trigger] views(pieces@)[i] == pieces@[i]@);
    }
    let mut out: Vec<String> = Vec::new();
    let mut j: usize = 0;
    while j < pieces.len()
        invariant
            pv == split_at(caption@, ' '),
            pv.len() == pieces@.len(),
            forall|i: int| 0 <= i < pieces@.len() ==> pieces@[i]@ == #[trigger] pv[i],
            j <= pieces@.len(),
            forall|t1: int, t2: int|
                0 <= t1 < t2 < out@.len() ==> #[trigger] out@[t1]@ != #[trigger] out@[t2]@,
            forall|kk: Seq<char>|
                #[trigger] seq_has_str(out@, kk) <==> (kk.len() > 0 && exists|i: int|
                    0 <= i < j && #[trigger] cleaned(pv[i]) == kk),
        decreases pieces@.len() - j,
    {
        let ghost old_out = out@;
        let tok = clean(pieces[j].as_str());
        if tok.as_str().unicode_len() != 0 && !contains_str(&out, &tok) {
            out.push(tok);
            proof {
                assert forall|kk: Seq<char>| #[trigger] seq_has_str(out@, kk) implies (kk.len() > 0
                    && exists|i: int| 0 <= i < j + 1 && #[trigger] cleaned(pv[i]) == kk) by {
                    let w = choose|w: int| 0 <= w < out@.len() && #[trigger] out@[w]@ == kk;
                    if w < old_out.len() {
                        assert(seq_has_str(old_out, kk));
                    } else {
                        assert(cleaned(pv[j as int]) == kk);
                    }
                }
                assert forall|kk: Seq<char>|
                    (kk.len() > 0 && exists|i: int|
                        0 <= i < j + 1 && #[trigger] cleaned(pv[i]) == kk) implies seq_has_str(
                    out@,
                    kk,
                ) by {
                    let i = choose|i: int| 0 <= i < j + 1 && #[trigger] cleaned(pv[i]) == kk;
                    if i < j as int {
                        assert(seq_has_str(old_out, kk));
                        let w = choose|w: int|
                            0 <= w < old_out.len() && #[trigger] old_out[w]@ == kk;
                        assert(out@[w]@ == kk);
                    } else {
                        assert(out@[out@.len() - 1]@ == kk);
                    }
                }
            }
        } else {
            proof {
                assert forall|kk: Seq<char>|
                    (kk.len() > 0 && exists|i: int|
                        0 <= i < j + 1 && #[trigger] cleaned(pv[i]) == kk) implies seq_has_str(
                    out@,
                    kk,
                ) by {
                    let i = choose|i: int| 0 <= i < j + 1 && #[trigger] cleaned(pv[i]) == kk;
                    if i == j as int {
                        assert(tok@ == kk);
                        assert(seq_has_str(out@, kk));
                    }
                }
            }
        }
        j = j + 1;
    }
    out
}

/// The token `kk` appears in one of the first `j` token sets.
pub open spec fn token_in_sets(sets: Seq<Seq<String>>, j: int, kk: Seq<char>) -> bool {
    exists|i: int| 0 <= i < j && i < sets.len() && seq_has_str(#[trigger] sets[i], kk)
}

/// The vocabulary holds an entry for `kk`.
pub open spec fn vocab_has(r: Seq<(String, u64)>, kk: Seq<char>) -> bool {
    exists|t: int| 0 <= t < r.len() && #[trigger] r[t].0@ == kk
}

/// In how many of the token sets the token `kk` appears.
pub open spec fn df_spec(sets: Seq<Seq<String>>, kk: Seq<char>) -> nat
    decreases sets.len(),
{
    if sets.len() == 0 {
        0
    } else {
        df_spec(sets.drop_last(), kk) + (if seq_has_str(sets.last(), kk) {
            1nat
        } else {
            0nat
        })
    }
}

proof fn lemma_df_bound(sets: Seq<Seq<String>>, kk: Seq<char>)
    ensures
        df_spec(sets, kk) <= sets.len(),
    decreases sets.len(),
{
    if sets.len() > 0 {
        lemma_df_bound(sets.drop_last(), kk);
    }
}

/// The vocabulary: every token appearing in some item's token set, with the
/// number of items whose set contains it.
pub fn build_vocabulary(token_sets: &Vec<Vec<String>>) -> (r: Vec<(String, u64)>)
    requires
        token_sets@.len() <= 0xFFFF_FFFF,
        forall|i: int, t1: int, t2: int|
            0 <= i < token_sets@.len() && 0 <= t1 < t2 < token_sets@[i]@.len()
                ==> #[trigger] token_sets@[i]@[t1]@ != #[trigger] token_sets@[i]@[t2]@,
    ensures
        forall|t1: int, t2: int|
            0 <= t1 < t2 < r@.len() ==> #[trigger] r@[t1].0@ != #[trigger] r@[t2].0@,
        forall|t: int|
            0 <= t < r@.len() ==> #[trigger] r@[t].1 == df_spec(
                token_sets@.map_values(|v: Vec<String>| v@),
                r@[t].0@,
            ),
        forall|kk: Seq<char>|
            #[trigger] vocab_has(r@, kk) <==> token_in_sets(
                token_sets@.map_values(|v: Vec<String>| v@),
                token_sets@.len() as int,
                kk,
            ),
{
    let ghost sets = token_sets@.map_values(|v: Vec<String>| v@);
    proof {
        assert(forall|i: int| 0 <= i < token_sets@.len() ==> #[trigger] sets[i] == token_sets@[i]@);
    }
    let mut out: Vec<(String, u64)> = Vec::new();
    let mut j: usize = 0;
    while j < token_sets.len()
        invariant
            sets == token_sets@.map_values(|v: Vec<String>| v@),
            sets.len() == token_sets@.len(),
            token_sets@.len() <= 0xFFFF_FFFF,
            forall|i: int| 0 <= i < token_sets@.len() ==> #[trigger] sets[i] == token_sets@[i]@,
            forall|i: int, t1: int, t2: int|
                0 <= i < token_sets@.len() && 0 <= t1 < t2 < token_sets@[i]@.len()
                    ==> #[trigger] token_sets@[i]@[t1]@ != #[trigger] token_sets@[i]@[t2]@,
            j <= sets.len(),
            forall|t1: int, t2: int|
                0 <= t1 < t2 < out@.len() ==> #[trigger] out@[t1].0@ != #[trigger] out@[t2].0@,
            forall|t: int|
                0 <= t < out@.len() ==> #[trigger] out@[t].1 == df_spec(
                    sets.take(j as int),
                    out@[t].0@,
                ),
            forall|kk: Seq<char>|
                #[trigger] vocab_has(out@, kk) <==> token_in_sets(sets, j as int, kk),
        decreases sets.len() - j,
    {
        let set_len = token_sets[j].len();
        let mut t: usize = 0;
        proof {
            assert(sets.take(j + 1).drop_last() =~= sets.take(j as int));
            assert(sets.take(j + 1).last() == sets[j as int]);
        }
        while t < set_len
            invariant
                sets == token_sets@.map_values(|v: Vec<String>| v@),
                sets.len() == token_sets@.len(),
                token_sets@.len() <= 0xFFFF_FFFF,
                forall|i: int| 0 <= i < token_sets@.len() ==> #[trigger] sets[i] == token_sets@[i]@,
                forall|i: int, t1: int, t2: int|
                    0 <= i < token_sets@.len() && 0 <= t1 < t2 < token_sets@[i]@.len()
                        ==> #[trigger] token_sets@[i]@[t1]@ != #[trigger] token_sets@[i]@[t2]@,
                j < sets.len(),
                set_len == token_sets@[j as int]@.len(),
                t <= set_len,
                forall|t1: int, t2: int|
                    0 <= t1 < t2 < out@.len() ==> #[trigger] out@[t1].0@ != #[trigger] out@[t2].0@,
                forall|u: int|
                    0 <= u < out@.len() ==> #[trigger] out@[u].1 == df_spec(
                        sets.take(j as int),
                        out@[u].0@,
                    ) + (if exists|w: int|
                        0 <= w < t && #[trigger] token_sets@[j as int]@[w]@ == out@[u].0@ {
                        1int
                    } else {
                        0int
                    }),
                forall|kk: Seq<char>|
                    #[trigger] vocab_has(out@, kk) <==> (token_in_sets(sets, j as int, kk) || (
                    exists|w: int| 0 <= w < t && #[trigger] token_sets@[j as int]@[w]@ == kk)),
            decreases set_len - t,
        {
            let tok = &token_sets[j][t];
            let ghost old_out = out@;
            let mut u: usize = 0;
            let mut found = false;
            while u < out.len() && !found
                invariant
                    u <= out@.len(),
                    !found ==> forall|w: int| 0 <= w < u ==> #[trigger] out@[w].0@ != tok@,
                    found ==> u < out@.len() && out@[u as int].0@ == tok@,
                    out@ == old_out,
                decreases out@.len() - u + (if found {
                    0int
                } else {
                    1int
                }),
            {
                if out[u].0 == *tok {
                    found = true;
                } else {
                    u = u + 1;
                }
            }
            if found {
                let cnt = out[u].1;
                proof {
                    lemma_df_bound(sets.take(j as int), out@[u as int].0@);
                    assert(forall|w: int|
                        0 <= w < t ==> #[trigger] token_sets@[j as int]@[w]@ != tok@) by {
                        if exists|w: int|
                            0 <= w < t && #[trigger] token_sets@[j as int]@[w]@ == tok@ {
                            let w = choose|w: int|
                                0 <= w < t && #[trigger] token_sets@[j as int]@[w]@ == tok@;
                            assert(token_sets@[j as int]@[w]@ == token_sets@[j as int]@[t as int]@);
                        }
                    }
                }
                let name = out[u].0.clone();
                out.set(u, (name, cnt + 1));
                proof {
                    assert(forall|w1: int|
                        0 <= w1 < out@.len() ==> #[trigger] out@[w1].0@ == old_out[w1].0@);
                    assert forall|kk: Seq<char>| #[trigger] vocab_has(out@, kk) <==> (
                    token_in_sets(sets, j as int, kk) || (exists|w: int|
                        0 <= w < t + 1 && #[trigger] token_sets@[j as int]@[w]@ == kk)) by {
                        if vocab_has(out@, kk) {
                            let uu = choose|uu: int|
                                0 <= uu < out@.len() && #[trigger] out@[uu].0@ == kk;
                            assert(old_out[uu].0@ == kk);
                            assert(vocab_has(old_out, kk));
                        }
                        if vocab_has(old_out, kk) {
                            let uu = choose|uu: int|
                                0 <= uu < old_out.len() && #[trigger] old_out[uu].0@ == kk;
                            assert(out@[uu].0@ == kk);
                            assert(vocab_has(out@, kk));
                        }
                        if exists|w: int|
                            0 <= w < t + 1 && #[trigger] token_sets@[j as int]@[w]@ == kk {
                            let w = choose|w: int|
                                0 <= w < t + 1 && #[trigger] token_sets@[j as int]@[w]@ == kk;
                            if w == t as int {
                                assert(kk == tok@);
                                assert(old_out[u as int].0@ == kk);
                                assert(vocab_has(old_out, kk));
                            }
                        }
                    }
                    assert forall|w1: int|
                        0 <= w1 < out@.len() implies #[trigger] out@[w1].1 == df_spec(
                        sets.take(j as int),
                        out@[w1].0@,
                    ) + (if exists|w: int|
                        0 <= w < t + 1 && #[trigger] token_sets@[j as int]@[w]@ == out@[w1].0@ {
                        1int
                    } else {
                        0int
                    }) by {
                        if w1 == u as int {
                            assert(token_sets@[j as int]@[t as int]@ == out@[w1].0@);
                        } else {
                            assert(out@[w1] == old_out[w1]);
                            if exists|w: int|
                                0 <= w < t + 1 && #[trigger] token_sets@[j as int]@[w]@
                                    == out@[w1].0@ {
                                let w = choose|w: int|
                                    0 <= w < t + 1 && #[trigger] token_sets@[j as int]@[w]@
                                        == out@[w1].0@;
                                assert(w < t);
                            }
                        }
                    }
                }
            } else {
                proof {
                    assert(forall|w: int|
                        0 <= w < t ==> #[trigger] token_sets@[j as int]@[w]@ != tok@) by {
                        if exists|w: int|
                            0 <= w < t && #[trigger] token_sets@[j as int]@[w]@ == tok@ {
                            let w = choose|w: int|
                                0 <= w < t && #[trigger] token_sets@[j as int]@[w]@ == tok@;
                            assert(exists|uu: int|
                                0 <= uu < out@.len() && #[trigger] out@[uu].0@ == tok@);
                            let uu = choose|uu: int|
                                0 <= uu < out@.len() && #[trigger] out@[uu].0@ == tok@;
                        }
                    }
                    assert(df_spec(sets.take(j as int), tok@) == 0) by {
                        assert forall|i: int| 0 <= i < sets.take(j as int).len()
                            implies !seq_has_str(#[trigger] sets.take(j as int)[i], tok@) by {
                            if seq_has_str(sets.take(j as int)[i], tok@) {
                                assert(seq_has_str(sets[i], tok@));
                                assert(token_in_sets(sets, j as int, tok@));
                                assert(vocab_has(out@, tok@));
                                let uu = choose|uu: int|
                                    0 <= uu < out@.len() && #[trigger] out@[uu].0@ == tok@;
                            }
                        }
                        lemma_df_absent(sets.take(j as int), tok@);
                    }
                }
                let name = tok.clone();
                out.push((name, 1));
                proof {
                    assert(forall|w1: int|
                        0 <= w1 < old_out.len() ==> #[trigger] out@[w1] == old_out[w1]);
                    assert(out@[out@.len() - 1].0@ == tok@);
                    assert forall|kk: Seq<char>| #[trigger] vocab_has(out@, kk) <==> (
                    token_in_sets(sets, j as int, kk) || (exists|w: int|
                        0 <= w < t + 1 && #[trigger] token_sets@[j as int]@[w]@ == kk)) by {
                        if vocab_has(out@, kk) {
                            let uu = choose|uu: int|
                                0 <= uu < out@.len() && #[trigger] out@[uu].0@ == kk;
                            if uu < old_out.len() {
                                assert(old_out[uu].0@ == kk);
                                assert(vocab_has(old_out, kk));
                            } else {
                                assert(kk == tok@);
                                assert(token_sets@[j as int]@[t as int]@ == kk);
                            }
                        }
                        if vocab_has(old_out, kk) {
                            let uu = choose|uu: int|
                                0 <= uu < old_out.len() && #[trigger] old_out[uu].0@ == kk;
                            assert(out@[uu].0@ == kk);
                            assert(vocab_has(out@, kk));
                        }
                        if exists|w: int|
                            0 <= w < t + 1 && #[trigger] token_sets@[j as int]@[w]@ == kk {
                            let w = choose|w: int|
                                0 <= w < t + 1 && #[trigger] token_sets@[j as int]@[w]@ == kk;
                            if w == t as int {
                                assert(kk == tok@);
                                assert(vocab_has(out@, kk));
                            }
                        }
                    }
                    assert forall|w1: int|
                        0 <= w1 < out@.len() implies #[trigger] out@[w1].1 == df_spec(
                        sets.take(j as int),
                        out@[w1].0@,
                    ) + (if exists|w: int|
                        0 <= w < t + 1 && #[trigger] token_sets@[j as int]@[w]@ == out@[w1].0@ {
                        1int
                    } else {
                        0int
                    }) by {
                        if w1 == out@.len() - 1 {
                            assert(token_sets@[j as int]@[t as int]@ == out@[w1].0@);
                        } else {
                            assert(out@[w1] == old_out[w1]);
                            if exists|w: int|
                                0 <= w < t + 1 && #[trigger] token_sets@[j as int]@[w]@
                                    == out@[w1].0@ {
                                let w = choose|w: int|
                                    0 <= w < t + 1 && #[trigger] token_sets@[j as int]@[w]@
                                        == out@[w1].0@;
                                assert(w < t);
                            }
                        }
                    }
                }
            }
            t = t + 1;
        }
        proof {
            assert forall|u: int| 0 <= u < out@.len() implies #[trigger] out@[u].1 == df_spec(
                sets.take(j + 1),
                out@[u].0@,
            ) by {
                if seq_has_str(sets[j as int], out@[u].0@) {
                    let w = choose|w: int|
                        0 <= w < sets[j as int].len() && #[trigger] sets[j as int][w]@
                            == out@[u].0@;
                }
                if exists|w: int|
                    0 <= w < set_len && #[trigger] token_sets@[j as int]@[w]@ == out@[u].0@ {
                    let w = choose|w: int|
                        0 <= w < set_len && #[trigger] token_sets@[j as int]@[w]@ == out@[u].0@;
                    assert(sets[j as int][w]@ == out@[u].0@);
                    assert(seq_has_str(sets[j as int], out@[u].0@));
                }
            }
            assert forall|kk: Seq<char>| token_in_sets(sets, j + 1, kk) implies #[trigger]
            vocab_has(out@, kk) by {
                let i = choose|i: int|
                    0 <= i < j + 1 && i < sets.len() && seq_has_str(#[trigger] sets[i], kk);
                if i == j as int {
                    let w = choose|w: int|
                        0 <= w < sets[j as int].len() && #[trigger] sets[j as int][w]@ == kk;
                    assert(token_sets@[j as int]@[w]@ == kk);
                } else {
                    assert(token_in_sets(sets, j as int, kk));
                }
            }
            assert forall|kk: Seq<char>| #[trigger] vocab_has(out@, kk) implies token_in_sets(
                sets,
                j + 1,
                kk,
            ) by {
                if exists|w: int| 0 <= w < set_len && #[trigger] token_sets@[j as int]@[w]@ == kk {
                    let w = choose|w: int|
                        0 <= w < set_len && #[trigger] token_sets@[j as int]@[w]@ == kk;
                    assert(sets[j as int][w]@ == kk);
                    assert(seq_has_str(sets[j as int], kk));
                } else {
                    assert(token_in_sets(sets, j as int, kk));
                    let i = choose|i: int|
                        0 <= i < j && i < sets.len() && seq_has_str(#[trigger] sets[i], kk);
                }
            }
        }
        j = j + 1;
    }
    proof {
        assert(sets.take(sets.len() as int) =~= sets);
    }
    out
}

proof fn lemma_df_absent(pre: Seq<Seq<String>>, kk: Seq<char>)
    requires
        forall|i: int| 0 <= i < pre.len() ==> !seq_has_str(#[trigger] pre[i], kk),
    ensures
        df_spec(pre, kk) == 0,
    decreases pre.len(),
{
    if pre.len() > 0 {
        lemma_df_absent(pre.drop_last(), kk);
    }
}

/// The rarity weight of a token in millionths: one minus the share of items
/// whose caption contains it.
pub open spec fn weight_spec(df: nat, n: nat) -> int {
    (((n - df) * (SCALE as int)) / n as int)
}

/// The rarity weight of a token that `df` of `n` items carry.
pub fn weight_micro(df: u64, n: u64) -> (r: i64)
    requires
        1 <= n,
        df <= n,
    ensures
        r == weight_spec(df as nat, n as nat),
        0 <= r <= SCALE,
{
    let num: u128 = ((n - df) as u128) * 1_000_000;
    let q: u128 = num / (n as u128);
    proof {
        assert(((n - df) as int) * (SCALE as int) <= (n as int) * (SCALE as int))
            by (nonlinear_arith)
            requires
                df <= n,
        ;
        vstd::arithmetic::div_mod::lemma_div_is_ordered(
            ((n - df) as int) * (SCALE as int),
            (n as int) * (SCALE as int),
            n as int,
        );
        vstd::arithmetic::div_mod::lemma_div_multiples_vanish(SCALE as int, n as int);
        vstd::arithmetic::div_mod::lemma_div_pos_is_pos(((n - df) as int) * (SCALE as int), n as int);
    }
    q as i64
}

/// The presence matrix: one row per item, one column per vocabulary token,
/// a one exactly where the item's token set contains the token.
pub fn presence_rows(token_sets: &Vec<Vec<String>>, vocab: &Vec<(String, u64)>) -> (r: Vec<
    Vec<u8>,
>)
    ensures
        r@.len() == token_sets@.len(),
        forall|i: int| 0 <= i < r@.len() ==> #[trigger] r@[i]@.len() == vocab@.len(),
        forall|i: int, w: int|
            0 <= i < r@.len() && 0 <= w < vocab@.len() ==> #[trigger] r@[i]@[w] == (if seq_has_str(
                token_sets@[i]@,
                vocab@[w].0@,
            ) {
                1u8
            } else {
                0u8
            }),
{
    let mut rows: Vec<Vec<u8>> = Vec::new();
    let mut i: usize = 0;
    while i < token_sets.len()
        invariant
            i <= token_sets@.len(),
            rows@.len() == i,
            forall|i2: int| 0 <= i2 < i ==> #[trigger] rows@[i2]@.len() == vocab@.len(),
            forall|i2: int, w: int|
                0 <= i2 < i && 0 <= w < vocab@.len() ==> #[trigger] rows@[i2]@[w] == (if
                seq_has_str(token_sets@[i2]@, vocab@[w].0@) {
                    1u8
                } else {
                    0u8
                }),
        decreases token_sets@.len() - i,
    {
        let mut row: Vec<u8> = Vec::new();
        let mut w: usize = 0;
        while w < vocab.len()
            invariant
                i < token_sets@.len(),
                w <= vocab@.len(),
                row@.len() == w,
                forall|w2: int|
                    0 <= w2 < w ==> #[trigger] row@[w2] == (if seq_has_str(
                        token_sets@[i as int]@,
                        vocab@[w2].0@,
                    ) {
                        1u8
                    } else {
                        0u8
                    }),
            decreases vocab@.len() - w,
        {
            if contains_str(&token_sets[i], &vocab[w].0) {
                row.push(1);
            } else {
                row.push(0);
            }
            w = w + 1;
        }
        rows.push(row);
        i = i + 1;
    }
    rows
}

/// The rows of the presence matrix that belong to the given subset of items.
pub fn select_rows(rows: &Vec<Vec<u8>>, subset: &Vec<usize>) -> (r: Vec<Vec<u8>>)
    requires
        forall|t: int| 0 <= t < subset@.len() ==> #[trigger] subset@[t] < rows@.len(),
    ensures
        r@.len() == subset@.len(),
        forall|t: int| 0 <= t < r@.len() ==> #[trigger] r@[t]@ == rows@[subset@[t] as int]@,
{
    let mut out: Vec<Vec<u8>> = Vec::new();
    let mut t: usize = 0;
    while t < subset.len()
        invariant
            forall|t2: int| 0 <= t2 < subset@.len() ==> #[trigger] subset@[t2] < rows@.len(),
            t <= subset@.len(),
            out@.len() == t,
            forall|t2: int| 0 <= t2 < t ==> #[trigger] out@[t2]@ == rows@[subset@[t2] as int]@,
        decreases subset@.len() - t,
    {
        let idx = subset[t];
        let src = &rows[idx];
        let mut copy: Vec<u8> = Vec::new();
        let mut w: usize = 0;
        while w < src.len()
            invariant
                w <= src@.len(),
                copy@ =~= src@.take(w as int),
            decreases src@.len() - w,
        {
            copy.push(src[w]);
            proof {
                assert(copy@ =~= src@.take(w + 1));
            }
            w = w + 1;
        }
        proof {
            assert(src@.take(src@.len() as int) =~= src@);
        }
        out.push(copy);
        t = t + 1;
    }
    out
}

} // verus!
