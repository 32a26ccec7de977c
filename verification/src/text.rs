use vstd::prelude::*;
use vstd::string::StrSliceExecFns;

verus! {

/// What `char::is_alphanumeric` returns; it depends on the character alone.
pub uninterp spec fn is_alnum(c: char) -> bool;

/// What `char::is_whitespace` returns; it depends on the character alone.
pub uninterp spec fn is_space(c: char) -> bool;

/// Relies on char::is_alphanumeric: a pure Unicode class test.
pub assume_specification[ char::is_alphanumeric ](c: char) -> (r: bool)
    ensures
        r == is_alnum(c),
;

/// Relies on char::is_whitespace: a pure Unicode class test.
pub assume_specification[ char::is_whitespace ](c: char) -> (r: bool)
    ensures
        r == is_space(c),
;

/// Relies on String::push: appends one character to the string.
#[verifier::external_body]
pub(crate) fn push_char(s: &mut String, c: char)
    ensures
        final(s)@ == old(s)@.push(c),
{
    s.push(c);
}

/// A caption token with every non-alphanumeric character removed.
pub open spec fn cleaned(s: Seq<char>) -> Seq<char>
    decreases s.len(),
{
    if s.len() == 0 {
        Seq::empty()
    } else if is_alnum(s.last()) {
        cleaned(s.drop_last()).push(s.last())
    } else {
        cleaned(s.drop_last())
    }
}

/// Keep only the alphanumeric characters of a caption token.
pub fn clean(value: &str) -> (r: String)
    ensures
        r@ == cleaned(value@),
{
    let n = value.unicode_len();
    let mut r = String::new();
    let mut i: usize = 0;
    while i < n
        invariant
            n == value@.len(),
            i <= n,
            r@ == cleaned(value@.take(i as int)),
        decreases n - i,
    {
        let c = value.get_char(i);
        proof {
            assert(value@.take(i + 1).drop_last() =~= value@.take(i as int));
            assert(value@.take(i + 1).last() == value@[i as int]);
        }
        if c.is_alphanumeric() {
            push_char(&mut r, c);
        }
        i = i + 1;
    }
    proof {
        assert(value@.take(n as int) =~= value@);
    }
    r
}

/// The fragments of `s` split at every occurrence of `d`, with `cur` the
/// fragment accumulated so far.  Splitting "a b" at ' ' gives ["a", "b"];
/// consecutive separators yield empty fragments, as `str::split` does.
pub open spec fn split_acc(s: Seq<char>, d: char, cur: Seq<char>) -> Seq<Seq<char>>
    decreases s.len(),
{
    if s.len() == 0 {
        seq![cur]
    } else if s[0] == d {
        seq![cur] + split_acc(s.drop_first(), d, Seq::empty())
    } else {
        split_acc(s.drop_first(), d, cur.push(s[0]))
    }
}

/// The fragments of `s` split at every occurrence of `d`.
pub open spec fn split_at(s: Seq<char>, d: char) -> Seq<Seq<char>> {
    split_acc(s, d, Seq::empty())
}

/// Splitting always yields at least one fragment.
pub proof fn lemma_split_nonempty(s: Seq<char>, d: char)
    ensures
        split_at(s, d).len() >= 1,
{
    lemma_split_acc_nonempty(s, d, Seq::empty());
}

proof fn lemma_split_acc_nonempty(s: Seq<char>, d: char, cur: Seq<char>)
    ensures
        split_acc(s, d, cur).len() >= 1,
    decreases s.len(),
{
    if s.len() != 0 && s[0] != d {
        lemma_split_acc_nonempty(s.drop_first(), d, cur.push(s[0]));
    }
}

/// The views of a vector of strings.
pub open spec fn views(v: Seq<String>) -> Seq<Seq<char>> {
    v.map_values(|x: String| x@)
}

/// Split `s` at every occurrence of the character `d`.
pub fn split_char(s: &str, d: char) -> (r: Vec<String>)
    ensures
        views(r@) == split_at(s@, d),
{
    let n = s.unicode_len();
    let mut out: Vec<String> = Vec::new();
    let mut cur = String::new();
    let mut i: usize = 0;
    proof {
        assert(s@.skip(0) =~= s@);
        assert(views(out@) + split_acc(s@, d, cur@) =~= split_acc(s@, d, cur@));
    }
    while i < n
        invariant
            n == s@.len(),
            i <= n,
            split_at(s@, d) == views(out@) + split_acc(s@.skip(i as int), d, cur@),
        decreases n - i,
    {
        let c = s.get_char(i);
        proof {
            assert(s@.skip(i as int).drop_first() =~= s@.skip(i + 1));
            assert(s@.skip(i as int)[0] == s@[i as int]);
        }
        if c == d {
            out.push(cur);
            cur = String::new();
            proof {
                assert(views(out@) =~= views(out@.drop_last()).push(out@.last()@));
                assert(views(out@.drop_last()) + (seq![out@.last()@] + split_acc(
                    s@.skip(i + 1),
                    d,
                    Seq::empty(),
                )) =~= views(out@) + split_acc(s@.skip(i + 1), d, Seq::empty()));
            }
        } else {
            push_char(&mut cur, c);
        }
        i = i + 1;
    }
    proof {
        assert(s@.skip(n as int) =~= Seq::<char>::empty());
    }
    out.push(cur);
    proof {
        assert(views(out@) =~= views(out@.drop_last()).push(out@.last()@));
        assert(views(out@.drop_last()) + seq![out@.last()@] =~= views(out@));
    }
    out
}

} // verus!
