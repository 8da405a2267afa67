//! Small verified string helpers: equality, prefix tests, and splitting
//! that keeps empty tokens (the positional variant used by the corner box
//! and the list-options wire tags).

use vstd::prelude::*;
use vstd::string::StrSliceExecFns;

verus! {

/// Character-wise string equality.
pub fn str_eq(a: &str, b: &str) -> (r: bool)
    ensures
        r == (a@ == b@),
{
    let na = a.unicode_len();
    let nb = b.unicode_len();
    if na != nb {
        return false;
    }
    let mut i: usize = 0;
    while i < na
        invariant
            i <= na,
            na == a@.len(),
            na == b@.len(),
            forall|k: int| 0 <= k < i ==> a@[k] == b@[k],
        decreases na - i,
    {
        if a.get_char(i) != b.get_char(i) {
            return false;
        }
        i += 1;
    }
    proof {
        assert(a@ =~= b@);
    }
    true
}

/// Whether `s` begins with `prefix`.
pub fn str_starts_with(s: &str, prefix: &str) -> (r: bool)
    ensures
        r == (s@.len() >= prefix@.len() && s@.subrange(0, prefix@.len() as int) == prefix@),
{
    let np = prefix.unicode_len();
    let n = s.unicode_len();
    if n < np {
        return false;
    }
    let mut i: usize = 0;
    while i < np
        invariant
            i <= np,
            np == prefix@.len(),
            n == s@.len(),
            np <= n,
            forall|k: int| 0 <= k < i ==> s@[k] == prefix@[k],
        decreases np - i,
    {
        if s.get_char(i) != prefix.get_char(i) {
            proof {
                if s@.subrange(0, np as int) == prefix@ {
                    assert(s@.subrange(0, np as int)[i as int] == prefix@[i as int]);
                }
            }
            return false;
        }
        i += 1;
    }
    proof {
        assert(s@.subrange(0, np as int) =~= prefix@);
    }
    true
}

/// The position of the first `sep`, or the length when there is none.
pub open spec fn first_sep(s: Seq<char>, sep: char) -> int
    decreases s.len(),
{
    if s.len() == 0 {
        0
    } else if s[0] == sep {
        0
    } else {
        1 + first_sep(s.drop_first(), sep)
    }
}

/// Splitting on `sep`, keeping empty tokens: the empty string yields one
/// empty token, and a trailing separator yields a trailing empty token.
pub open spec fn split_all(s: Seq<char>, sep: char) -> Seq<Seq<char>>
    decreases s.len(),
{
    let k = first_sep(s, sep);
    if 0 <= k && k + 1 <= s.len() {
        seq![s.take(k)] + split_all(s.skip(k + 1), sep)
    } else {
        seq![s]
    }
}

pub proof fn lemma_first_sep_at(s: Seq<char>, sep: char, k: int)
    requires
        0 <= k <= s.len(),
        forall|i: int| 0 <= i < k ==> s[i] != sep,
        k == s.len() || s[k] == sep,
    ensures
        first_sep(s, sep) == k,
    decreases s.len(),
{
    if s.len() == 0 {
    } else if k == 0 {
    } else {
        assert(s[0] != sep);
        lemma_first_sep_at(s.drop_first(), sep, k - 1);
    }
}

/// One step of a keep-empties split: between a boundary `p` and the next
/// separator (or the end) `j`, the first token of the tail at `p` is
/// `s[p..j]`.
pub proof fn lemma_split_all_step(s: Seq<char>, sep: char, p: int, j: int)
    requires
        0 <= p <= j <= s.len(),
        forall|t: int| p <= t < j ==> s[t] != sep,
        j == s.len() || s[j] == sep,
    ensures
        split_all(s.skip(p), sep) == (if j < s.len() {
            seq![s.subrange(p, j)] + split_all(s.skip(j + 1), sep)
        } else {
            seq![s.subrange(p, j)]
        }),
{
    let u = s.skip(p);
    assert forall|t: int| 0 <= t < j - p implies u[t] != sep by {
        assert(u[t] == s[p + t]);
    }
    if j < s.len() {
        assert(u[j - p] == s[j]);
    }
    lemma_first_sep_at(u, sep, j - p);
    let k = j - p;
    if j < s.len() {
        assert(u.skip(k + 1) =~= s.skip(j + 1));
        assert(u.take(k) =~= s.subrange(p, j));
    } else {
        assert(k == u.len());
        assert(u =~= s.subrange(p, j));
    }
}

/// Splits on `sep`, keeping empty tokens, as the positional decoders need.
pub fn split_all_str(s: &str, sep: char) -> (out: Vec<String>)
    ensures
        out.deep_view() == split_all(s@, sep),
        out.len() >= 1,
{
    let n = s.unicode_len();
    let mut out: Vec<String> = Vec::new();
    let mut p: usize = 0;
    let mut fin = false;
    proof {
        assert(s@.skip(0) =~= s@);
    }
    while !fin
        invariant
            p <= n,
            n == s@.len(),
            !fin ==> split_all(s@, sep) == out.deep_view() + split_all(s@.skip(p as int), sep),
            fin ==> out.deep_view() == split_all(s@, sep),
            fin ==> out.len() >= 1,
        decreases n - p + (if fin {
            0int
        } else {
            1int
        }),
    {
        let mut j = p;
        while j < n && s.get_char(j) != sep
            invariant
                p <= j <= n,
                n == s@.len(),
                forall|t: int| p <= t < j ==> s@[t] != sep,
            decreases n - j,
        {
            j += 1;
        }
        proof {
            lemma_split_all_step(s@, sep, p as int, j as int);
        }
        let ghost outv = out.deep_view();
        let tok = s.substring_char(p, j).to_owned();
        out.push(tok);
        proof {
            assert(out.deep_view() =~= outv + seq![s@.subrange(p as int, j as int)]);
        }
        if j < n {
            p = j + 1;
            proof {
                assert(out.deep_view() + split_all(s@.skip(p as int), sep) =~= split_all(
                    s@,
                    sep,
                ));
            }
        } else {
            fin = true;
            proof {
                assert(out.deep_view() =~= split_all(s@, sep));
            }
        }
    }
    out
}

} // verus!
