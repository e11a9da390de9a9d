//! Character-level string helpers: equality, substring search, and
//! splitting on commas, each specified over the `Seq<char>` view.

use vstd::prelude::*;

verus! {

/// `pat` occurs in `text` starting at position `i`.
pub open spec fn contains_at(text: Seq<char>, pat: Seq<char>, i: int) -> bool {
    0 <= i && i + pat.len() <= text.len() && text.subrange(i, i + pat.len()) == pat
}

/// `pat` occurs somewhere in `text`. The empty pattern occurs in every text.
pub open spec fn contains_sub(text: Seq<char>, pat: Seq<char>) -> bool {
    exists|i: int| contains_at(text, pat, i)
}

/// Character-for-character equality of two string slices.
pub fn str_eq(a: &str, b: &str) -> (r: bool)
    ensures
        r == (a@ == b@),
{
    let n = a.unicode_len();
    if n != b.unicode_len() {
        return false;
    }
    let mut i: usize = 0;
    while i < n
        invariant
            0 <= i <= n,
            n == a@.len(),
            n == b@.len(),
            forall|k: int| 0 <= k < i ==> a@[k] == b@[k],
        decreases n - i,
    {
        if a.get_char(i) != b.get_char(i) {
            return false;
        }
        i = i + 1;
    }
    proof {
        assert(a@ =~= b@);
    }
    true
}

/// Whether `pat` occurs as a contiguous substring of `text` (case-sensitive).
pub fn str_contains(text: &str, pat: &str) -> (r: bool)
    ensures
        r == contains_sub(text@, pat@),
{
    let n = text.unicode_len();
    let m = pat.unicode_len();
    if m > n {
        return false;
    }
    let mut i: usize = 0;
    while i <= n - m
        invariant
            0 <= i <= n - m + 1,
            m <= n,
            n == text@.len(),
            m == pat@.len(),
            forall|k: int| 0 <= k < i ==> !contains_at(text@, pat@, k),
        decreases n - m + 1 - i,
    {
        let mut j: usize = 0;
        while j < m && text.get_char(i + j) == pat.get_char(j)
            invariant
                0 <= j <= m,
                i + m <= n,
                n == text@.len(),
                m == pat@.len(),
                forall|l: int| 0 <= l < j ==> text@[i + l] == pat@[l],
            decreases m - j,
        {
            j = j + 1;
        }
        if j == m {
            proof {
                assert(text@.subrange(i as int, i + m) =~= pat@);
                assert(contains_at(text@, pat@, i as int));
            }
            return true;
        }
        proof {
            assert(text@.subrange(i as int, i + m)[j as int] == text@[i + j]);
            assert(!contains_at(text@, pat@, i as int));
        }
        i = i + 1;
    }
    proof {
        assert(forall|k: int| contains_at(text@, pat@, k) ==> 0 <= k <= n - m);
    }
    false
}

/// A character's code point with ASCII uppercase folded onto lowercase.
pub open spec fn fold_cp(c: char) -> int {
    if 65 <= c as int && c as int <= 90 {
        c as int + 32
    } else {
        c as int
    }
}

/// `pat` occurs in `text` starting at position `i`, up to ASCII case.
pub open spec fn ci_contains_at(text: Seq<char>, pat: Seq<char>, i: int) -> bool {
    &&& 0 <= i
    &&& i + pat.len() <= text.len()
    &&& forall|l: int| 0 <= l < pat.len() ==> fold_cp(text[i + l]) == fold_cp(#[trigger] pat[l])
}

/// `pat` occurs somewhere in `text`, up to ASCII case.
pub open spec fn ci_contains_sub(text: Seq<char>, pat: Seq<char>) -> bool {
    exists|i: int| ci_contains_at(text, pat, i)
}

fn fold_char(c: char) -> (u: u32)
    ensures
        u as int == fold_cp(c),
{
    let u = c as u32;
    if 65 <= u && u <= 90 {
        u + 32
    } else {
        u
    }
}

/// Whether `pat` occurs as a contiguous substring of `text`, ignoring
/// ASCII case.
pub fn str_contains_ci(text: &str, pat: &str) -> (r: bool)
    ensures
        r == ci_contains_sub(text@, pat@),
{
    let n = text.unicode_len();
    let m = pat.unicode_len();
    if m > n {
        return false;
    }
    let mut i: usize = 0;
    while i <= n - m
        invariant
            0 <= i <= n - m + 1,
            m <= n,
            n == text@.len(),
            m == pat@.len(),
            forall|k: int| 0 <= k < i ==> !ci_contains_at(text@, pat@, k),
        decreases n - m + 1 - i,
    {
        let mut j: usize = 0;
        while j < m && fold_char(text.get_char(i + j)) == fold_char(pat.get_char(j))
            invariant
                0 <= j <= m,
                i + m <= n,
                n == text@.len(),
                m == pat@.len(),
                forall|l: int| 0 <= l < j ==> fold_cp(text@[i + l]) == fold_cp(#[trigger] pat@[l]),
            decreases m - j,
        {
            j = j + 1;
        }
        if j == m {
            proof {
                assert(ci_contains_at(text@, pat@, i as int));
            }
            return true;
        }
        proof {
            assert(!ci_contains_at(text@, pat@, i as int));
        }
        i = i + 1;
    }
    proof {
        assert(forall|k: int| ci_contains_at(text@, pat@, k) ==> 0 <= k <= n - m);
    }
    false
}

/// The segments of `s` between commas, in order; mirrors how splitting a
/// string on `','` behaves, so an input with no comma yields one segment
/// and every comma opens a new (possibly empty) segment.
pub open spec fn split_commas_spec(s: Seq<char>) -> Seq<Seq<char>>
    decreases s.len(),
{
    if s.len() == 0 {
        seq![Seq::<char>::empty()]
    } else if s[0] == ',' {
        seq![Seq::<char>::empty()] + split_commas_spec(s.drop_first())
    } else {
        let rest = split_commas_spec(s.drop_first());
        seq![seq![s[0]] + rest[0]] + rest.drop_first()
    }
}

proof fn lemma_split_nonempty(s: Seq<char>)
    ensures
        split_commas_spec(s).len() >= 1,
    decreases s.len(),
{
    if s.len() != 0 {
        lemma_split_nonempty(s.drop_first());
    }
}

proof fn lemma_split_no_comma(s: Seq<char>)
    requires
        forall|k: int| 0 <= k < s.len() ==> s[k] != ',',
    ensures
        split_commas_spec(s) == seq![s],
    decreases s.len(),
{
    if s.len() == 0 {
        assert(split_commas_spec(s) =~~= seq![s]);
    } else {
        lemma_split_no_comma(s.drop_first());
        lemma_split_nonempty(s.drop_first());
        assert(seq![s[0]] + s.drop_first() =~= s);
        assert(split_commas_spec(s) =~~= seq![s]);
    }
}

proof fn lemma_split_first_comma(s: Seq<char>, k: int)
    requires
        0 <= k < s.len(),
        s[k] == ',',
        forall|l: int| 0 <= l < k ==> s[l] != ',',
    ensures
        split_commas_spec(s) == seq![s.subrange(0, k)] + split_commas_spec(
            s.subrange(k + 1, s.len() as int),
        ),
    decreases k,
{
    if k == 0 {
        assert(s.subrange(0, 0) =~= Seq::<char>::empty());
        assert(s.subrange(1, s.len() as int) =~= s.drop_first());
        assert(split_commas_spec(s) =~~= seq![s.subrange(0, 0)] + split_commas_spec(
            s.subrange(1, s.len() as int),
        ));
    } else {
        let t = s.drop_first();
        assert(t[k - 1] == s[k]);
        lemma_split_first_comma(t, k - 1);
        let rest = split_commas_spec(t);
        lemma_split_nonempty(t);
        assert(rest[0] == t.subrange(0, k - 1));
        assert(seq![s[0]] + t.subrange(0, k - 1) =~= s.subrange(0, k));
        assert(t.subrange(k - 1 + 1, t.len() as int) =~= s.subrange(k + 1, s.len() as int));
        assert(rest.drop_first() == split_commas_spec(s.subrange(k + 1, s.len() as int)));
        assert(split_commas_spec(s) =~~= seq![s.subrange(0, k)] + split_commas_spec(
            s.subrange(k + 1, s.len() as int),
        ));
    }
}

/// Split `s` on `','` into owned segments.
pub fn split_commas(s: &str) -> (v: Vec<String>)
    ensures
        v.deep_view() == split_commas_spec(s@),
{
    let n = s.unicode_len();
    let mut v: Vec<String> = Vec::new();
    let mut start: usize = 0;
    let mut i: usize = 0;
    proof {
        assert(s@.subrange(0, n as int) =~= s@);
        assert(v.deep_view() + split_commas_spec(s@) =~~= split_commas_spec(s@));
    }
    while i < n
        invariant
            0 <= start <= i <= n,
            n == s@.len(),
            forall|l: int| start <= l < i ==> s@[l] != ',',
            split_commas_spec(s@) == v.deep_view() + split_commas_spec(
                s@.subrange(start as int, n as int),
            ),
        decreases n - i,
    {
        if s.get_char(i) == ',' {
            let seg = s.substring_char(start, i);
            let owned = seg.to_owned();
            proof {
                let tail = s@.subrange(start as int, n as int);
                assert(tail[i - start] == s@[i as int]);
                assert(forall|l: int| 0 <= l < i - start ==> tail[l] == s@[l + start]);
                lemma_split_first_comma(tail, i - start);
                assert(tail.subrange(0, i - start) =~= s@.subrange(start as int, i as int));
                assert(tail.subrange(i - start + 1, tail.len() as int) =~= s@.subrange(
                    i + 1,
                    n as int,
                ));
            }
            v.push(owned);
            proof {
                assert(v.deep_view() =~~= v.deep_view().drop_last() + seq![s@.subrange(
                    start as int,
                    i as int,
                )]);
                assert(split_commas_spec(s@) =~~= v.deep_view() + split_commas_spec(
                    s@.subrange(i + 1, n as int),
                ));
            }
            start = i + 1;
        }
        i = i + 1;
    }
    let seg = s.substring_char(start, n);
    let owned = seg.to_owned();
    proof {
        lemma_split_no_comma(s@.subrange(start as int, n as int));
    }
    v.push(owned);
    proof {
        assert(v.deep_view() =~~= v.deep_view().drop_last() + seq![s@.subrange(
            start as int,
            n as int,
        )]);
        assert(split_commas_spec(s@) =~~= v.deep_view());
    }
    v
}

} // verus!
