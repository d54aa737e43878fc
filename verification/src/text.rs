use vstd::prelude::*;
use vstd::string::*;

verus! {

/// The character sequences of a sequence of strings.
pub open spec fn string_views(v: Seq<String>) -> Seq<Seq<char>> {
    v.map_values(|s: String| s@)
}

/// `a` and `b` agree before position `k`, and at `k` the first one ends while the
/// second goes on, or the first one holds the smaller code point.
pub open spec fn lex_lt_at(a: Seq<char>, b: Seq<char>, k: int) -> bool {
    &&& 0 <= k <= a.len()
    &&& k <= b.len()
    &&& forall|j: int| 0 <= j < k ==> a[j] == b[j]
    &&& ((k == a.len() && k < b.len()) || (k < a.len() && k < b.len() && (a[k] as int) < (
        b[k] as int)))
}

/// Lexicographic order by code point: `a` comes strictly before `b`.
pub open spec fn lex_lt(a: Seq<char>, b: Seq<char>) -> bool {
    exists|k: int| #[trigger] lex_lt_at(a, b, k)
}

/// Every element comes strictly before every later one.
pub open spec fn strictly_sorted(s: Seq<Seq<char>>) -> bool {
    forall|i: int, j: int| #![trigger s[i], s[j]] 0 <= i < j < s.len() ==> lex_lt(s[i], s[j])
}

/// No sequence comes before itself.
pub proof fn lemma_lex_lt_irreflexive(a: Seq<char>)
    ensures
        !lex_lt(a, a),
{
}

/// The order is transitive.
pub proof fn lemma_lex_lt_transitive(a: Seq<char>, b: Seq<char>, c: Seq<char>)
    requires
        lex_lt(a, b),
        lex_lt(b, c),
    ensures
        lex_lt(a, c),
{
    let k1 = choose|k: int| lex_lt_at(a, b, k);
    let k2 = choose|k: int| lex_lt_at(b, c, k);
    if k1 < k2 {
        assert(lex_lt_at(a, c, k1));
    } else if k2 < k1 {
        assert(lex_lt_at(a, c, k2));
    } else {
        assert(lex_lt_at(a, c, k1));
    }
}

proof fn lemma_lex_first_difference(a: Seq<char>, b: Seq<char>, k: int)
    requires
        a != b,
        0 <= k <= a.len(),
        k <= b.len(),
        forall|j: int| 0 <= j < k ==> a[j] == b[j],
    ensures
        lex_lt(a, b) || lex_lt(b, a),
    decreases a.len() - k,
{
    if k == a.len() || k == b.len() {
        if a.len() == b.len() {
            assert(a =~= b);
        } else if a.len() < b.len() {
            assert(lex_lt_at(a, b, k));
        } else {
            assert(lex_lt_at(b, a, k));
        }
    } else if a[k] != b[k] {
        if (a[k] as int) < (b[k] as int) {
            assert(lex_lt_at(a, b, k));
        } else {
            assert(lex_lt_at(b, a, k));
        }
    } else {
        lemma_lex_first_difference(a, b, k + 1);
    }
}

/// Two different sequences are ordered one way or the other.
pub proof fn lemma_lex_lt_total(a: Seq<char>, b: Seq<char>)
    requires
        a != b,
    ensures
        lex_lt(a, b) || lex_lt(b, a),
{
    lemma_lex_first_difference(a, b, 0);
}

/// Compares two strings by the lexicographic order of their code points.
pub fn lex_less(a: &str, b: &str) -> (r: bool)
    ensures
        r == lex_lt(a@, b@),
{
    let la = a.unicode_len();
    let lb = b.unicode_len();
    let mut i: usize = 0;
    while i < la && i < lb
        invariant
            i <= la,
            i <= lb,
            la == a@.len(),
            lb == b@.len(),
            forall|j: int| 0 <= j < i ==> a@[j] == b@[j],
        decreases la - i,
    {
        let ca = a.get_char(i);
        let cb = b.get_char(i);
        if (ca as u32) != (cb as u32) {
            let r = (ca as u32) < (cb as u32);
            proof {
                if r {
                    assert(lex_lt_at(a@, b@, i as int));
                } else if lex_lt(a@, b@) {
                    let k = choose|k: int| lex_lt_at(a@, b@, k);
                    if k > i {
                        assert(a@[i as int] == b@[i as int]);
                    }
                }
            }
            return r;
        }
        i += 1;
    }
    proof {
        if la < lb {
            assert(lex_lt_at(a@, b@, la as int));
        } else if lex_lt(a@, b@) {
            let k = choose|k: int| lex_lt_at(a@, b@, k);
            if k < lb {
                assert(a@[k] == b@[k]);
            }
        }
    }
    la < lb
}

/// Sorts strings that are pairwise different into strictly increasing order.
pub fn sort_distinct(v: &Vec<String>) -> (r: Vec<String>)
    requires
        string_views(v@).no_duplicates(),
    ensures
        r@.len() == v@.len(),
        strictly_sorted(string_views(r@)),
        forall|x: Seq<char>| string_views(r@).contains(x) <==> string_views(v@).contains(x),
{
    let mut out: Vec<String> = Vec::new();
    let n = v.len();
    for i in 0..n
        invariant
            n == v@.len(),
            string_views(v@).no_duplicates(),
            out@.len() == i,
            strictly_sorted(string_views(out@)),
            forall|x: Seq<char>|
                string_views(out@).contains(x) <==> string_views(v@.take(i as int)).contains(x),
    {
        let x = v[i].clone();
        let ghost xv = x@;
        let ghost before = string_views(out@);
        assert(!before.contains(xv)) by {
            if before.contains(xv) {
                let j = choose|j: int| 0 <= j < i && string_views(v@.take(i as int))[j] == xv;
                assert(string_views(v@)[j] == string_views(v@)[i as int]);
            }
        }
        let mut p: usize = 0;
        while p < out.len() && !lex_less(x.as_str(), out[p].as_str())
            invariant
                p <= out@.len(),
                out@.len() == i,
                x@ == xv,
                forall|q: int| 0 <= q < p ==> !lex_lt(xv, #[trigger] string_views(out@)[q]),
            decreases out@.len() - p,
        {
            p += 1;
        }
        out.insert(p, x);
        proof {
            let after = string_views(out@);
            assert(after =~= before.insert(p as int, xv));
            before.insert_ensures(p as int, xv);
            assert forall|a: int, b: int| 0 <= a < b < after.len() implies lex_lt(
                after[a],
                after[b],
            ) by {
                if b < p {
                    assert(after[a] == before[a] && after[b] == before[b]);
                } else if b == p {
                    assert(after[a] == before[a]);
                    assert(before[a] != xv);
                    lemma_lex_lt_total(before[a], xv);
                } else if a > p {
                    assert(after[a] == before[a - 1] && after[b] == before[b - 1]);
                } else if a == p {
                    assert(after[b] == before[b - 1]);
                    assert(lex_lt(xv, before[p as int]));
                    if b - 1 > p {
                        lemma_lex_lt_transitive(xv, before[p as int], before[b - 1]);
                    }
                } else {
                    assert(after[a] == before[a] && after[b] == before[b - 1]);
                }
            }
            let prev = string_views(v@.take(i as int));
            let next = string_views(v@.take(i + 1));
            assert(next =~= prev.push(xv));
            assert forall|y: Seq<char>| after.contains(y) implies next.contains(y) by {
                let j = choose|j: int| 0 <= j < after.len() && after[j] == y;
                if j < p {
                    assert(before[j] == y);
                    assert(before.contains(y));
                    assert(prev.contains(y));
                    let q = choose|q: int| 0 <= q < prev.len() && prev[q] == y;
                    assert(next[q] == y);
                } else if j > p {
                    assert(before[j - 1] == y);
                    assert(before.contains(y));
                    assert(prev.contains(y));
                    let q = choose|q: int| 0 <= q < prev.len() && prev[q] == y;
                    assert(next[q] == y);
                } else {
                    assert(next[i as int] == y);
                }
            }
            assert forall|y: Seq<char>| next.contains(y) implies after.contains(y) by {
                let j = choose|j: int| 0 <= j < next.len() && next[j] == y;
                if j < i {
                    assert(prev[j] == y);
                    assert(prev.contains(y));
                    assert(before.contains(y));
                    let q = choose|q: int| 0 <= q < before.len() && before[q] == y;
                    if q < p {
                        assert(after[q] == y);
                    } else {
                        assert(after[q + 1] == y);
                    }
                } else {
                    assert(after[p as int] == y);
                }
            }
        }
    }
    assert(v@.take(n as int) =~= v@);
    out
}

/// A copy of a list of string lists.
pub fn clone_string_lists(v: &Vec<Vec<String>>) -> (r: Vec<Vec<String>>)
    ensures
        r@.len() == v@.len(),
        forall|i: int| 0 <= i < v@.len() ==> string_views(#[trigger] r@[i]@) == string_views(v@[i]@),
{
    let mut out: Vec<Vec<String>> = Vec::new();
    let n = v.len();
    for i in 0..n
        invariant
            n == v@.len(),
            out@.len() == i,
            forall|j: int| 0 <= j < i ==> string_views(#[trigger] out@[j]@) == string_views(v@[j]@),
    {
        let src = &v[i];
        let m = src.len();
        let mut inner: Vec<String> = Vec::new();
        for k in 0..m
            invariant
                m == src@.len(),
                inner@.len() == k,
                forall|j: int| 0 <= j < k ==> (#[trigger] inner@[j])@ == src@[j]@,
        {
            inner.push(src[k].clone());
        }
        assert(string_views(inner@) =~= string_views(src@));
        out.push(inner);
    }
    out
}

} // verus!
