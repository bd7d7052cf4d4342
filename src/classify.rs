use vstd::prelude::*;

verus! {

/// How many times `a` occurs in `s`.
pub open spec fn occurrences<A>(s: Seq<A>, a: A) -> nat
    decreases s.len(),
{
    if s.len() == 0 {
        0
    } else {
        occurrences(s.drop_last(), a) + if s.last() == a {
            1nat
        } else {
            0nat
        }
    }
}

/// How many elements of `s` satisfy `p`.
pub open spec fn count_matching<A>(s: Seq<A>, p: spec_fn(A) -> bool) -> nat
    decreases s.len(),
{
    if s.len() == 0 {
        0
    } else {
        count_matching(s.drop_last(), p) + if p(s.last()) {
            1nat
        } else {
            0nat
        }
    }
}

/// The distinct values of `s`, in the order of their first occurrence.
pub open spec fn distinct<A>(s: Seq<A>) -> Seq<A>
    decreases s.len(),
{
    if s.len() == 0 {
        Seq::empty()
    } else {
        let d = distinct(s.drop_last());
        if d.contains(s.last()) {
            d
        } else {
            d.push(s.last())
        }
    }
}

/// `floor(part * 100 / whole)`, and zero for an empty whole.
pub open spec fn percent(part: nat, whole: nat) -> nat {
    if whole == 0 {
        0
    } else {
        part * 100 / whole
    }
}

/// Index of the first hypothesis of highest confidence: a later one replaces the best so
/// far only when its confidence is strictly higher.
pub open spec fn first_max<R>(h: Seq<(R, usize)>) -> int
    decreases h.len(),
{
    if h.len() <= 1 {
        0
    } else {
        let j = first_max(h.drop_last());
        if h.last().1 > h[j].1 {
            h.len() - 1
        } else {
            j
        }
    }
}

/// The hypothesis that a classification concludes: the first of highest confidence.
pub open spec fn concluded<R>(h: Seq<(R, usize)>) -> (R, usize) {
    h[first_max(h)]
}

pub proof fn lemma_occurrences_bound<A>(s: Seq<A>, a: A)
    ensures
        occurrences(s, a) <= s.len(),
    decreases s.len(),
{
    if s.len() > 0 {
        lemma_occurrences_bound(s.drop_last(), a);
    }
}

pub proof fn lemma_count_matching_bound<A>(s: Seq<A>, p: spec_fn(A) -> bool)
    ensures
        count_matching(s, p) <= s.len(),
    decreases s.len(),
{
    if s.len() > 0 {
        lemma_count_matching_bound(s.drop_last(), p);
    }
}

/// A value occurs in `s` exactly when it is one of the distinct values of `s`, and those
/// are pairwise different.
pub proof fn lemma_distinct<A>(s: Seq<A>)
    ensures
        forall|a: A| #[trigger] distinct(s).contains(a) <==> s.contains(a),
        forall|a: A| #[trigger] distinct(s).contains(a) <==> occurrences(s, a) > 0,
        distinct(s).no_duplicates(),
        distinct(s).len() <= s.len(),
    decreases s.len(),
{
    if s.len() > 0 {
        let p = s.drop_last();
        lemma_distinct(p);
        assert forall|a: A| #[trigger] distinct(s).contains(a) implies s.contains(a) by {
            if distinct(s).contains(a) && !distinct(p).contains(a) {
                assert(s[s.len() - 1] == a);
            }
            if p.contains(a) {
                let i = choose|i: int| 0 <= i < p.len() && p[i] == a;
                assert(i < s.len());
                assert(s[i] == a);
            }
        }
        assert forall|a: A|
            #[trigger] s.contains(a) <==> occurrences(s, a) > 0 by {
            assert(s[s.len() - 1] == s.last());
            assert(distinct(p).contains(a) <==> p.contains(a));
            if s.contains(a) && a != s.last() {
                let i = choose|i: int| 0 <= i < s.len() && s[i] == a;
                assert(i < p.len());
                assert(p[i] == a);
            }
            if p.contains(a) {
                let i = choose|i: int| 0 <= i < p.len() && p[i] == a;
                assert(i < s.len());
                assert(s[i] == a);
            }
        }
        assert forall|a: A|
            #[trigger] distinct(s).contains(a) <==> s.contains(a) by {
            assert(s[s.len() - 1] == s.last());
            if s.contains(a) && a != s.last() {
                let i = choose|i: int| 0 <= i < s.len() && s[i] == a;
                assert(i < p.len());
                assert(p[i] == a);
            }
            if p.contains(a) {
                let i = choose|i: int| 0 <= i < p.len() && p[i] == a;
                assert(i < s.len());
                assert(s[i] == a);
            }
            if distinct(s) != distinct(p) {
                assert(distinct(s) == distinct(p).push(s.last()));
                if distinct(s).contains(a) && a != s.last() {
                    let i = choose|i: int| 0 <= i < distinct(s).len() && distinct(s)[i] == a;
                    assert(i < distinct(p).len());
                    assert(distinct(p)[i] == a);
                }
                if distinct(p).contains(a) {
                    let i = choose|i: int| 0 <= i < distinct(p).len() && distinct(p)[i] == a;
                    assert(distinct(s)[i] == a);
                }
                assert(distinct(s).len() == distinct(p).len() + 1);
                assert(distinct(s)[distinct(p).len() as int] == s.last());
            }
        }
    }
}

/// The index that `first_max` picks holds the highest confidence, and every earlier one
/// is strictly lower.
pub proof fn lemma_first_max<R>(h: Seq<(R, usize)>)
    requires
        h.len() > 0,
    ensures
        0 <= first_max(h) < h.len(),
        forall|j: int| 0 <= j < h.len() ==> #[trigger] h[j].1 <= h[first_max(h)].1,
        forall|j: int| 0 <= j < first_max(h) ==> #[trigger] h[j].1 < h[first_max(h)].1,
    decreases h.len(),
{
    if h.len() > 1 {
        let p = h.drop_last();
        lemma_first_max(p);
        assert forall|j: int| 0 <= j < h.len() - 1 implies #[trigger] h[j] == p[j] by {}
    }
}

/// An index with the highest confidence and no earlier one as high is the one that
/// `first_max` picks.
pub proof fn lemma_first_max_unique<R>(h: Seq<(R, usize)>, m: int)
    requires
        0 <= m < h.len(),
        forall|j: int| 0 <= j < h.len() ==> #[trigger] h[j].1 <= h[m].1,
        forall|j: int| 0 <= j < m ==> #[trigger] h[j].1 < h[m].1,
    ensures
        first_max(h) == m,
{
    lemma_first_max(h);
    let f = first_max(h);
    assert(h[f].1 <= h[m].1);
    assert(h[m].1 <= h[f].1);
    if f < m {
        assert(h[f].1 < h[m].1);
    }
    if m < f {
        assert(h[m].1 < h[f].1);
    }
}

pub proof fn lemma_percent_bound(part: nat, whole: nat)
    requires
        part <= whole,
    ensures
        percent(part, whole) <= 100,
        part == whole && whole > 0 ==> percent(part, whole) == 100,
        whole >= 2 && part <= 1 ==> percent(part, whole) < 100,
{
    if whole > 0 {
        assert(part * 100 / whole <= 100) by (nonlinear_arith)
            requires
                part <= whole,
                whole > 0,
        ;
        if part == whole {
            assert(whole * 100 / whole == 100) by (nonlinear_arith)
                requires
                    whole > 0,
            ;
        }
        if whole >= 2 && part <= 1 {
            assert(part * 100 / whole < 100) by (nonlinear_arith)
                requires
                    part <= 1,
                    whole >= 2,
            ;
        }
    }
}

/// A sequence of one repeated value has that value as its only distinct one, occurring at
/// every position.
pub proof fn lemma_constant_seq<A>(s: Seq<A>, a: A)
    requires
        s.len() > 0,
        forall|i: int| 0 <= i < s.len() ==> s[i] == a,
    ensures
        distinct(s) == seq![a],
        occurrences(s, a) == s.len(),
    decreases s.len(),
{
    assert(s.last() == a) by {
        assert(s[s.len() - 1] == a);
    }
    if s.len() == 1 {
        assert(s.drop_last() =~= Seq::<A>::empty());
        assert(distinct(s.drop_last()) =~= Seq::<A>::empty());
        assert(occurrences(s.drop_last(), a) == 0);
        assert(distinct(s) =~= seq![a]);
    } else {
        let p = s.drop_last();
        assert forall|i: int| 0 <= i < p.len() implies p[i] == a by {
            assert(i < s.len());
            assert(p[i] == s[i]);
        }
        lemma_constant_seq(p, a);
        assert(seq![a].contains(a)) by {
            assert(seq![a][0] == a);
        }
    }
}

/// Without repeated values, the distinct values are the sequence itself and each of them
/// occurs once.
pub proof fn lemma_no_duplicates_seq<A>(s: Seq<A>)
    requires
        s.no_duplicates(),
    ensures
        distinct(s) == s,
        forall|i: int| 0 <= i < s.len() ==> occurrences(s, #[trigger] s[i]) == 1,
    decreases s.len(),
{
    if s.len() > 0 {
        let p = s.drop_last();
        assert(p.no_duplicates()) by {
            assert forall|i: int, j: int| 0 <= i < p.len() && 0 <= j < p.len() && i != j implies p[i]
                != p[j] by {
                assert(p[i] == s[i] && p[j] == s[j]);
            }
        }
        lemma_no_duplicates_seq(p);
        lemma_distinct(p);
        assert(!p.contains(s.last())) by {
            if p.contains(s.last()) {
                let i = choose|i: int| 0 <= i < p.len() && p[i] == s.last();
                assert(s[i] == s[s.len() - 1]);
            }
        }
        assert(distinct(s) =~= s);
        assert forall|i: int| 0 <= i < s.len() implies occurrences(s, #[trigger] s[i]) == 1 by {
            if i < s.len() - 1 {
                assert(p[i] == s[i]);
                assert(s[i] != s.last());
            } else {
                assert(occurrences(p, s.last()) == 0);
            }
        }
    }
}

/// `floor(part * 100 / whole)`, for a part no larger than the whole.
pub fn percent_of(part: usize, whole: usize) -> (r: usize)
    requires
        part <= whole,
    ensures
        r == percent(part as nat, whole as nat),
        r <= 100,
{
    if whole == 0 {
        return 0;
    }
    let p = part as u128;
    let w = whole as u128;
    proof {
        assert((p as int) * 100 / (w as int) <= 100) by (nonlinear_arith)
            requires
                p <= w,
                w > 0,
        ;
    }
    ((p * 100) / w) as usize
}

/// Index of the first hypothesis of highest confidence.
pub fn best_index<R>(h: &Vec<(R, usize)>) -> (r: usize)
    requires
        h@.len() > 0,
    ensures
        r == first_max(h@),
        r < h@.len(),
{
    let mut best: usize = 0;
    let mut i: usize = 1;
    while i < h.len()
        invariant
            1 <= i <= h@.len(),
            best < i,
            best == first_max(h@.take(i as int)),
        decreases h@.len() - i,
    {
        let ghost t = h@.take(i + 1);
        assert(t.drop_last() =~= h@.take(i as int));
        assert(t[best as int] == h@[best as int]);
        if h[i].1 > h[best].1 {
            best = i;
        }
        i += 1;
    }
    assert(h@.take(i as int) =~= h@);
    best
}

} // verus!
