use vstd::prelude::*;
use vstd::math::min;
use crate::ordering::{
    rec_leq, rec_leq_exec, lemma_rec_refl, lemma_rec_total, lemma_rec_antisym, lemma_rec_trans,
};
use crate::record::{MatchRecord, rec_view, recs_view, strs_view};

verus! {

broadcast use vstd::seq_lib::group_to_multiset_ensures, vstd::multiset::group_multiset_axioms;

/// The result set in presentation order: each record comes no later than
/// those after it.
pub open spec fn sorted_recs(s: Seq<(int, Seq<char>)>) -> bool {
    forall|i: int, j: int| 0 <= i < j < s.len() ==> rec_leq(s[i], s[j])
}

/// `x` placed into an already ordered sequence, after every record that
/// comes no later than it.
pub open spec fn insert_sorted_spec(
    x: (int, Seq<char>),
    s: Seq<(int, Seq<char>)>,
) -> Seq<(int, Seq<char>)>
    decreases s.len(),
{
    if s.len() == 0 {
        seq![x]
    } else if rec_leq(s[0], x) {
        seq![s[0]] + insert_sorted_spec(x, s.drop_first())
    } else {
        seq![x] + s
    }
}

/// The result set rearranged into presentation order.
pub open spec fn sort_recs(s: Seq<(int, Seq<char>)>) -> Seq<(int, Seq<char>)>
    decreases s.len(),
{
    if s.len() == 0 {
        Seq::empty()
    } else {
        insert_sorted_spec(s.last(), sort_recs(s.drop_last()))
    }
}

/// The displays of the at most `k` best records, in presentation order.
pub open spec fn top_view(s: Seq<(int, Seq<char>)>, k: int) -> Seq<Seq<char>> {
    sort_recs(s).take(min(k, s.len() as int)).map_values(|p: (int, Seq<char>)| p.1)
}

/// How many records exist beyond the `k` shown.
pub open spec fn overflow_of(s: Seq<(int, Seq<char>)>, k: int) -> int {
    s.len() - min(k, s.len() as int)
}

proof fn lemma_insert_split(x: (int, Seq<char>), s: Seq<(int, Seq<char>)>, p: int)
    requires
        0 <= p <= s.len(),
        forall|q: int| 0 <= q < p ==> rec_leq(s[q], x),
        p == s.len() || !rec_leq(s[p], x),
    ensures
        insert_sorted_spec(x, s) == s.take(p) + seq![x] + s.skip(p),
    decreases p,
{
    if p == 0 {
        if s.len() == 0 {
            assert(s.take(0) + seq![x] + s.skip(0) =~= seq![x]);
        } else {
            assert(!rec_leq(s[0], x));
            assert(s.take(0) + seq![x] + s.skip(0) =~= seq![x] + s);
        }
    } else {
        assert(rec_leq(s[0], x));
        let t = s.drop_first();
        assert forall|q: int| 0 <= q < p - 1 implies rec_leq(t[q], x) by {
            assert(t[q] == s[q + 1]);
        }
        assert(p - 1 == t.len() || !rec_leq(t[p - 1], x));
        lemma_insert_split(x, t, p - 1);
        assert(seq![s[0]] + (t.take(p - 1) + seq![x] + t.skip(p - 1)) =~= s.take(p) + seq![x]
            + s.skip(p));
    }
}

proof fn lemma_insert_multiset(x: (int, Seq<char>), s: Seq<(int, Seq<char>)>)
    ensures
        insert_sorted_spec(x, s).to_multiset() == s.to_multiset().insert(x),
    decreases s.len(),
{
    if s.len() == 0 {
        assert(seq![x] =~= s.push(x));
    } else if rec_leq(s[0], x) {
        let t = s.drop_first();
        lemma_insert_multiset(x, t);
        vstd::seq_lib::lemma_multiset_commutative(seq![s[0]], insert_sorted_spec(x, t));
        vstd::seq_lib::lemma_multiset_commutative(seq![s[0]], t);
        assert(seq![s[0]] + t =~= s);
        assert(seq![s[0]].to_multiset().add(t.to_multiset().insert(x)) =~= seq![
            s[0],
        ].to_multiset().add(t.to_multiset()).insert(x));
    } else {
        vstd::seq_lib::lemma_multiset_commutative(seq![x], s);
        assert(seq![x] =~= Seq::<(int, Seq<char>)>::empty().push(x));
        assert(seq![x].to_multiset().add(s.to_multiset()) =~= s.to_multiset().insert(x));
    }
}

proof fn lemma_insert_sorted(x: (int, Seq<char>), s: Seq<(int, Seq<char>)>)
    requires
        sorted_recs(s),
    ensures
        sorted_recs(insert_sorted_spec(x, s)),
    decreases s.len(),
{
    if s.len() == 0 {
    } else if rec_leq(s[0], x) {
        let t = s.drop_first();
        assert forall|i: int, j: int| 0 <= i < j < t.len() implies rec_leq(t[i], t[j]) by {
            assert(t[i] == s[i + 1]);
            assert(t[j] == s[j + 1]);
        }
        lemma_insert_sorted(x, t);
        lemma_insert_multiset(x, t);
        let ins = insert_sorted_spec(x, t);
        assert forall|j: int| 0 <= j < ins.len() implies rec_leq(s[0], ins[j]) by {
            assert(ins.contains(ins[j]));
            assert(ins.to_multiset().count(ins[j]) > 0);
            if ins[j] == x {
            } else {
                assert(t.to_multiset().count(ins[j]) > 0);
                assert(t.contains(ins[j]));
                let i = choose|i: int| 0 <= i < t.len() && t[i] == ins[j];
                assert(rec_leq(s[0], s[i + 1]));
            }
        }
        let r = seq![s[0]] + ins;
        assert forall|i: int, j: int| 0 <= i < j < r.len() implies rec_leq(r[i], r[j]) by {
            if i == 0 {
                assert(r[j] == ins[j - 1]);
            } else {
                assert(r[i] == ins[i - 1]);
                assert(r[j] == ins[j - 1]);
            }
        }
    } else {
        lemma_rec_total(s[0], x);
        let r = seq![x] + s;
        assert forall|i: int, j: int| 0 <= i < j < r.len() implies rec_leq(r[i], r[j]) by {
            if i == 0 {
                assert(r[j] == s[j - 1]);
                if j > 1 {
                    lemma_rec_trans(x, s[0], s[j - 1]);
                }
            } else {
                assert(r[i] == s[i - 1]);
                assert(r[j] == s[j - 1]);
            }
        }
    }
}

/// Sorting keeps exactly the records that went in, in equal number.
pub proof fn lemma_sort_ensures(s: Seq<(int, Seq<char>)>)
    ensures
        sorted_recs(sort_recs(s)),
        sort_recs(s).to_multiset() == s.to_multiset(),
        sort_recs(s).len() == s.len(),
    decreases s.len(),
{
    if s.len() == 0 {
    } else {
        let d = s.drop_last();
        lemma_sort_ensures(d);
        lemma_insert_sorted(s.last(), sort_recs(d));
        lemma_insert_multiset(s.last(), sort_recs(d));
        assert(d.push(s.last()) =~= s);
        assert(sort_recs(s).to_multiset() =~= s.to_multiset());
        assert(sort_recs(s).len() == sort_recs(s).to_multiset().len());
        assert(s.len() == s.to_multiset().len());
    }
}

/// Two ordered sequences holding the same records in the same number are the
/// same sequence: presentation order is fully determined by the records.
pub proof fn lemma_sorted_unique(s1: Seq<(int, Seq<char>)>, s2: Seq<(int, Seq<char>)>)
    requires
        sorted_recs(s1),
        sorted_recs(s2),
        s1.to_multiset() == s2.to_multiset(),
    ensures
        s1 == s2,
    decreases s1.len(),
{
    assert(s1.len() == s1.to_multiset().len());
    assert(s2.len() == s2.to_multiset().len());
    if s1.len() == 0 {
        assert(s1 =~= s2);
    } else {
        assert(s1.contains(s1[0]));
        assert(s1.to_multiset().count(s1[0]) > 0);
        assert(s2.contains(s1[0]));
        let j = choose|j: int| 0 <= j < s2.len() && s2[j] == s1[0];
        if j > 0 {
            assert(rec_leq(s2[0], s2[j]));
        } else {
            lemma_rec_refl(s1[0]);
        }
        assert(s2.contains(s2[0]));
        assert(s2.to_multiset().count(s2[0]) > 0);
        assert(s1.contains(s2[0]));
        let i = choose|i: int| 0 <= i < s1.len() && s1[i] == s2[0];
        if i > 0 {
            assert(rec_leq(s1[0], s1[i]));
        } else {
            lemma_rec_refl(s2[0]);
        }
        lemma_rec_antisym(s1[0], s2[0]);
        assert(s1.remove(0).to_multiset() == s1.to_multiset().remove(s1[0]));
        assert(s2.remove(0).to_multiset() == s2.to_multiset().remove(s2[0]));
        assert(s1.remove(0) =~= s1.drop_first());
        assert(s2.remove(0) =~= s2.drop_first());
        let t1 = s1.drop_first();
        let t2 = s2.drop_first();
        assert forall|a: int, b: int| 0 <= a < b < t1.len() implies rec_leq(t1[a], t1[b]) by {
            assert(t1[a] == s1[a + 1]);
            assert(t1[b] == s1[b + 1]);
        }
        assert forall|a: int, b: int| 0 <= a < b < t2.len() implies rec_leq(t2[a], t2[b]) by {
            assert(t2[a] == s2[a + 1]);
            assert(t2[b] == s2[b + 1]);
        }
        lemma_sorted_unique(t1, t2);
        assert forall|m: int| 0 <= m < s1.len() implies s1[m] == s2[m] by {
            if m > 0 {
                assert(s1[m] == t1[m - 1]);
                assert(s2[m] == t2[m - 1]);
            }
        }
        assert(s1 =~= s2);
    }
}

/// The final view is a function of the records alone: two runs that
/// accumulated the same multiset of matches, in whatever interleaving of
/// appends, present the same top-K listing and the same overflow count.
pub proof fn lemma_top_view_permutation(
    s1: Seq<(int, Seq<char>)>,
    s2: Seq<(int, Seq<char>)>,
    k: int,
)
    requires
        s1.to_multiset() == s2.to_multiset(),
    ensures
        top_view(s1, k) == top_view(s2, k),
        overflow_of(s1, k) == overflow_of(s2, k),
{
    assert(s1.len() == s1.to_multiset().len());
    assert(s2.len() == s2.to_multiset().len());
    lemma_sort_ensures(s1);
    lemma_sort_ensures(s2);
    lemma_sorted_unique(sort_recs(s1), sort_recs(s2));
}

fn insert_match(v: &mut Vec<MatchRecord>, x: MatchRecord)
    ensures
        recs_view(final(v)@) == insert_sorted_spec(rec_view(x), recs_view(old(v)@)),
{
    let mut p: usize = 0;
    while p < v.len() && rec_leq_exec(&v[p], &x)
        invariant
            p <= v.len(),
            v@ == old(v)@,
            forall|q: int| 0 <= q < p ==> rec_leq(rec_view(v@[q]), rec_view(x)),
        decreases v.len() - p,
    {
        p = p + 1;
    }
    proof {
        let s = recs_view(v@);
        assert forall|q: int| 0 <= q < p implies rec_leq(s[q], rec_view(x)) by {
            assert(s[q] == rec_view(v@[q]));
        }
        assert(p == s.len() || !rec_leq(s[p as int], rec_view(x)));
        lemma_insert_split(rec_view(x), s, p as int);
    }
    let ghost prior = v@;
    v.insert(p, x);
    proof {
        let s = recs_view(prior);
        assert(v@ == prior.insert(p as int, x));
        assert(recs_view(v@) =~= s.take(p as int) + seq![rec_view(x)] + s.skip(p as int));
    }
}

fn sort_matches(v: &Vec<MatchRecord>) -> (out: Vec<MatchRecord>)
    ensures
        recs_view(out@) == sort_recs(recs_view(v@)),
{
    let mut out: Vec<MatchRecord> = Vec::new();
    let mut i: usize = 0;
    proof {
        assert(recs_view(v@).take(0) =~= Seq::empty());
        assert(recs_view(out@) =~= Seq::empty());
    }
    while i < v.len()
        invariant
            i <= v.len(),
            recs_view(out@) == sort_recs(recs_view(v@).take(i as int)),
        decreases v.len() - i,
    {
        insert_match(&mut out, v[i].duplicate());
        proof {
            let t = recs_view(v@);
            assert(t.take(i + 1).drop_last() =~= t.take(i as int));
            assert(t.take(i + 1).last() == t[i as int]);
            assert(rec_view(v@[i as int]) == t[i as int]);
        }
        i = i + 1;
    }
    proof {
        assert(recs_view(v@).take(v@.len() as int) =~= recs_view(v@));
    }
    out
}

/// The top-K selection: the displays of the `k` best records in presentation
/// order, and a count of how many further matches exist beyond them.
pub fn get_top_matches(matches: &Vec<MatchRecord>, k: usize) -> (r: (Vec<String>, usize))
    ensures
        strs_view(r.0@) == top_view(recs_view(matches@), k as int),
        r.1 == overflow_of(recs_view(matches@), k as int),
{
    let sorted = sort_matches(matches);
    proof {
        lemma_sort_ensures(recs_view(matches@));
        assert(recs_view(sorted@).len() == sorted@.len());
        assert(recs_view(matches@).len() == matches@.len());
    }
    let n = sorted.len();
    let cut = if k < n {
        k
    } else {
        n
    };
    let mut tops: Vec<String> = Vec::new();
    let mut i: usize = 0;
    while i < cut
        invariant
            i <= cut,
            cut <= sorted@.len(),
            tops@.len() == i,
            cut == min(k as int, recs_view(matches@).len() as int),
            recs_view(sorted@) == sort_recs(recs_view(matches@)),
            strs_view(tops@) == sort_recs(recs_view(matches@)).take(i as int).map_values(
                |p: (int, Seq<char>)| p.1,
            ),
        decreases cut - i,
    {
        let ghost prev = tops@;
        tops.push(sorted[i].display.clone());
        proof {
            let sr = sort_recs(recs_view(matches@));
            assert(rec_view(sorted@[i as int]) == sr[i as int]);
            assert(tops@ == prev.push(tops@[i as int]));
            assert forall|j: int| 0 <= j < i + 1 implies strs_view(tops@)[j] == sr.take(
                i + 1,
            ).map_values(|p: (int, Seq<char>)| p.1)[j] by {
                if j < i {
                    assert(strs_view(tops@)[j] == strs_view(prev)[j]);
                    assert(strs_view(prev)[j] == sr.take(i as int).map_values(
                        |p: (int, Seq<char>)| p.1,
                    )[j]);
                } else {
                    assert(strs_view(tops@)[j] == sorted@[i as int].display@);
                }
            }
            assert(strs_view(tops@) =~= sr.take(i + 1).map_values(|p: (int, Seq<char>)| p.1));
        }
        i = i + 1;
    }
    let extra = matches.len() - cut;
    (tops, extra)
}

} // verus!
