use vstd::prelude::*;

verus! {

/// Positions, at or after `from`, where the characters of `q` occur in order
/// in `c`, chosen greedily from the left; `None` when `q` is not a
/// subsequence of the remainder of `c`.
pub open spec fn greedy_positions(q: Seq<char>, c: Seq<char>, from: int) -> Option<Seq<int>>
    decreases c.len() - from,
{
    if q.len() == 0 {
        Some(Seq::empty())
    } else if from < 0 || from >= c.len() {
        None
    } else if c[from] == q[0] {
        match greedy_positions(q.drop_first(), c, from + 1) {
            Some(rest) => Some(seq![from] + rest),
            None => None,
        }
    } else {
        greedy_positions(q, c, from + 1)
    }
}

/// Do the characters of `q` occur in `c` in order, not necessarily
/// contiguously?
pub open spec fn is_subsequence(q: Seq<char>, c: Seq<char>) -> bool
    decreases c.len(),
{
    if q.len() == 0 {
        true
    } else if c.len() == 0 {
        false
    } else if q[0] == c[0] {
        is_subsequence(q.drop_first(), c.drop_first()) || is_subsequence(q, c.drop_first())
    } else {
        is_subsequence(q, c.drop_first())
    }
}

/// A subsequence of the tail is a subsequence of the whole.
proof fn lemma_subsequence_extends(q: Seq<char>, c: Seq<char>)
    requires
        c.len() > 0,
        is_subsequence(q, c.drop_first()),
    ensures
        is_subsequence(q, c),
{
}

/// Dropping the query's first character preserves being a subsequence.
proof fn lemma_subsequence_drops_query_head(q: Seq<char>, c: Seq<char>)
    requires
        q.len() > 0,
        is_subsequence(q, c),
    ensures
        is_subsequence(q.drop_first(), c),
    decreases c.len(),
{
    assert(c.len() > 0);
    if q[0] == c[0] {
        if is_subsequence(q.drop_first(), c.drop_first()) {
            lemma_subsequence_extends(q.drop_first(), c);
        } else {
            lemma_subsequence_drops_query_head(q, c.drop_first());
            lemma_subsequence_extends(q.drop_first(), c);
        }
    } else {
        lemma_subsequence_drops_query_head(q, c.drop_first());
        lemma_subsequence_extends(q.drop_first(), c);
    }
}

/// Taking a matching first character loses nothing: the greedy choice is
/// complete.
proof fn lemma_subsequence_greedy_step(q: Seq<char>, c: Seq<char>)
    requires
        q.len() > 0,
        c.len() > 0,
        q[0] == c[0],
        is_subsequence(q, c),
    ensures
        is_subsequence(q.drop_first(), c.drop_first()),
{
    if !is_subsequence(q.drop_first(), c.drop_first()) {
        assert(is_subsequence(q, c.drop_first()));
        lemma_subsequence_drops_query_head(q, c.drop_first());
    }
}

proof fn lemma_greedy_iff_subsequence(q: Seq<char>, c: Seq<char>, from: int)
    requires
        0 <= from <= c.len(),
    ensures
        greedy_positions(q, c, from) is Some <==> is_subsequence(q, c.skip(from)),
    decreases c.len() - from,
{
    let s = c.skip(from);
    if q.len() == 0 {
    } else if from >= c.len() {
        assert(s.len() == 0);
    } else {
        assert(s.len() > 0);
        assert(s[0] == c[from]);
        assert(s.drop_first() =~= c.skip(from + 1));
        if c[from] == q[0] {
            lemma_greedy_iff_subsequence(q.drop_first(), c, from + 1);
            if greedy_positions(q, c, from) is Some {
                assert(is_subsequence(q.drop_first(), s.drop_first()));
            }
            if is_subsequence(q, s) {
                lemma_subsequence_greedy_step(q, s);
            }
        } else {
            lemma_greedy_iff_subsequence(q, c, from + 1);
        }
    }
}

/// A candidate matches the query exactly when the query's characters occur
/// in the candidate's name in order, not necessarily contiguously.
pub proof fn lemma_match_iff_subsequence(q: Seq<char>, c: Seq<char>)
    ensures
        fuzzy_match(q, c) is Some <==> is_subsequence(q, c),
{
    lemma_greedy_iff_subsequence(q, c, 0);
    assert(c.skip(0) =~= c);
}

proof fn lemma_greedy_positions_bounds(q: Seq<char>, c: Seq<char>, from: int)
    requires
        0 <= from,
        greedy_positions(q, c, from) is Some,
    ensures
        ({
            let pos = greedy_positions(q, c, from)->0;
            &&& pos.len() == q.len()
            &&& forall|j: int| 0 <= j < pos.len() ==> from <= #[trigger] pos[j] < c.len()
            &&& forall|j: int, k: int| 0 <= j < k < pos.len() ==> pos[j] < pos[k]
        }),
    decreases c.len() - from,
{
    if q.len() == 0 {
    } else if from >= c.len() {
    } else if c[from] == q[0] {
        lemma_greedy_positions_bounds(q.drop_first(), c, from + 1);
        let rest = greedy_positions(q.drop_first(), c, from + 1)->0;
        let pos = greedy_positions(q, c, from)->0;
        assert(pos == seq![from] + rest);
        assert(forall|j: int| 0 <= j < pos.len() ==> from <= #[trigger] pos[j] < c.len());
    } else {
        lemma_greedy_positions_bounds(q, c, from + 1);
    }
}

/// A match reports one position per query character, each a valid character
/// index into the candidate, in strictly increasing order.
pub proof fn lemma_match_positions(q: Seq<char>, c: Seq<char>)
    requires
        fuzzy_match(q, c) is Some,
    ensures
        ({
            let sp = fuzzy_match(q, c)->0;
            &&& sp.1.len() == q.len()
            &&& forall|j: int| 0 <= j < sp.1.len() ==> 0 <= #[trigger] sp.1[j] < c.len()
            &&& forall|j: int, k: int| 0 <= j < k < sp.1.len() ==> sp.1[j] < sp.1[k]
        }),
{
    lemma_greedy_positions_bounds(q, c, 0);
}

/// How many consecutive matched positions are adjacent in the candidate.
pub open spec fn adjacent_pairs(pos: Seq<int>) -> int
    decreases pos.len(),
{
    if pos.len() < 2 {
        0
    } else if pos[1] == pos[0] + 1 {
        1 + adjacent_pairs(pos.drop_first())
    } else {
        adjacent_pairs(pos.drop_first())
    }
}

/// The score of a match: contiguity is rewarded, a late start is penalised.
pub open spec fn score_of(pos: Seq<int>) -> int {
    if pos.len() == 0 {
        0
    } else {
        10 * adjacent_pairs(pos) - pos[0]
    }
}

/// What a fuzzy match of `q` against `c` yields: the score and the matched
/// positions, or `None` when `q` is not a subsequence of `c`.
pub open spec fn fuzzy_match(q: Seq<char>, c: Seq<char>) -> Option<(int, Seq<int>)> {
    match greedy_positions(q, c, 0) {
        Some(pos) => Some((score_of(pos), pos)),
        None => None,
    }
}

/// The integer values of a vector of indices.
pub open spec fn idx_view(pos: Seq<usize>) -> Seq<int> {
    pos.map_values(|x: usize| x as int)
}

/// Tests candidate names against one fixed query.
pub struct Matcher {
    pub query: String,
}

impl Matcher {
    pub fn new(query: String) -> (m: Matcher)
        ensures
            m.query == query,
    {
        Matcher { query }
    }

    /// Fuzzy-match `candidate` against the query: the query's characters must
    /// occur in the candidate in order. Returns the score and the matched
    /// character positions, or `None` when the candidate does not match.
    pub fn fmatch(&self, candidate: &str) -> (r: Option<(i64, Vec<usize>)>)
        requires
            candidate@.len() * 10 <= i64::MAX,
        ensures
            match (fuzzy_match(self.query@, candidate@), r) {
                (Some(sp), Some(rr)) => rr.0 == sp.0 && idx_view(rr.1@) == sp.1,
                (None, None) => true,
                _ => false,
            },
    {
        let q: &str = self.query.as_str();
        let qlen: usize = q.unicode_len();
        let clen: usize = candidate.unicode_len();
        let mut qi: usize = 0;
        let mut ci: usize = 0;
        let mut positions: Vec<usize> = Vec::new();
        proof {
            assert(self.query@.skip(0) =~= self.query@);
            assert(idx_view(positions@) =~= Seq::<int>::empty());
            assert forall|rest: Seq<int>| Seq::<int>::empty() + rest =~= rest by {}
        }
        while ci < clen && qi < qlen
            invariant
                qi <= qlen,
                ci <= clen,
                qi <= ci,
                q@ == self.query@,
                qlen == self.query@.len(),
                clen == candidate@.len(),
                positions@.len() == qi,
                forall|j: int| 0 <= j < positions@.len() ==> positions@[j] < clen,
                greedy_positions(self.query@, candidate@, 0) == (match greedy_positions(
                    self.query@.skip(qi as int),
                    candidate@,
                    ci as int,
                ) {
                    Some(rest) => Some(idx_view(positions@) + rest),
                    None => None::<Seq<int>>,
                }),
            decreases clen - ci,
        {
            let cc = candidate.get_char(ci);
            let qc = q.get_char(qi);
            proof {
                assert(self.query@.skip(qi as int).len() > 0);
                assert(self.query@.skip(qi as int)[0] == self.query@[qi as int]);
                assert(self.query@.skip(qi as int).drop_first() =~= self.query@.skip(
                    qi as int + 1,
                ));
            }
            if cc == qc {
                positions.push(ci);
                qi = qi + 1;
                proof {
                    assert(idx_view(positions@) =~= idx_view(positions@.drop_last()) + seq![
                        ci as int,
                    ]);
                    assert forall|rest: Seq<int>|
                        idx_view(positions@.drop_last()) + (seq![ci as int] + rest) =~= idx_view(
                            positions@,
                        ) + rest by {}
                }
            }
            ci = ci + 1;
        }
        if qi < qlen {
            proof {
                assert(self.query@.skip(qi as int).len() > 0);
                assert(greedy_positions(self.query@.skip(qi as int), candidate@, ci as int)
                    is None);
            }
            return None;
        }
        proof {
            assert(self.query@.skip(qi as int) =~= Seq::<char>::empty());
            assert(greedy_positions(self.query@.skip(qi as int), candidate@, ci as int) == Some(
                Seq::<int>::empty(),
            ));
            assert(idx_view(positions@) + Seq::<int>::empty() =~= idx_view(positions@));
        }
        let score = score_positions(&positions, clen);
        proof {
            assert(idx_view(positions@) + Seq::<int>::empty() =~= idx_view(positions@));
        }
        Some((score, positions))
    }
}

/// The score of a completed match whose positions all lie below `bound`.
fn score_positions(positions: &Vec<usize>, bound: usize) -> (score: i64)
    requires
        forall|j: int| 0 <= j < positions@.len() ==> positions@[j] < bound,
        positions@.len() <= bound,
        bound * 10 <= i64::MAX,
    ensures
        score == score_of(idx_view(positions@)),
{
    let plen: usize = positions.len();
    if plen == 0 {
        return 0;
    }
    let ghost pm = idx_view(positions@);
    let mut adj: usize = 0;
    let mut i: usize = plen;
    proof {
        assert(pm.skip(plen as int) =~= Seq::<int>::empty());
    }
    while i > 0
        invariant
            i <= plen,
            plen == pm.len(),
            pm == idx_view(positions@),
            plen == positions@.len(),
            forall|j: int| 0 <= j < pm.len() ==> pm[j] < bound,
            adj <= plen - i,
            adj == adjacent_pairs(pm.skip(i as int)),
        decreases i,
    {
        i = i - 1;
        proof {
            assert(pm.skip(i as int).drop_first() =~= pm.skip(i as int + 1));
            assert(pm.skip(i as int)[0] == pm[i as int]);
            assert(i + 1 < plen ==> pm.skip(i as int)[1] == pm[i as int + 1]);
        }
        if i + 1 < plen && positions[i + 1] == positions[i] + 1 {
            adj = adj + 1;
        }
    }
    proof {
        assert(pm.skip(0) =~= pm);
        assert(adj <= plen <= bound);
        assert(0 <= pm[0] < bound);
    }
    10 * (adj as i64) - (positions[0] as i64)
}

} // verus!
