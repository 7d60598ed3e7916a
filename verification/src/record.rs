use vstd::prelude::*;

verus! {

/// One scored match: the fuzzy-match quality (higher is better) and the
/// pre-formatted relative path, ready for printing. Records are created once
/// per matching filesystem entry and never changed afterwards.
pub struct MatchRecord {
    pub score: i64,
    pub display: String,
}

/// The mathematical value of a record: its score and the characters of its
/// display string.
pub open spec fn rec_view(r: MatchRecord) -> (int, Seq<char>) {
    (r.score as int, r.display@)
}

/// The mathematical value of a whole result set.
pub open spec fn recs_view(s: Seq<MatchRecord>) -> Seq<(int, Seq<char>)> {
    s.map_values(|r: MatchRecord| rec_view(r))
}

/// The character sequences of a list of strings.
pub open spec fn strs_view(s: Seq<String>) -> Seq<Seq<char>> {
    s.map_values(|x: String| x@)
}

impl MatchRecord {
    /// An exact copy of the record.
    pub fn duplicate(&self) -> (r: MatchRecord)
        ensures
            r == *self,
    {
        MatchRecord { score: self.score, display: self.display.clone() }
    }
}

} // verus!
