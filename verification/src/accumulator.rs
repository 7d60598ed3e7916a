use vstd::prelude::*;
use crate::record::MatchRecord;

verus! {

/// The append-only store of scored matches for one run. Walker tasks append,
/// the renderer samples; a record, once appended, is never changed or
/// removed. The surrounding application shares it behind one lock, so every
/// access here is a bounded critical section.
pub struct MatchAccumulator {
    records: Vec<MatchRecord>,
}

impl View for MatchAccumulator {
    type V = Seq<MatchRecord>;

    closed spec fn view(&self) -> Seq<MatchRecord> {
        self.records@
    }
}

impl MatchAccumulator {
    /// A fresh, empty accumulator.
    pub fn new() -> (a: MatchAccumulator)
        ensures
            a@ == Seq::<MatchRecord>::empty(),
    {
        MatchAccumulator { records: Vec::new() }
    }

    /// Appends one record: everything already stored is preserved, the new
    /// record is stored exactly once, and nothing else appears.
    pub fn append(&mut self, r: MatchRecord)
        ensures
            final(self)@ == old(self)@.push(r),
    {
        self.records.push(r);
    }

    /// How many records have been appended so far.
    pub fn len(&self) -> (n: usize)
        ensures
            n == self@.len(),
    {
        self.records.len()
    }

    /// A copy of the current contents, complete and unshared: no partial
    /// records, nothing lost, nothing duplicated.
    pub fn snapshot(&self) -> (r: Vec<MatchRecord>)
        ensures
            r@ == self@,
    {
        let mut out: Vec<MatchRecord> = Vec::new();
        let mut i: usize = 0;
        while i < self.records.len()
            invariant
                i <= self.records@.len(),
                out@ == self.records@.take(i as int),
            decreases self.records@.len() - i,
        {
            out.push(self.records[i].duplicate());
            proof {
                assert(out@ =~= self.records@.take(i + 1));
            }
            i = i + 1;
        }
        proof {
            assert(self.records@.take(self.records@.len() as int) =~= self.records@);
        }
        out
    }
}

} // verus!
