use vstd::prelude::*;
use crate::accumulator::MatchAccumulator;
use crate::format::{decorate, display_of};
use crate::matcher::{Matcher, fuzzy_match};
use crate::record::{MatchRecord, rec_view, recs_view, strs_view};
use crate::top_matches::{get_top_matches, top_view, overflow_of};

verus! {

/// The size of the live and final rendered view when none is configured.
pub const DEFAULT_TOP_K: usize = 10;

/// What one sample of the run's state asks of the terminal.
pub enum RenderAction {
    /// The visible set changed: clear the screen and print these lines.
    Redraw(Vec<String>),
    /// Nothing visible changed: show only this overflow count.
    Progress(usize),
    /// The search has completed; the renderer stops and hands control back.
    Stop,
}

/// One search run: the query matcher, the growing result set, the renderer's
/// last-shown view, and the completion handoff from scanning to browsing.
pub struct Searcher {
    pub base_dir: String,
    pub matcher: Matcher,
    pub verbose: bool,
    pub matches: MatchAccumulator,
    pub last_printed: Vec<String>,
    pub completed: bool,
    pub top_k: usize,
}

/// Does a sample of this state oblige the renderer to repaint the screen?
pub open spec fn would_redraw(s: Searcher) -> bool {
    &&& !s.completed
    &&& top_view(recs_view(s.matches@), s.top_k as int) != strs_view(s.last_printed@)
}

/// Is the query a substring of the display string? (What the browsing
/// filter keeps.)
pub open spec fn contains_seq(hay: Seq<char>, needle: Seq<char>) -> bool {
    exists|i: int|
        0 <= i && i + needle.len() <= hay.len() && #[trigger] hay.subrange(i, i + needle.len())
            == needle
}

impl Searcher {
    /// A fresh session over `base_dir` and `query`: empty result set, empty
    /// last-rendered view, completion flag down, default view size.
    pub fn new(base_dir: String, query: String, verbose: bool) -> (s: Searcher)
        ensures
            s.base_dir == base_dir,
            s.matcher.query == query,
            s.verbose == verbose,
            s.matches@ == Seq::<MatchRecord>::empty(),
            s.last_printed@ == Seq::<String>::empty(),
            !s.completed,
            s.top_k == DEFAULT_TOP_K,
    {
        Searcher {
            base_dir,
            verbose,
            matches: MatchAccumulator::new(),
            matcher: Matcher::new(query),
            last_printed: Vec::new(),
            completed: false,
            top_k: DEFAULT_TOP_K,
        }
    }

    /// Configures how many matches the live and final views show.
    pub fn set_top_k(&mut self, k: usize)
        requires
            k >= 1,
        ensures
            final(self).top_k == k,
            final(self).base_dir == old(self).base_dir,
            final(self).matcher == old(self).matcher,
            final(self).verbose == old(self).verbose,
            final(self).matches@ == old(self).matches@,
            final(self).last_printed@ == old(self).last_printed@,
            final(self).completed == old(self).completed,
    {
        self.top_k = k;
    }

    /// Tests one directory entry's name against the query. On a match, the
    /// entry's decorated relative path is appended to the result set with its
    /// score; otherwise the set is untouched. Only the entry's own name is
    /// tested, never its full path.
    pub fn check_match(&mut self, file_name: &str, parent_dir: &str)
        requires
            file_name@.len() * 10 <= i64::MAX,
        ensures
            final(self).base_dir == old(self).base_dir,
            final(self).matcher == old(self).matcher,
            final(self).verbose == old(self).verbose,
            final(self).last_printed@ == old(self).last_printed@,
            final(self).completed == old(self).completed,
            final(self).top_k == old(self).top_k,
            match fuzzy_match(old(self).matcher.query@, file_name@) {
                Some(sp) => recs_view(final(self).matches@) == recs_view(
                    old(self).matches@,
                ).push((sp.0, display_of(parent_dir@, file_name@, sp.1))),
                None => final(self).matches@ == old(self).matches@,
            },
    {
        match self.matcher.fmatch(file_name) {
            Some((score, indices)) => {
                let colored = decorate(file_name, &indices);
                let mut formatted = String::from_str(".\\");
                formatted.append(parent_dir);
                formatted.append("\\");
                formatted.append(colored.as_str());
                proof {
                    reveal_strlit(".\\");
                    reveal_strlit("\\");
                }
                let record = MatchRecord { score, display: formatted };
                proof {
                    let sp = fuzzy_match(self.matcher.query@, file_name@)->0;
                    assert(record.display@ =~= display_of(parent_dir@, file_name@, sp.1));
                }
                let ghost before = self.matches@;
                self.matches.append(record);
                proof {
                    assert(recs_view(self.matches@) =~= recs_view(before).push(
                        rec_view(record),
                    ));
                }
            },
            None => {},
        }
    }

    /// Raises the completion flag: the walk has returned, every append is in
    /// the result set, and the next renderer sample will stop the renderer.
    pub fn complete_search(&mut self)
        ensures
            final(self).completed,
            final(self).base_dir == old(self).base_dir,
            final(self).matcher == old(self).matcher,
            final(self).verbose == old(self).verbose,
            final(self).matches@ == old(self).matches@,
            final(self).last_printed@ == old(self).last_printed@,
            final(self).top_k == old(self).top_k,
    {
        self.completed = true;
    }

    /// One sample of the renderer loop: stop once the search has completed;
    /// otherwise compute the current top-K view, and either report that the
    /// screen must be repainted with it (remembering it as the last-rendered
    /// view) or, when it equals the last-rendered view, ask only for the
    /// lightweight progress indicator.
    pub fn render_step(&mut self) -> (action: RenderAction)
        ensures
            old(self).completed ==> action is Stop && *final(self) == *old(self),
            !old(self).completed && !would_redraw(*old(self)) ==> {
                &&& action is Progress
                &&& action->Progress_0 == overflow_of(
                    recs_view(old(self).matches@),
                    old(self).top_k as int,
                )
                &&& *final(self) == *old(self)
            },
            would_redraw(*old(self)) ==> {
                &&& action is Redraw
                &&& strs_view(action->Redraw_0@) == top_view(
                    recs_view(old(self).matches@),
                    old(self).top_k as int,
                )
                &&& strs_view(final(self).last_printed@) == top_view(
                    recs_view(old(self).matches@),
                    old(self).top_k as int,
                )
                &&& final(self).base_dir == old(self).base_dir
                &&& final(self).matcher == old(self).matcher
                &&& final(self).verbose == old(self).verbose
                &&& final(self).matches@ == old(self).matches@
                &&& final(self).completed == old(self).completed
                &&& final(self).top_k == old(self).top_k
            },
    {
        if self.completed {
            return RenderAction::Stop;
        }
        let snap = self.matches.snapshot();
        let (tops, extra) = get_top_matches(&snap, self.top_k);
        if string_vecs_equal(&tops, &self.last_printed) {
            RenderAction::Progress(extra)
        } else {
            self.last_printed = clone_strings(&tops);
            RenderAction::Redraw(tops)
        }
    }

    /// The one authoritative render after completion: the top-K view and
    /// overflow count of the full, settled result set — never of a stale
    /// pre-completion sample.
    pub fn final_render(&self) -> (r: (Vec<String>, usize))
        requires
            self.completed,
        ensures
            strs_view(r.0@) == top_view(recs_view(self.matches@), self.top_k as int),
            r.1 == overflow_of(recs_view(self.matches@), self.top_k as int),
    {
        let snap = self.matches.snapshot();
        get_top_matches(&snap, self.top_k)
    }

    /// Every accumulated display string, in accumulation order.
    pub fn show_all(&self) -> (r: Vec<String>)
        ensures
            strs_view(r@) == recs_view(self.matches@).map_values(|p: (int, Seq<char>)| p.1),
    {
        let snap = self.matches.snapshot();
        let mut out: Vec<String> = Vec::new();
        let mut i: usize = 0;
        proof {
            assert(strs_view(out@) =~= recs_view(snap@).take(0).map_values(
                |p: (int, Seq<char>)| p.1,
            ));
        }
        while i < snap.len()
            invariant
                i <= snap@.len(),
                snap@ == self.matches@,
                out@.len() == i,
                strs_view(out@) == recs_view(snap@).take(i as int).map_values(
                    |p: (int, Seq<char>)| p.1,
                ),
            decreases snap@.len() - i,
        {
            let ghost prev = out@;
            out.push(snap[i].display.clone());
            proof {
                let t = recs_view(snap@);
                assert(out@ == prev.push(out@[i as int]));
                assert(out@[i as int]@ == t[i as int].1);
                assert forall|j: int| 0 <= j < i + 1 implies strs_view(out@)[j] == t.take(
                    i + 1,
                ).map_values(|p: (int, Seq<char>)| p.1)[j] by {
                    if j < i {
                        assert(strs_view(out@)[j] == strs_view(prev)[j]);
                    }
                }
                assert(strs_view(out@) =~= t.take(i + 1).map_values(|p: (int, Seq<char>)| p.1));
            }
            i = i + 1;
        }
        proof {
            assert(recs_view(snap@).take(snap@.len() as int) =~= recs_view(snap@));
        }
        out
    }

    /// The records whose display string contains the query as a substring:
    /// exactly the matching subset of the frozen result set, each surviving
    /// record keeping its score, in accumulation order.
    pub fn filter_matches(&self, query: &str) -> (r: Vec<MatchRecord>)
        ensures
            recs_view(r@) == recs_view(self.matches@).filter(
                |p: (int, Seq<char>)| contains_seq(p.1, query@),
            ),
    {
        let snap = self.matches.snapshot();
        let mut out: Vec<MatchRecord> = Vec::new();
        let mut i: usize = 0;
        proof {
            reveal(Seq::filter);
            assert(recs_view(snap@).take(0) =~= Seq::<(int, Seq<char>)>::empty());
            assert(recs_view(out@) =~= Seq::<(int, Seq<char>)>::empty());
            assert(Seq::<(int, Seq<char>)>::empty().filter(
                |p: (int, Seq<char>)| contains_seq(p.1, query@),
            ) =~= Seq::<(int, Seq<char>)>::empty());
        }
        while i < snap.len()
            invariant
                i <= snap@.len(),
                snap@ == self.matches@,
                recs_view(out@) == recs_view(snap@).take(i as int).filter(
                    |p: (int, Seq<char>)| contains_seq(p.1, query@),
                ),
            decreases snap@.len() - i,
        {
            let ghost prev = out@;
            let keep = str_contains(snap[i].display.as_str(), query);
            proof {
                reveal(Seq::filter);
                let t = recs_view(snap@);
                assert(t.take(i + 1).drop_last() =~= t.take(i as int));
                assert(t.take(i + 1).last() == t[i as int]);
                assert(t[i as int] == rec_view(snap@[i as int]));
                assert(keep == contains_seq(t[i as int].1, query@));
            }
            if keep {
                out.push(snap[i].duplicate());
                proof {
                    assert(recs_view(out@) =~= recs_view(prev).push(
                        rec_view(snap@[i as int]),
                    ));
                }
            }
            i = i + 1;
        }
        proof {
            assert(recs_view(snap@).take(snap@.len() as int) =~= recs_view(snap@));
        }
        out
    }

    /// The display strings of the filtered result set, for printing with
    /// their count.
    pub fn filter(&self, query: &str) -> (r: Vec<String>)
        ensures
            strs_view(r@) == recs_view(self.matches@).filter(
                |p: (int, Seq<char>)| contains_seq(p.1, query@),
            ).map_values(|p: (int, Seq<char>)| p.1),
    {
        let recs = self.filter_matches(query);
        let mut out: Vec<String> = Vec::new();
        let mut i: usize = 0;
        proof {
            assert(strs_view(out@) =~= recs_view(recs@).take(0).map_values(
                |p: (int, Seq<char>)| p.1,
            ));
        }
        while i < recs.len()
            invariant
                i <= recs@.len(),
                out@.len() == i,
                recs_view(recs@) == recs_view(self.matches@).filter(
                    |p: (int, Seq<char>)| contains_seq(p.1, query@),
                ),
                strs_view(out@) == recs_view(recs@).take(i as int).map_values(
                    |p: (int, Seq<char>)| p.1,
                ),
            decreases recs@.len() - i,
        {
            let ghost prev = out@;
            out.push(recs[i].display.clone());
            proof {
                let t = recs_view(recs@);
                assert(out@ == prev.push(out@[i as int]));
                assert(out@[i as int]@ == t[i as int].1);
                assert forall|j: int| 0 <= j < i + 1 implies strs_view(out@)[j] == t.take(
                    i + 1,
                ).map_values(|p: (int, Seq<char>)| p.1)[j] by {
                    if j < i {
                        assert(strs_view(out@)[j] == strs_view(prev)[j]);
                    }
                }
                assert(strs_view(out@) =~= t.take(i + 1).map_values(|p: (int, Seq<char>)| p.1));
            }
            i = i + 1;
        }
        proof {
            assert(recs_view(recs@).take(recs@.len() as int) =~= recs_view(recs@));
        }
        out
    }
}

/// The renderer never repaints twice in a row for an unchanged view: right
/// after a repaint the last-rendered view equals the computed view, so a
/// second sample of the same result set asks only for the progress
/// indicator.
pub proof fn lemma_render_stability(before: Searcher, after: Searcher)
    requires
        would_redraw(before),
        after.completed == before.completed,
        after.matches@ == before.matches@,
        after.top_k == before.top_k,
        strs_view(after.last_printed@) == top_view(
            recs_view(before.matches@),
            before.top_k as int,
        ),
    ensures
        !would_redraw(after),
{
}

/// Are two lists of lines the same text?
fn string_vecs_equal(a: &Vec<String>, b: &Vec<String>) -> (r: bool)
    ensures
        r == (strs_view(a@) == strs_view(b@)),
{
    if a.len() != b.len() {
        proof {
            assert(strs_view(a@).len() != strs_view(b@).len());
        }
        return false;
    }
    let mut i: usize = 0;
    while i < a.len()
        invariant
            i <= a@.len(),
            a@.len() == b@.len(),
            forall|j: int| 0 <= j < i ==> strs_view(a@)[j] == strs_view(b@)[j],
        decreases a@.len() - i,
    {
        if !(a[i] == b[i]) {
            proof {
                assert(strs_view(a@)[i as int] == a@[i as int]@);
                assert(strs_view(b@)[i as int] == b@[i as int]@);
            }
            return false;
        }
        i = i + 1;
    }
    proof {
        assert(strs_view(a@) =~= strs_view(b@));
    }
    true
}

/// An exact copy of a list of lines.
fn clone_strings(v: &Vec<String>) -> (r: Vec<String>)
    ensures
        strs_view(r@) == strs_view(v@),
{
    let mut out: Vec<String> = Vec::new();
    let mut i: usize = 0;
    while i < v.len()
        invariant
            i <= v@.len(),
            out@ == v@.take(i as int),
        decreases v@.len() - i,
    {
        out.push(v[i].clone());
        proof {
            assert(out@ =~= v@.take(i + 1));
        }
        i = i + 1;
    }
    proof {
        assert(v@.take(v@.len() as int) =~= v@);
    }
    out
}

/// Does `hay` contain `needle` as a contiguous substring?
pub fn str_contains(hay: &str, needle: &str) -> (r: bool)
    ensures
        r == contains_seq(hay@, needle@),
{
    let hlen: usize = hay.unicode_len();
    let nlen: usize = needle.unicode_len();
    if nlen > hlen {
        proof {
            assert(!contains_seq(hay@, needle@));
        }
        return false;
    }
    if nlen == 0 {
        proof {
            assert(hay@.subrange(0, 0 + needle@.len() as int) =~= needle@);
            assert(contains_seq(hay@, needle@));
        }
        return true;
    }
    let mut i: usize = 0;
    while i <= hlen - nlen
        invariant
            hlen == hay@.len(),
            nlen == needle@.len(),
            0 < nlen <= hlen,
            i <= hlen - nlen + 1,
            forall|x: int|
                0 <= x < i ==> #[trigger] hay@.subrange(x, x + needle@.len()) != needle@,
        decreases hlen - nlen + 1 - i,
    {
        let mut j: usize = 0;
        let mut matched = true;
        while j < nlen
            invariant
                hlen == hay@.len(),
                nlen == needle@.len(),
                i + nlen <= hlen,
                j <= nlen,
                matched ==> forall|y: int| 0 <= y < j ==> hay@[i + y] == needle@[y],
                !matched ==> hay@.subrange(i as int, i + needle@.len()) != needle@,
            decreases nlen - j,
        {
            if matched {
                let hc = hay.get_char(i + j);
                let nc = needle.get_char(j);
                if hc != nc {
                    proof {
                        assert(hay@.subrange(i as int, i + needle@.len())[j as int] == hay@[i + j]);
                    }
                    matched = false;
                }
            }
            j = j + 1;
        }
        if matched {
            proof {
                assert(hay@.subrange(i as int, i + needle@.len()) =~= needle@);
            }
            return true;
        }
        i = i + 1;
    }
    proof {
        assert forall|x: int|
            0 <= x && x + needle@.len() <= hay@.len() implies #[trigger] hay@.subrange(
                x,
                x + needle@.len(),
            ) != needle@ by {
            assert(x < i);
        }
    }
    false
}

} // verus!
