use vstd::prelude::*;
use crate::matcher::idx_view;

verus! {

/// Terminal emphasis around one character: bold on, the character, bold off.
pub open spec fn mark_of(c: char) -> Seq<char> {
    seq!['\u{1b}', '[', '1', 'm', c, '\u{1b}', '[', '0', 'm']
}

/// The text from position `i` on, with the characters at the positions from
/// `pos[pj]` on emphasised.
pub open spec fn decorate_from(text: Seq<char>, pos: Seq<int>, i: int, pj: int) -> Seq<char>
    decreases text.len() - i,
{
    if i < 0 || i >= text.len() {
        Seq::empty()
    } else if 0 <= pj < pos.len() && pos[pj] == i {
        mark_of(text[i]) + decorate_from(text, pos, i + 1, pj + 1)
    } else {
        seq![text[i]] + decorate_from(text, pos, i + 1, pj)
    }
}

/// The candidate name with every matched character emphasised.
pub open spec fn decorated(text: Seq<char>, pos: Seq<int>) -> Seq<char> {
    decorate_from(text, pos, 0, 0)
}

/// The display string of a match: the relative parent directory and the
/// decorated name, joined in the `.\parent\name` shape.
pub open spec fn display_of(parent: Seq<char>, name: Seq<char>, pos: Seq<int>) -> Seq<char> {
    seq!['.', '\\'] + parent + seq!['\\'] + decorated(name, pos)
}

/// Emphasises the characters of `text` standing at `positions`.
pub fn decorate(text: &str, positions: &Vec<usize>) -> (r: String)
    ensures
        r@ == decorated(text@, idx_view(positions@)),
{
    let n: usize = text.unicode_len();
    let mut out = String::new();
    let mut i: usize = 0;
    let mut pj: usize = 0;
    proof {
        assert(out@ + decorate_from(text@, idx_view(positions@), 0, 0) =~= decorated(
            text@,
            idx_view(positions@),
        ));
    }
    while i < n
        invariant
            n == text@.len(),
            i <= n,
            pj <= positions@.len(),
            out@ + decorate_from(text@, idx_view(positions@), i as int, pj as int) == decorated(
                text@,
                idx_view(positions@),
            ),
        decreases n - i,
    {
        let ghost pv = idx_view(positions@);
        if pj < positions.len() && positions[pj] == i {
            out.append("\u{1b}[1m");
            out.append(text.substring_char(i, i + 1));
            out.append("\u{1b}[0m");
            proof {
                reveal_strlit("\u{1b}[1m");
                reveal_strlit("\u{1b}[0m");
                assert(pv[pj as int] == i as int);
                assert(text@.subrange(i as int, i + 1) =~= seq![text@[i as int]]);
                assert(("\u{1b}[1m")@ + seq![text@[i as int]] + ("\u{1b}[0m")@ =~= mark_of(
                    text@[i as int],
                ));
                assert(out@ + decorate_from(text@, pv, i + 1, pj + 1) =~= decorated(text@, pv));
            }
            pj = pj + 1;
        } else {
            out.append(text.substring_char(i, i + 1));
            proof {
                assert(pj < pv.len() ==> pv[pj as int] != i as int);
                assert(text@.subrange(i as int, i + 1) =~= seq![text@[i as int]]);
                assert(out@ + decorate_from(text@, pv, i + 1, pj as int) =~= decorated(text@, pv));
            }
        }
        i = i + 1;
    }
    proof {
        assert(out@ + Seq::<char>::empty() =~= out@);
    }
    out
}

} // verus!
