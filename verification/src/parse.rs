//! Reading a cost grid from text: newline-separated rows of the digits
//! '1' through '9', one digit per cell, blank lines skipped.

use vstd::prelude::*;
use crate::grid::{Cave, wf_grid};

verus! {

/// A character that may stand for a cell: one of the digits '1'..='9'.
pub open spec fn is_cell_char(c: char) -> bool {
    49 <= c as u32 <= 57
}

/// The cost a digit character stands for.
pub open spec fn digit_val(c: char) -> u8 {
    (c as u32 - 48) as u8
}

/// A character the grid text may contain: a cell digit or a newline.
pub open spec fn ok_char(c: char) -> bool {
    c == '\n' || is_cell_char(c)
}

/// The text holds some character that is neither a digit '1'..='9' nor a
/// newline.
pub open spec fn has_bad_char(s: Seq<char>) -> bool {
    exists|i: int| 0 <= i < s.len() && !ok_char(#[trigger] s[i])
}

/// The non-blank lines of the text: maximal non-empty runs of characters
/// between newlines.
pub open spec fn lines_of(s: Seq<char>) -> Seq<Seq<char>>
    decreases s.len(),
{
    if s.len() == 0 {
        Seq::empty()
    } else {
        let p = s.drop_last();
        let c = s.last();
        let r = lines_of(p);
        if c == '\n' {
            r
        } else if p.len() == 0 || p.last() == '\n' {
            r.push(seq![c])
        } else {
            r.update(r.len() - 1, r.last().push(c))
        }
    }
}

/// The grid the text stands for: its lines, each character replaced by
/// the cost it stands for.
pub open spec fn grid_text(s: Seq<char>) -> Seq<Seq<u8>> {
    lines_of(s).map_values(|row: Seq<char>| row.map_values(|c: char| digit_val(c)))
}

/// Every row has the same length as the first.
pub open spec fn rectangular(v: Seq<Seq<u8>>) -> bool {
    forall|i: int| 0 <= i < v.len() ==> (#[trigger] v[i]).len() == v[0].len()
}

/// Why a text was rejected as a grid.
#[derive(Debug, Clone, Copy, PartialEq, Eq, Structural)]
pub enum ParseError {
    /// Some character is neither a digit '1'..='9' nor a newline.
    InvalidCharacter,
    /// The text holds no non-blank line.
    EmptyGrid,
    /// Two non-blank lines differ in length.
    UnevenRows,
}

/// Reads a cost grid from newline-separated rows of digit characters.
/// Blank lines are skipped.  Exactly the texts whose characters are all
/// digits '1'..='9' or newlines, with at least one non-blank line, all
/// non-blank lines of one length, are accepted; the error names the first
/// reason that fails, checked in the order character, emptiness, shape.
pub fn parse_cave(array: &str) -> (r: Result<Cave, ParseError>)
    ensures
        match r {
            Ok(c) => {
                &&& !has_bad_char(array@)
                &&& grid_text(array@).len() > 0
                &&& rectangular(grid_text(array@))
                &&& c.wf()
                &&& c@ == grid_text(array@)
            },
            Err(ParseError::InvalidCharacter) => has_bad_char(array@),
            Err(ParseError::EmptyGrid) => !has_bad_char(array@) && grid_text(array@).len() == 0,
            Err(ParseError::UnevenRows) => {
                &&& !has_bad_char(array@)
                &&& grid_text(array@).len() > 0
                &&& !rectangular(grid_text(array@))
            },
        },
{
    let len = array.unicode_len();
    let mut i: usize = 0;
    while i < len
        invariant
            len == array@.len(),
            i <= len,
            forall|q: int| 0 <= q < i ==> ok_char(#[trigger] array@[q]),
        decreases len - i,
    {
        let c = array.get_char(i);
        let u = c as u32;
        if !(u == 10 || (49 <= u && u <= 57)) {
            proof {
                assert(!ok_char(array@[i as int]));
            }
            return Err(ParseError::InvalidCharacter);
        }
        i += 1;
    }
    let mut rows: Vec<Vec<u8>> = Vec::new();
    let mut cur: Vec<u8> = Vec::new();
    let ghost s = array@;
    let mut i: usize = 0;
    while i < len
        invariant
            len == s.len(),
            s == array@,
            i <= len,
            forall|q: int| 0 <= q < s.len() ==> ok_char(#[trigger] s[q]),
            cur@.len() == 0 <==> (i == 0 || s[i - 1] == '\n'),
            cur@.len() == 0 ==> Seq::new(rows@.len(), |k: int| rows@[k]@) == grid_text(
                s.subrange(0, i as int),
            ),
            cur@.len() > 0 ==> {
                let gt = grid_text(s.subrange(0, i as int));
                &&& gt.len() == rows@.len() + 1
                &&& gt.drop_last() == Seq::new(rows@.len(), |k: int| rows@[k]@)
                &&& gt.last() == cur@
            },
            forall|k: int| 0 <= k < rows@.len() ==> (#[trigger] rows@[k])@.len() >= 1,
            forall|k: int, j: int|
                0 <= k < rows@.len() && 0 <= j < rows@[k]@.len() ==> 1 <= #[trigger] rows@[k]@[j]
                    <= 9,
            forall|j: int| 0 <= j < cur@.len() ==> 1 <= #[trigger] cur@[j] <= 9,
        decreases len - i,
    {
        let ghost q = s.subrange(0, i as int);
        let ghost t = s.subrange(0, i + 1);
        let ghost rows_dv = Seq::new(rows@.len(), |k: int| rows@[k]@);
        proof {
            assert(t.drop_last() =~= q);
            assert(t.last() == s[i as int]);
            assert(ok_char(s[i as int]));
        }
        let c = array.get_char(i);
        if c == '\n' {
            proof {
                assert(lines_of(t) == lines_of(q));
            }
            if cur.len() > 0 {
                let ghost curv = cur@;
                let row = cur;
                cur = Vec::new();
                rows.push(row);
                proof {
                    assert(Seq::new(rows@.len(), |k: int| rows@[k]@) =~= rows_dv.push(curv));
                    assert(grid_text(t) =~= rows_dv.push(curv));
                }
            }
        } else {
            let u = c as u32;
            let v = (u - 48) as u8;
            proof {
                assert(is_cell_char(c));
                assert(v == digit_val(c));
                assert(1 <= v <= 9);
            }
            if cur.len() == 0 {
                proof {
                    assert(lines_of(t) == lines_of(q).push(seq![c]));
                    assert(seq![c].map_values(|ch: char| digit_val(ch)) =~= seq![v]);
                    assert(grid_text(t) =~= grid_text(q).push(seq![v]));
                    assert(grid_text(t).last() =~= seq![v]);
                    assert(grid_text(t).drop_last() =~= grid_text(q));
                }
                cur.push(v);
                proof {
                    assert(cur@ =~= seq![v]);
                }
            } else {
                let ghost lt = lines_of(t);
                let ghost lq = lines_of(q);
                proof {
                    assert(q.len() > 0 && q.last() != '\n');
                    assert(lt == lq.update(lq.len() - 1, lq.last().push(c)));
                    assert(grid_text(q).len() == lq.len());
                    assert(grid_text(q).last() == cur@);
                    assert(lq.last().map_values(|ch: char| digit_val(ch)) == cur@);
                    assert(lq.last().push(c).map_values(|ch: char| digit_val(ch)) =~= cur@.push(
                        v,
                    ));
                    assert(grid_text(t) =~= grid_text(q).update(
                        grid_text(q).len() - 1,
                        cur@.push(v),
                    ));
                    assert(grid_text(t).last() == cur@.push(v));
                    assert(grid_text(t).drop_last() =~= grid_text(q).drop_last());
                }
                cur.push(v);
            }
        }
        i += 1;
    }
    proof {
        assert(s.subrange(0, len as int) =~= s);
    }
    if cur.len() > 0 {
        let ghost curv = cur@;
        let ghost rows_dv = Seq::new(rows@.len(), |k: int| rows@[k]@);
        let row = cur;
        rows.push(row);
        proof {
            assert(Seq::new(rows@.len(), |k: int| rows@[k]@) =~= rows_dv.push(curv));
            assert(grid_text(s) =~= rows_dv.push(curv));
        }
    }
    let ghost gt = grid_text(s);
    proof {
        assert(Seq::new(rows@.len(), |k: int| rows@[k]@) == gt);
    }
    if rows.len() == 0 {
        return Err(ParseError::EmptyGrid);
    }
    let w = rows[0].len();
    let mut k: usize = 1;
    while k < rows.len()
        invariant
            !has_bad_char(array@),
            gt == grid_text(array@),
            gt == Seq::new(rows@.len(), |k2: int| rows@[k2]@),
            rows@.len() >= 1,
            1 <= k,
            k <= rows@.len(),
            w == rows@[0]@.len(),
            forall|k2: int| 0 <= k2 < k ==> (#[trigger] rows@[k2])@.len() == w,
        decreases rows@.len() - k,
    {
        if rows[k].len() != w {
            proof {
                assert(gt[k as int].len() != gt[0].len());
                assert(!rectangular(gt));
            }
            return Err(ParseError::UnevenRows);
        }
        k += 1;
    }
    proof {
        assert(rectangular(gt));
        assert(gt[0].len() >= 1);
        assert(wf_grid(gt));
    }
    let cave = Cave::from_rows(rows);
    Ok(cave)
}

} // verus!
