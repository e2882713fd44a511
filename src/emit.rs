use vstd::prelude::*;
use vstd::string::StringExecFns;
use crate::model::FileLine;

verus! {

/// One piece of an excerpt: a kept row, or an elision of skipped rows.
pub enum Piece {
    Line(int),
    Gap,
}

/// The last taken row before row `k`, or -1.
pub open spec fn last_taken(takes: Seq<bool>, k: int) -> int
    decreases k,
{
    if k <= 0 {
        -1
    } else if takes[k - 1] {
        k - 1
    } else {
        last_taken(takes, k - 1)
    }
}

/// The first taken row among rows `0..k`, or -1.
pub open spec fn first_taken(takes: Seq<bool>, k: int) -> int
    decreases k,
{
    if k <= 0 {
        -1
    } else {
        let f = first_taken(takes, k - 1);
        if f >= 0 {
            f
        } else if takes[k - 1] {
            k - 1
        } else {
            -1
        }
    }
}

/// Pieces for rows `0..k`: each taken row, preceded by an elision when rows were skipped
/// since the previous taken row. Rows before the first taken row are left out.
pub open spec fn pieces_upto(takes: Seq<bool>, k: int) -> Seq<Piece>
    decreases k,
{
    if k <= 0 {
        Seq::empty()
    } else {
        let prev = pieces_upto(takes, k - 1);
        let i = k - 1;
        if !takes[i] {
            prev
        } else {
            let p = last_taken(takes, i);
            if p >= 0 && i > p + 1 {
                prev.push(Piece::Gap).push(Piece::Line(i))
            } else {
                prev.push(Piece::Line(i))
            }
        }
    }
}

/// Pieces of a whole excerpt: those of every row, and a closing elision when rows follow
/// the last taken one.
pub open spec fn pieces(takes: Seq<bool>) -> Seq<Piece> {
    let n = takes.len() as int;
    let last = last_taken(takes, n);
    if last >= 0 && last < n - 1 {
        pieces_upto(takes, n).push(Piece::Gap)
    } else {
        pieces_upto(takes, n)
    }
}

/// Text of a sequence of pieces: a kept row and a new line, or `...` and a new line.
pub open spec fn render(ps: Seq<Piece>, text: Seq<Seq<char>>) -> Seq<char>
    decreases ps.len(),
{
    if ps.len() == 0 {
        Seq::empty()
    } else {
        render(ps.drop_last(), text) + match ps.last() {
            Piece::Gap => "...\n"@,
            Piece::Line(i) => text[i] + "\n"@,
        }
    }
}

/// The take flags of a file's lines.
pub open spec fn takes_of(v: Seq<FileLine>) -> Seq<bool> {
    Seq::new(v.len(), |i: int| v[i].take)
}

/// The text of a file's lines.
pub open spec fn text_of(v: Seq<FileLine>) -> Seq<Seq<char>> {
    Seq::new(v.len(), |i: int| v[i].line_content@)
}

/// Condensed text of a file: its taken lines with `...` where rows were skipped.
/// Returns the text and the first taken row, if any row was taken.
pub fn emit_file(lines: &Vec<FileLine>) -> (r: (String, Option<usize>))
    ensures
        r.0@ == render(pieces(takes_of(lines@)), text_of(lines@)),
        match r.1 {
            Some(f) => f as int == first_taken(takes_of(lines@), lines@.len() as int) && f
                < lines@.len(),
            None => first_taken(takes_of(lines@), lines@.len() as int) == -1,
        },
{
    let ghost takes = takes_of(lines@);
    let ghost text = text_of(lines@);
    let mut out = String::new();
    let mut prev: Option<usize> = None;
    let mut first: usize = 0;
    let mut i: usize = 0;
    while i < lines.len()
        invariant
            i <= lines@.len(),
            takes == takes_of(lines@),
            text == text_of(lines@),
            out@ == render(pieces_upto(takes, i as int), text),
            match prev {
                Some(p) => p as int == last_taken(takes, i as int) && p < i,
                None => last_taken(takes, i as int) == -1,
            },
            first_taken(takes, i as int) >= 0 ==> first as int == first_taken(takes, i as int)
                && first < i,
            first_taken(takes, i as int) == -1 <==> last_taken(takes, i as int) == -1,
        decreases lines@.len() - i,
    {
        let ghost before = pieces_upto(takes, i as int);
        if lines[i].take {
            match prev {
                Some(p) => {
                    if i > p + 1 {
                        out.append("...\n");
                        proof {
                            assert(before.push(Piece::Gap).drop_last() =~= before);
                            assert(render(before.push(Piece::Gap), text) == render(before, text)
                                + "...\n"@);
                        }
                    }
                },
                None => {
                    first = i;
                },
            }
            let ghost mid = out@;
            out.append(lines[i].line_content.as_str());
            out.append("\n");
            proof {
                let ps = pieces_upto(takes, i as int + 1);
                assert(ps.drop_last() =~= if prev is Some && i > prev->0 + 1 {
                    before.push(Piece::Gap)
                } else {
                    before
                });
                assert(out@ =~= mid + (text[i as int] + "\n"@));
                assert(render(ps, text) == render(ps.drop_last(), text) + (text[i as int]
                    + "\n"@));
            }
            prev = Some(i);
        }
        i += 1;
    }
    let n = lines.len();
    match prev {
        Some(p) => {
            if p + 1 < n {
                let ghost body = pieces_upto(takes, n as int);
                out.append("...\n");
                proof {
                    assert(body.push(Piece::Gap).drop_last() =~= body);
                    assert(render(body.push(Piece::Gap), text) == render(body, text) + "...\n"@);
                }
            }
            (out, Some(first))
        },
        None => (out, None),
    }
}

} // verus!
