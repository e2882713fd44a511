use vstd::prelude::*;
use crate::emit::{last_taken, pieces, pieces_upto, Piece};
use crate::model::{ContextFile, File, PostprocessSettings};
use crate::postprocess::{budget_of, colored, excerpts, is_excerpt, keys_of, selection};
use crate::select::{lemma_select_books, select_prefix, sort_order, taken_cost, Budget};
use crate::colorize::{
    comment_step, comments_up, comments_up_from, gradient, is_disabled, lemma_comments_up_len, lift,
    paint, scale,
};
use crate::model::{LineModel, DISABLED, SCORE_ONE};
use crate::pipeline::{apply_hint, apply_hints, colorize_file, downgrade_bodies, hint_lo, owner, split_nl};
use crate::postprocess::{ExcerptModel, excerpt_of, excerpts_upto, flat_pos, is_taken, takes_in};
use crate::text::is_prefix;

verus! {

/// Budget respect: the lines the budget pass takes, which are the kept lines of the
/// excerpts, cost no more than `tokens_limit` in line tokens plus, outside single-file mode,
/// each file's name tokens and overhead once.
pub proof fn lemma_budget_respected(
    files: Seq<File>,
    hints: Seq<ContextFile>,
    line_tokens: Seq<Seq<usize>>,
    name_tokens: Seq<usize>,
    tokens_limit: int,
    single: bool,
    st: PostprocessSettings,
)
    requires
        tokens_limit >= 0,
    ensures
        ({
            let col = colored(files, hints, st);
            let sel = selection(files, col, line_tokens, name_tokens, tokens_limit, single, st);
            taken_cost(sel.taken, budget_of(col, line_tokens, name_tokens, tokens_limit, single, st))
                <= tokens_limit
        }),
{
    let col = colored(files, hints, st);
    let b = budget_of(col, line_tokens, name_tokens, tokens_limit, single, st);
    let order = sort_order(keys_of(col, files));
    lemma_select_books(order, order.len() as int, b);
}

/// Determinism: two runs on equal inputs give excerpt records with equal text and numbers.
pub proof fn lemma_deterministic(
    files: Seq<File>,
    hints: Seq<ContextFile>,
    line_tokens: Seq<Seq<usize>>,
    name_tokens: Seq<usize>,
    tokens_limit: int,
    single: bool,
    st: PostprocessSettings,
    r1: Seq<ContextFile>,
    r2: Seq<ContextFile>,
)
    requires
        ({
            let ex = excerpts(files, hints, line_tokens, name_tokens, tokens_limit, single, st);
            &&& r1.len() == ex.len() && r2.len() == ex.len()
            &&& forall|k: int| 0 <= k < ex.len() ==> is_excerpt(#[trigger] r1[k], ex[k])
            &&& forall|k: int| 0 <= k < ex.len() ==> is_excerpt(#[trigger] r2[k], ex[k])
        }),
    ensures
        r1.len() == r2.len(),
        forall|k: int|
            0 <= k < r1.len() ==> (#[trigger] r1[k]).file_name@ == r2[k].file_name@
                && r1[k].file_content@ == r2[k].file_content@ && r1[k].line1 == r2[k].line1
                && r1[k].line2 == r2[k].line2 && r1[k].symbol == r2[k].symbol
                && r1[k].gradient_type == r2[k].gradient_type && r1[k].usefulness
                == r2[k].usefulness && r1[k].is_body_important == r2[k].is_body_important,
{
    let ex = excerpts(files, hints, line_tokens, name_tokens, tokens_limit, single, st);
    assert forall|k: int| 0 <= k < r1.len() implies (#[trigger] r1[k]).file_name@ == r2[k].file_name@
        && r1[k].file_content@ == r2[k].file_content@ && r1[k].line1 == r2[k].line1
        && r1[k].line2 == r2[k].line2 && r1[k].symbol == r2[k].symbol && r1[k].gradient_type
        == r2[k].gradient_type && r1[k].usefulness == r2[k].usefulness
        && r1[k].is_body_important == r2[k].is_body_important by {
        assert(is_excerpt(r1[k], ex[k]));
        assert(is_excerpt(r2[k], ex[k]));
    }
}

/// Well-formed piece sequences: kept rows ascend, adjacent kept rows are consecutive, an
/// elision stands between kept rows with rows skipped between them, never two elisions
/// in a row, and the first piece is a kept row.
#[verifier::opaque]
pub open spec fn alternates(ps: Seq<Piece>) -> bool {
    &&& ps.len() > 0 ==> ps[0] is Line
    &&& forall|t: int| 0 <= t < ps.len() - 1 ==> !(#[trigger] ps[t] is Gap && ps[t + 1] is Gap)
    &&& forall|t: int|
        0 <= t < ps.len() - 1 && #[trigger] ps[t] is Line && ps[t + 1] is Line ==> ps[t + 1]->Line_0
            == ps[t]->Line_0 + 1
    &&& forall|t: int|
        0 <= t < ps.len() - 2 && #[trigger] ps[t] is Line && ps[t + 1] is Gap ==> ps[t + 2] is Line
            && ps[t + 2]->Line_0 > ps[t]->Line_0 + 1
}

proof fn lemma_push_line(ps: Seq<Piece>, i: int)
    requires
        alternates(ps),
        ps.len() > 0 ==> ps.last() is Line && (ps.last()->Line_0 + 1 == i),
    ensures
        alternates(ps.push(Piece::Line(i))),
{
    reveal(alternates);
    let qs = ps.push(Piece::Line(i));
    assert forall|t: int| 0 <= t < qs.len() - 1 implies !(#[trigger] qs[t] is Gap && qs[t + 1] is Gap) by {
        if t < ps.len() - 1 {
            assert(qs[t] == ps[t] && qs[t + 1] == ps[t + 1]);
        }
    }
    assert forall|t: int|
        0 <= t < qs.len() - 1 && #[trigger] qs[t] is Line && qs[t + 1] is Line implies qs[t + 1]->Line_0
        == qs[t]->Line_0 + 1 by {
        if t < ps.len() - 1 {
            assert(qs[t] == ps[t] && qs[t + 1] == ps[t + 1]);
        } else {
            assert(qs[t] == ps.last());
        }
    }
    assert forall|t: int|
        0 <= t < qs.len() - 2 && #[trigger] qs[t] is Line && qs[t + 1] is Gap implies qs[t + 2] is Line
        && qs[t + 2]->Line_0 > qs[t]->Line_0 + 1 by {
        if t < ps.len() - 2 {
            assert(qs[t] == ps[t] && qs[t + 1] == ps[t + 1] && qs[t + 2] == ps[t + 2]);
        } else {
            assert(qs[t + 1] == ps.last());
        }
    }
}

proof fn lemma_push_gap(ps: Seq<Piece>)
    requires
        alternates(ps),
        ps.len() > 0,
        ps.last() is Line,
    ensures
        alternates(ps.push(Piece::Gap)),
{
    reveal(alternates);
    let qs = ps.push(Piece::Gap);
    assert forall|t: int| 0 <= t < qs.len() - 1 implies !(#[trigger] qs[t] is Gap && qs[t + 1] is Gap) by {
        if t < ps.len() - 1 {
            assert(qs[t] == ps[t] && qs[t + 1] == ps[t + 1]);
        } else {
            assert(qs[t] == ps.last());
        }
    }
    assert forall|t: int|
        0 <= t < qs.len() - 1 && #[trigger] qs[t] is Line && qs[t + 1] is Line implies qs[t + 1]->Line_0
        == qs[t]->Line_0 + 1 by {
        assert(qs[t] == ps[t] && qs[t + 1] == ps[t + 1]);
    }
    assert forall|t: int|
        0 <= t < qs.len() - 2 && #[trigger] qs[t] is Line && qs[t + 1] is Gap implies qs[t + 2] is Line
        && qs[t + 2]->Line_0 > qs[t]->Line_0 + 1 by {
        assert(qs[t] == ps[t] && qs[t + 1] == ps[t + 1] && qs[t + 2] == ps[t + 2]);
    }
}

proof fn lemma_push_gap_line(ps: Seq<Piece>, i: int)
    requires
        alternates(ps),
        ps.len() > 0,
        ps.last() is Line,
        i > ps.last()->Line_0 + 1,
    ensures
        alternates(ps.push(Piece::Gap).push(Piece::Line(i))),
{
    reveal(alternates);
    lemma_push_gap(ps);
    let gs = ps.push(Piece::Gap);
    let qs = gs.push(Piece::Line(i));
    assert forall|t: int| 0 <= t < qs.len() - 1 implies !(#[trigger] qs[t] is Gap && qs[t + 1] is Gap) by {
        if t < gs.len() - 1 {
            assert(qs[t] == gs[t] && qs[t + 1] == gs[t + 1]);
        }
    }
    assert forall|t: int|
        0 <= t < qs.len() - 1 && #[trigger] qs[t] is Line && qs[t + 1] is Line implies qs[t + 1]->Line_0
        == qs[t]->Line_0 + 1 by {
        assert(qs[t] == gs[t] && qs[t + 1] == gs[t + 1]);
    }
    assert forall|t: int|
        0 <= t < qs.len() - 2 && #[trigger] qs[t] is Line && qs[t + 1] is Gap implies qs[t + 2] is Line
        && qs[t + 2]->Line_0 > qs[t]->Line_0 + 1 by {
        if t < gs.len() - 2 {
            assert(qs[t] == gs[t] && qs[t + 1] == gs[t + 1] && qs[t + 2] == gs[t + 2]);
        } else {
            assert(qs[t] == ps.last());
        }
    }
}

proof fn lemma_pieces_upto(takes: Seq<bool>, k: int)
    requires
        0 <= k <= takes.len(),
    ensures
        alternates(pieces_upto(takes, k)),
        last_taken(takes, k) == -1 <==> pieces_upto(takes, k).len() == 0,
        last_taken(takes, k) >= 0 ==> pieces_upto(takes, k).last() == Piece::Line(
            last_taken(takes, k),
        ),
        -1 <= last_taken(takes, k) < k,
    decreases k,
{
    if k > 0 {
        lemma_pieces_upto(takes, k - 1);
        let prev = pieces_upto(takes, k - 1);
        let i = k - 1;
        if takes[i] {
            let p = last_taken(takes, i);
            assert(last_taken(takes, k) == i);
            if p >= 0 && i > p + 1 {
                assert(prev.last() == Piece::Line(p));
                lemma_push_gap_line(prev, i);
                assert(pieces_upto(takes, k) == prev.push(Piece::Gap).push(Piece::Line(i)));
            } else {
                if prev.len() > 0 {
                    assert(p >= 0);
                    assert(prev.last() == Piece::Line(p));
                    assert(i == p + 1);
                }
                lemma_push_line(prev, i);
                assert(pieces_upto(takes, k) == prev.push(Piece::Line(i)));
            }
        } else {
            assert(pieces_upto(takes, k) == prev);
            assert(last_taken(takes, k) == last_taken(takes, k - 1));
        }
    } else {
        reveal(alternates);
    }
}

/// Excerpt format: an excerpt is kept rows and `...` elisions that alternate: it opens with
/// a kept row, never holds two elisions in a row, runs of kept rows are contiguous rows of
/// the file, an elision between kept rows stands for skipped rows, and a closing elision
/// follows a kept row and stands for rows after it.
pub proof fn lemma_excerpt_format(takes: Seq<bool>)
    ensures
        ({
            let ps = pieces(takes);
            &&& alternates(ps)
            &&& ps.len() > 0 && ps.last() is Gap ==> ps.len() >= 2 && ps[ps.len() - 2] is Line
                && ps[ps.len() - 2]->Line_0 < takes.len() - 1
        }),
{
    let n = takes.len() as int;
    lemma_pieces_upto(takes, n);
    let body = pieces_upto(takes, n);
    let last = last_taken(takes, n);
    if last >= 0 && last < n - 1 {
        lemma_push_gap(body);
        assert(pieces(takes) == body.push(Piece::Gap));
        assert(pieces(takes)[pieces(takes).len() - 2] == body.last());
    } else {
        assert(pieces(takes) == body);
        if body.len() > 0 {
            assert(body.last() == Piece::Line(last));
        }
    }
}

proof fn lemma_comments_up_glue(ls: Seq<LineModel>, i: int, coef: int)
    requires
        0 <= i <= ls.len(),
        0 <= coef,
    ensures
        ({
            let r = comments_up_from(ls, i, coef);
            &&& r.len() == ls.len()
            &&& forall|t: int| 0 <= t < i ==> #[trigger] r[t] == ls[t]
            &&& forall|t: int| 0 <= t < ls.len() ==> (#[trigger] r[t]).color == ls[t].color
            &&& forall|t: int|
                i <= t < ls.len() - 1 && (#[trigger] r[t]).color == "comment"@ ==> r[t].useful
                    >= scale(r[t + 1].useful, coef, SCORE_ONE as int)
        }),
    decreases ls.len() - i,
{
    if !(i < 0 || i + 1 >= ls.len()) {
        lemma_comments_up_glue(ls, i + 1, coef);
        let prev = comments_up_from(ls, i + 1, coef);
        let r = comments_up_from(ls, i, coef);
        assert(r == comment_step(prev, i, coef));
        assert forall|t: int|
            i <= t < ls.len() - 1 && (#[trigger] r[t]).color == "comment"@ implies r[t].useful
            >= scale(r[t + 1].useful, coef, SCORE_ONE as int) by {
            if t > i {
                assert(r[t] == prev[t] && r[t + 1] == prev[t + 1]);
            } else {
                assert(r[t + 1] == prev[t + 1]);
            }
        }
    }
}

/// Comment glue: once comments are propagated, every line labelled `comment` scores at
/// least the next line's score times the propagation coefficient, so a doc comment
/// follows the symbol under it; labels are unchanged.
pub proof fn lemma_comment_glue(ls: Seq<LineModel>, coef: int)
    requires
        0 <= coef,
    ensures
        ({
            let r = comments_up(ls, coef);
            &&& r.len() == ls.len()
            &&& forall|t: int| 0 <= t < ls.len() ==> (#[trigger] r[t]).color == ls[t].color
            &&& forall|t: int|
                0 <= t < ls.len() - 1 && (#[trigger] r[t]).color == "comment"@ ==> r[t].useful
                    >= scale(r[t + 1].useful, coef, SCORE_ONE as int)
        }),
{
    lemma_comments_up_glue(ls, 0, coef);
}

/// Parent weaker than child: the parent lift toward `parent`, with background `bg` and
/// peak `peak` (a hint's usefulness times `degrade_parent_coef`), leaves each line as it was,
/// or keeps its label, a non-empty prefix of `parent`, and sets its score to at most
/// `bg + (peak - bg) * len(label) / len(parent)`, which is at most the larger of `bg` and
/// `peak`: an enclosing scope never rises above the peak it was lifted toward.
pub proof fn lemma_parent_weaker(ls: Seq<LineModel>, parent: Seq<char>, bg: int, peak: int)
    requires
        0 <= bg,
        0 <= peak,
    ensures
        ({
            let r = lift(ls, parent, bg, peak);
            &&& r.len() == ls.len()
            &&& forall|i: int|
                0 <= i < ls.len() ==> #[trigger] r[i] == ls[i] || (r[i].color == ls[i].color
                    && r[i].color.len() > 0 && is_prefix(r[i].color, parent) && r[i].useful <= bg
                    + scale(peak - bg, r[i].color.len() as int, parent.len() as int) && r[i].useful
                    <= if bg > peak {
                    bg
                } else {
                    peak
                })
        }),
{
    let r = lift(ls, parent, bg, peak);
    assert forall|i: int| 0 <= i < ls.len() implies #[trigger] r[i] == ls[i] || (r[i].color
        == ls[i].color && r[i].color.len() > 0 && is_prefix(r[i].color, parent) && r[i].useful
        <= bg + scale(peak - bg, r[i].color.len() as int, parent.len() as int) && r[i].useful
        <= if bg > peak {
        bg
    } else {
        peak
    }) by {
        let c = ls[i].color;
        if r[i] != ls[i] {
            let x = peak - bg;
            let a = c.len() as int;
            let p = parent.len() as int;
            assert(0 < a <= p);
            if x >= 0 {
                assert(x * a <= x * p) by (nonlinear_arith)
                    requires
                        0 <= x,
                        0 <= a <= p,
                ;
                assert(x * a / p <= x) by (nonlinear_arith)
                    requires
                        x * a <= x * p,
                        p > 0,
                ;
            } else {
                let y = -x;
                assert(y * a >= 0) by (nonlinear_arith)
                    requires
                        y >= 0,
                        a >= 0,
                ;
                assert(y * a / p >= 0) by (nonlinear_arith)
                    requires
                        y * a >= 0,
                        p > 0,
                ;
            }
        }
    }
}

/// A disabled line stays disabled through comment propagation.
proof fn lemma_comments_keep(ls: Seq<LineModel>, i: int, coef: int, row: int)
    requires
        0 <= row < ls.len(),
        is_disabled(ls[row]),
    ensures
        comments_up_from(ls, i, coef).len() == ls.len(),
        is_disabled(comments_up_from(ls, i, coef)[row]),
    decreases ls.len() - i,
{
    reveal_strlit("disabled");
    reveal_strlit("comment");
    if !(i < 0 || i + 1 >= ls.len()) {
        lemma_comments_keep(ls, i + 1, coef, row);
        let prev = comments_up_from(ls, i + 1, coef);
        assert(prev[row].color != "comment"@) by {
            assert(prev[row].color.len() != "comment"@.len());
        }
    }
}

/// A disabled line stays disabled through any hint that does not cover it with a
/// disabling range, and through a disabling one.
proof fn lemma_apply_hint_keeps(
    ls: Seq<LineModel>,
    h: ContextFile,
    syms: Seq<crate::model::SymbolInformation>,
    st: PostprocessSettings,
    row: int,
)
    requires
        0 <= row < ls.len(),
        is_disabled(ls[row]),
    ensures
        apply_hint(ls, h, syms, st).len() == ls.len(),
        is_disabled(apply_hint(ls, h, syms, st)[row]),
{
    reveal_strlit("disabled");
    if h.usefulness >= 0 {
        let u = h.usefulness as int;
        let g = gradient(ls, h.gradient_type as int, u, h.line1 as int, h.line2 as int);
        let k = if h.symbol != 0 {
            crate::pipeline::first_symbol(syms, h.symbol)
        } else {
            -1
        };
        let p = if !h.is_body_important && k >= 0 {
            let s = syms[k];
            let painted = paint(
                g,
                s.full_range.start_row as int,
                s.full_range.end_row + 1,
                s.symbol_path@,
                u,
            );
            if crate::text::has_parent(s.symbol_path@) {
                lift(
                    painted,
                    crate::text::parent_path(s.symbol_path@),
                    st.useful_background as int,
                    scale(u, st.degrade_parent_coef as int, SCORE_ONE as int),
                )
            } else {
                painted
            }
        } else {
            paint(g, hint_lo(h), h.line2 as int, "nosymb"@, u)
        };
        assert(p.len() == ls.len());
        assert(is_disabled(p[row]));
        lemma_comments_keep(p, 0, st.comments_propogate_up_coef as int, row);
    }
}

/// Hints `k..m` (those naming file `j`) keep a disabled row disabled.
proof fn lemma_hints_keep(
    a: Seq<LineModel>,
    files: Seq<File>,
    j: int,
    hints: Seq<ContextFile>,
    k: int,
    m: int,
    st: PostprocessSettings,
    row: int,
)
    requires
        0 <= j < files.len(),
        0 <= k <= m <= hints.len(),
        0 <= row < apply_hints(a, files, j, hints, k, st).len(),
        is_disabled(apply_hints(a, files, j, hints, k, st)[row]),
    ensures
        apply_hints(a, files, j, hints, m, st).len() == apply_hints(a, files, j, hints, k, st).len(),
        is_disabled(apply_hints(a, files, j, hints, m, st)[row]),
    decreases m,
{
    if m > k {
        lemma_hints_keep(a, files, j, hints, k, m - 1, st, row);
        let prev = apply_hints(a, files, j, hints, m - 1, st);
        if owner(files, hints[m - 1].file_name@) == j {
            lemma_apply_hint_keeps(prev, hints[m - 1], files[j].markup.symbols_sorted_by_path_len@, st, row);
        }
    }
}

proof fn lemma_apply_hints_len(
    a: Seq<LineModel>,
    files: Seq<File>,
    j: int,
    hints: Seq<ContextFile>,
    m: int,
    st: PostprocessSettings,
)
    requires
        0 <= j < files.len(),
        m <= hints.len(),
    ensures
        apply_hints(a, files, j, hints, m, st).len() == a.len(),
    decreases m,
{
    if m > 0 {
        lemma_apply_hints_len(a, files, j, hints, m - 1, st);
        let prev = apply_hints(a, files, j, hints, m - 1, st);
        if owner(files, hints[m - 1].file_name@) == j {
            lemma_apply_hint_len(prev, hints[m - 1], files[j].markup.symbols_sorted_by_path_len@, st);
        }
    }
}

proof fn lemma_apply_hint_len(
    ls: Seq<LineModel>,
    h: ContextFile,
    syms: Seq<crate::model::SymbolInformation>,
    st: PostprocessSettings,
)
    ensures
        apply_hint(ls, h, syms, st).len() == ls.len(),
{
    if h.usefulness >= 0 {
        let u = h.usefulness as int;
        let g = gradient(ls, h.gradient_type as int, u, h.line1 as int, h.line2 as int);
        let k = if h.symbol != 0 {
            crate::pipeline::first_symbol(syms, h.symbol)
        } else {
            -1
        };
        let p = if !h.is_body_important && k >= 0 {
            let s = syms[k];
            let painted = paint(
                g,
                s.full_range.start_row as int,
                s.full_range.end_row + 1,
                s.symbol_path@,
                u,
            );
            if crate::text::has_parent(s.symbol_path@) {
                lift(
                    painted,
                    crate::text::parent_path(s.symbol_path@),
                    st.useful_background as int,
                    scale(u, st.degrade_parent_coef as int, SCORE_ONE as int),
                )
            } else {
                painted
            }
        } else {
            paint(g, hint_lo(h), h.line2 as int, "nosymb"@, u)
        };
        lemma_comments_up_len(p, 0, st.comments_propogate_up_coef as int);
    }
}

/// Body downgrade keeps a disabled row disabled.
proof fn lemma_downgrade_keeps(
    ls: Seq<LineModel>,
    text: Seq<Seq<char>>,
    syms: Seq<crate::model::SymbolInformation>,
    k: int,
    coef: int,
    row: int,
)
    requires
        0 <= row < ls.len(),
        is_disabled(ls[row]),
    ensures
        downgrade_bodies(ls, text, syms, k, coef).len() == ls.len(),
        is_disabled(downgrade_bodies(ls, text, syms, k, coef)[row]),
    decreases k,
{
    if k > 0 {
        lemma_downgrade_keeps(ls, text, syms, k - 1, coef, row);
    }
}

proof fn lemma_fill_len(ls: Seq<LineModel>, syms: Seq<crate::model::SymbolInformation>, k: int, u: int)
    ensures
        crate::pipeline::fill_symbols(ls, syms, k, u).len() == ls.len(),
    decreases k,
{
    if k > 0 {
        lemma_fill_len(ls, syms, k - 1, u);
    }
}

/// Lines taken by the budget pass score above the floor.
proof fn lemma_taken_above_floor(order: Seq<usize>, k: int, b: Budget)
    requires
        0 <= k <= order.len(),
    ensures
        forall|a: int|
            0 <= a < select_prefix(order, k, b).taken.len() ==> b.useful[#[trigger] select_prefix(
                order,
                k,
                b,
            ).taken[a] as int] > b.floor && select_prefix(order, k, b).taken[a] < b.useful.len(),
    decreases k,
{
    if k > 0 {
        lemma_taken_above_floor(order, k - 1, b);
        let s = select_prefix(order, k - 1, b);
        let t = select_prefix(order, k, b);
        assert(t == crate::select::select_step(s, b, order[k - 1]));
        assert forall|a: int| 0 <= a < t.taken.len() implies b.useful[#[trigger] t.taken[a] as int] > b.floor
            && t.taken[a] < b.useful.len() by {
            if a < s.taken.len() {
                assert(t.taken[a] == s.taken[a]);
            }
        }
    }
}

/// Disable dominates: a row that a disabling hint covers is never taken, whatever hints
/// come before or after it and whatever the gap-closing setting.
pub proof fn lemma_disable_dominates(
    files: Seq<File>,
    hints: Seq<ContextFile>,
    line_tokens: Seq<Seq<usize>>,
    name_tokens: Seq<usize>,
    tokens_limit: int,
    single: bool,
    st: PostprocessSettings,
    j: int,
    k: int,
    row: int,
)
    requires
        st.wf(),
        0 <= j < files.len(),
        0 <= k < hints.len(),
        owner(files, hints[k].file_name@) == j,
        hints[k].usefulness < 0,
        hint_lo(hints[k]) <= row < hints[k].line2,
        0 <= row < split_nl(files[j].markup.file_content@).len(),
    ensures
        ({
            let col = colored(files, hints, st);
            let sel = selection(files, col, line_tokens, name_tokens, tokens_limit, single, st);
            !is_taken(col, sel, j, row)
        }),
{
    reveal_strlit("disabled");
    let col = colored(files, hints, st);
    let f = files[j];
    let text = split_nl(f.markup.file_content@);
    let syms = f.markup.symbols_sorted_by_path_len@;
    let init = Seq::new(text.len(), |i: int| LineModel { useful: 0, color: Seq::empty() });
    let a = crate::pipeline::symbol_pass(init, syms, st);
    lemma_fill_len(init, syms, syms.len() as int, st.useful_symbol_default as int);
    lemma_apply_hints_len(a, files, j, hints, k, st);
    lemma_apply_hints_len(a, files, j, hints, k + 1, st);
    assert(is_disabled(apply_hints(a, files, j, hints, k + 1, st)[row]));
    lemma_hints_keep(a, files, j, hints, k + 1, hints.len() as int, st, row);
    let bb = apply_hints(a, files, j, hints, hints.len() as int, st);
    lemma_downgrade_keeps(bb, text, syms, syms.len() as int, st.degrade_body_coef as int, row);
    let e = downgrade_bodies(bb, text, syms, syms.len() as int, st.degrade_body_coef as int);
    assert(col[j] == colorize_file(files, j, hints, st));
    assert(is_disabled(col[j][row])) by {
        if st.close_small_gaps {
            assert(crate::colorize::close_gaps(e)[row] == e[row]);
        }
    }
    let b = budget_of(col, line_tokens, name_tokens, tokens_limit, single, st);
    let order = sort_order(keys_of(col, files));
    let sel = select_prefix(order, order.len() as int, b);
    lemma_taken_above_floor(order, order.len() as int, b);
    let pos = flat_pos(col, col.len() as int);
    if is_taken(col, sel, j, row) {
        let t = choose|t: int|
            0 <= t < sel.taken.len() && pos[sel.taken[t] as int].0 as int == j
                && pos[sel.taken[t] as int].1 as int == row;
        let x = sel.taken[t];
        assert(b.useful[x as int] > b.floor);
        assert(false);
    }
}

/// Lines are dropped only by the budget running out: a budget pass that never ran out has
/// taken every offered line that scores above the floor.
pub proof fn lemma_unstopped_takes_all(order: Seq<usize>, k: int, b: Budget)
    requires
        0 <= k <= order.len(),
        !select_prefix(order, k, b).stopped,
    ensures
        forall|a: int|
            0 <= a < k && order[a] < b.useful.len() && b.useful[order[a] as int] > b.floor
                ==> select_prefix(order, k, b).taken.contains(#[trigger] order[a]),
    decreases k,
{
    if k > 0 {
        let s = select_prefix(order, k - 1, b);
        let t = select_prefix(order, k, b);
        assert(t == crate::select::select_step(s, b, order[k - 1]));
        assert(!s.stopped);
        lemma_unstopped_takes_all(order, k - 1, b);
        assert forall|a: int|
            0 <= a < k && order[a] < b.useful.len() && b.useful[order[a] as int] > b.floor implies t.taken.contains(
            #[trigger] order[a],
        ) by {
            if a < k - 1 {
                assert(s.taken.contains(order[a]));
                let c = choose|c: int| 0 <= c < s.taken.len() && s.taken[c] == order[a];
                assert(t.taken[c] == order[a]);
            } else {
                assert(t.taken[t.taken.len() - 1] == order[a]);
            }
        }
    }
}

/// The excerpt is the one written for some file from take flags whose pieces alternate
/// (see `alternates`).
pub open spec fn well_formed_excerpt(files: Seq<File>, x: ExcerptModel) -> bool {
    exists|j: int, t: Seq<bool>| x == #[trigger] excerpt_of(files, j, t) && alternates(pieces(t))
}

proof fn lemma_excerpts_upto_format(
    files: Seq<File>,
    col: Seq<Seq<LineModel>>,
    sel: crate::select::SelState,
    k: int,
)
    ensures
        forall|e: int|
            0 <= e < excerpts_upto(files, col, sel, k).len() ==> well_formed_excerpt(
                files,
                #[trigger] excerpts_upto(files, col, sel, k)[e],
            ),
    decreases k,
{
    if k > 0 {
        lemma_excerpts_upto_format(files, col, sel, k - 1);
        let prev = excerpts_upto(files, col, sel, k - 1);
        let cur = excerpts_upto(files, col, sel, k);
        let j = sel.seen[k - 1] as int;
        let t = takes_in(col, sel, j);
        lemma_excerpt_format(t);
        assert forall|e: int| 0 <= e < cur.len() implies well_formed_excerpt(files, #[trigger] cur[e]) by {
            if e < prev.len() {
                assert(cur[e] == prev[e]);
            } else {
                assert(cur[e] == excerpt_of(files, j, t));
            }
        }
    }
}

/// Excerpt format, for the output of a run: each excerpt's text is the rendering of a piece
/// sequence that alternates runs of contiguous kept rows with single `...` elisions and
/// opens with a kept row (see `lemma_excerpt_format`).
pub proof fn lemma_output_format(
    files: Seq<File>,
    hints: Seq<ContextFile>,
    line_tokens: Seq<Seq<usize>>,
    name_tokens: Seq<usize>,
    tokens_limit: int,
    single: bool,
    st: PostprocessSettings,
)
    ensures
        forall|e: int|
            0 <= e < excerpts(files, hints, line_tokens, name_tokens, tokens_limit, single, st).len()
                ==> well_formed_excerpt(
                files,
                #[trigger] excerpts(files, hints, line_tokens, name_tokens, tokens_limit, single, st)[e],
            ),
{
    let col = colored(files, hints, st);
    let sel = selection(files, col, line_tokens, name_tokens, tokens_limit, single, st);
    lemma_excerpts_upto_format(files, col, sel, sel.seen.len() as int);
    assert(excerpts(files, hints, line_tokens, name_tokens, tokens_limit, single, st)
        == excerpts_upto(files, col, sel, sel.seen.len() as int));
}

} // verus!
