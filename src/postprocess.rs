use vstd::prelude::*;
use crate::colorize::{bounded, models, SCORE_LIMIT};
use crate::emit::{emit_file, first_taken, pieces, render, takes_of, text_of};
use crate::model::{ContextFile, File, FileLine, LineModel, PostprocessSettings};
use crate::pipeline::{colorize_file, colorize_one, hint_ok, resolve_owners, split_nl};
use crate::select::{ints_i128, ints_usize, tables, select_lines, select_prefix, sort_by_key_desc, sort_order, Budget, SelState};

verus! {

/// Flat positions `(file, row)` of the rows of the first `j` files, file by file.
pub open spec fn flat_pos(col: Seq<Seq<LineModel>>, j: int) -> Seq<(usize, usize)>
    decreases j,
{
    if j <= 0 {
        Seq::empty()
    } else {
        flat_pos(col, j - 1) + Seq::new(col[j - 1].len(), |i: int| ((j - 1) as usize, i as usize))
    }
}

/// The scored lines of every file.
pub open spec fn colored(files: Seq<File>, hints: Seq<ContextFile>, st: PostprocessSettings) -> Seq<
    Seq<LineModel>,
> {
    Seq::new(files.len(), |j: int| colorize_file(files, j, hints, st))
}

/// What the budget pass reads, laid out by flat position.
pub open spec fn budget_of(
    col: Seq<Seq<LineModel>>,
    line_tokens: Seq<Seq<usize>>,
    name_tokens: Seq<usize>,
    limit: int,
    single: bool,
    st: PostprocessSettings,
) -> Budget {
    let pos = flat_pos(col, col.len() as int);
    Budget {
        useful: Seq::new(pos.len(), |x: int| col[pos[x].0 as int][pos[x].1 as int].useful),
        file: Seq::new(pos.len(), |x: int| pos[x].0),
        tok: Seq::new(pos.len(), |x: int| line_tokens[pos[x].0 as int][pos[x].1 as int] as int),
        ntok: ints_usize(name_tokens),
        floor: st.take_floor as int,
        limit,
        single,
    }
}

/// Sort keys: score plus the file's symmetry breaker.
pub open spec fn keys_of(col: Seq<Seq<LineModel>>, files: Seq<File>) -> Seq<int> {
    let pos = flat_pos(col, col.len() as int);
    Seq::new(
        pos.len(),
        |x: int|
            col[pos[x].0 as int][pos[x].1 as int].useful + files[pos[x].0 as int].cpath_symmetry_breaker,
    )
}

/// The outcome of the budget pass over lines scored as `col`.
pub open spec fn selection(
    files: Seq<File>,
    col: Seq<Seq<LineModel>>,
    line_tokens: Seq<Seq<usize>>,
    name_tokens: Seq<usize>,
    limit: int,
    single: bool,
    st: PostprocessSettings,
) -> SelState {
    let b = budget_of(col, line_tokens, name_tokens, limit, single, st);
    let order = sort_order(keys_of(col, files));
    select_prefix(order, order.len() as int, b)
}

/// Whether row `i` of file `j` was taken.
pub open spec fn is_taken(col: Seq<Seq<LineModel>>, sel: SelState, j: int, i: int) -> bool {
    exists|a: int|
        0 <= a < sel.taken.len() && flat_pos(col, col.len() as int)[sel.taken[a] as int].0 as int
            == j && flat_pos(col, col.len() as int)[sel.taken[a] as int].1 as int == i
}

/// Take flags of file `j`.
pub open spec fn takes_in(col: Seq<Seq<LineModel>>, sel: SelState, j: int) -> Seq<bool> {
    Seq::new(col[j].len(), |i: int| is_taken(col, sel, j, i))
}

/// A condensed excerpt, as text.
pub struct ExcerptModel {
    pub file_name: Seq<char>,
    pub content: Seq<char>,
    pub line1: int,
    pub line2: int,
}

/// The excerpt of file `j` with take flags `takes`.
pub open spec fn excerpt_of(files: Seq<File>, j: int, takes: Seq<bool>) -> ExcerptModel {
    let text = split_nl(files[j].markup.file_content@);
    ExcerptModel {
        file_name: files[j].cpath@,
        content: render(pieces(takes), text),
        line1: first_taken(takes, takes.len() as int),
        line2: takes.len() - 1,
    }
}

/// Excerpts of the first `k` files met by the budget pass that had a line taken.
pub open spec fn excerpts_upto(
    files: Seq<File>,
    col: Seq<Seq<LineModel>>,
    sel: SelState,
    k: int,
) -> Seq<ExcerptModel>
    decreases k,
{
    if k <= 0 {
        Seq::empty()
    } else {
        let prev = excerpts_upto(files, col, sel, k - 1);
        let j = sel.seen[k - 1] as int;
        let t = takes_in(col, sel, j);
        if first_taken(t, t.len() as int) >= 0 {
            prev.push(excerpt_of(files, j, t))
        } else {
            prev
        }
    }
}

/// The output of a run: one excerpt per file with a taken line, in the order files were met.
pub open spec fn excerpts(
    files: Seq<File>,
    hints: Seq<ContextFile>,
    line_tokens: Seq<Seq<usize>>,
    name_tokens: Seq<usize>,
    limit: int,
    single: bool,
    st: PostprocessSettings,
) -> Seq<ExcerptModel> {
    let col = colored(files, hints, st);
    let sel = selection(files, col, line_tokens, name_tokens, limit, single, st);
    excerpts_upto(files, col, sel, sel.seen.len() as int)
}

/// The excerpt record `c` reads as `m`, its other fields at their defaults.
pub open spec fn is_excerpt(c: ContextFile, m: ExcerptModel) -> bool {
    &&& c.file_name@ == m.file_name
    &&& c.file_content@ == m.content
    &&& c.line1 as int == m.line1
    &&& c.line2 as int == m.line2
    &&& c.symbol == 0
    &&& c.gradient_type == -1
    &&& c.usefulness == 0
    &&& !c.is_body_important
}

/// The line numbers of a file's lines.
pub open spec fn rows_of(v: Seq<FileLine>) -> Seq<usize> {
    Seq::new(v.len(), |i: int| v[i].line_n)
}

/// A file record this postprocessor accepts: its symmetry breaker lies in `[0, 10_000)`.
pub open spec fn file_ok(f: File) -> bool {
    0 <= f.cpath_symmetry_breaker < 10_000
}

/// Token tables shaped like the lines: a count per row of each file, and one per file name.
pub open spec fn tokens_fit(files: Seq<File>, line_tokens: Seq<Seq<usize>>, name_tokens: Seq<usize>) -> bool {
    &&& line_tokens.len() == files.len()
    &&& name_tokens.len() == files.len()
    &&& forall|j: int|
        0 <= j < files.len() ==> (#[trigger] line_tokens[j]).len() == split_nl(
            files[j].markup.file_content@,
        ).len()
}

/// Score every line of every file: symbol fill, hints in order, body downgrade, gap closing.
pub fn postprocess_rag_stage_3_6(
    files: &Vec<File>,
    hints: &Vec<ContextFile>,
    settings: &PostprocessSettings,
) -> (r: Vec<Vec<FileLine>>)
    requires
        settings.wf(),
        forall|k: int| 0 <= k < hints@.len() ==> hint_ok(#[trigger] hints@[k]),
    ensures
        r@.len() == files@.len(),
        forall|j: int|
            0 <= j < files@.len() ==> models(#[trigger] r@[j]@) == colorize_file(
                files@,
                j,
                hints@,
                *settings,
            ) && text_of(r@[j]@) == split_nl(files@[j].markup.file_content@) && bounded(
                models(r@[j]@),
            ) && forall|i: int|
                0 <= i < r@[j]@.len() ==> (#[trigger] r@[j]@[i]).line_n == i && !r@[j]@[i].take,
{
    let owners = resolve_owners(files, hints);
    let mut out: Vec<Vec<FileLine>> = Vec::new();
    let mut j: usize = 0;
    while j < files.len()
        invariant
            j <= files@.len(),
            out@.len() == j,
            settings.wf(),
            forall|k: int| 0 <= k < hints@.len() ==> hint_ok(#[trigger] hints@[k]),
            owners@.len() == hints@.len(),
            forall|k: int|
                0 <= k < hints@.len() ==> match #[trigger] owners@[k] {
                    Some(i) => i as int == crate::pipeline::owner(files@, hints@[k].file_name@) && i
                        < files@.len(),
                    None => crate::pipeline::owner(files@, hints@[k].file_name@) == -1,
                },
            forall|m: int|
                0 <= m < j ==> models(#[trigger] out@[m]@) == colorize_file(
                    files@,
                    m,
                    hints@,
                    *settings,
                ) && text_of(out@[m]@) == split_nl(files@[m].markup.file_content@) && bounded(
                    models(out@[m]@),
                ) && forall|i: int|
                    0 <= i < out@[m]@.len() ==> (#[trigger] out@[m]@[i]).line_n == i
                        && !out@[m]@[i].take,
        decreases files@.len() - j,
    {
        let lines = colorize_one(files, j, hints, &owners, settings);
        proof {
            assert(text_of(lines@) =~= split_nl(files@[j as int].markup.file_content@));
        }
        out.push(lines);
        j += 1;
    }
    out
}

/// The budget pass's inputs, by flat position.
struct Flat {
    file: Vec<usize>,
    row: Vec<usize>,
    useful: Vec<i128>,
    key: Vec<i128>,
    tok: Vec<usize>,
}

/// Lay the lines of all files end to end.
fn flatten(files: &Vec<File>, lines: &Vec<Vec<FileLine>>, line_tokens: &Vec<Vec<usize>>) -> (r: Flat)
    requires
        lines@.len() == files@.len() == line_tokens@.len(),
        forall|j: int| 0 <= j < files@.len() ==> file_ok(#[trigger] files@[j]),
        forall|j: int|
            0 <= j < lines@.len() ==> bounded(models(#[trigger] lines@[j]@)) && lines@[j]@.len()
                == line_tokens@[j]@.len(),
    ensures
        ({
            let col = Seq::new(lines@.len(), |j: int| models(lines@[j]@));
            let pos = flat_pos(col, col.len() as int);
            &&& r.file@.len() == pos.len() && r.row@.len() == pos.len()
            &&& r.useful@.len() == pos.len() && r.key@.len() == pos.len() && r.tok@.len() == pos.len()
            &&& forall|x: int| 0 <= x < pos.len() ==> (#[trigger] r.file@[x], r.row@[x]) == pos[x]
            &&& ints_i128(r.useful@) == budget_of(
                col,
                tables(line_tokens@),
                Seq::empty(),
                0,
                false,
                PostprocessSettings::new_spec(),
            ).useful
            &&& ints_usize(r.tok@) == budget_of(
                col,
                tables(line_tokens@),
                Seq::empty(),
                0,
                false,
                PostprocessSettings::new_spec(),
            ).tok
            &&& ints_i128(r.key@) == keys_of(col, files@)
            &&& forall|x: int|
                0 <= x < pos.len() ==> #[trigger] r.file@[x] < files@.len() && r.row@[x]
                    < col[r.file@[x] as int].len()
        }),
{
    let ghost col = Seq::new(lines@.len(), |j: int| models(lines@[j]@));
    let ghost toks = tables(line_tokens@);
    let mut fl: Vec<usize> = Vec::new();
    let mut li: Vec<usize> = Vec::new();
    let mut us: Vec<i128> = Vec::new();
    let mut ks: Vec<i128> = Vec::new();
    let mut tk: Vec<usize> = Vec::new();
    let mut j: usize = 0;
    while j < lines.len()
        invariant
            j <= lines@.len(),
            lines@.len() == files@.len() == line_tokens@.len(),
            col == Seq::new(lines@.len(), |j: int| models(lines@[j]@)),
            toks == tables(line_tokens@),
            forall|m: int| 0 <= m < files@.len() ==> file_ok(#[trigger] files@[m]),
            forall|m: int|
                0 <= m < lines@.len() ==> bounded(models(#[trigger] lines@[m]@)) && lines@[m]@.len()
                    == line_tokens@[m]@.len(),
            fl@.len() == flat_pos(col, j as int).len(),
            li@.len() == fl@.len() && us@.len() == fl@.len() && ks@.len() == fl@.len() && tk@.len()
                == fl@.len(),
            forall|x: int|
                0 <= x < fl@.len() ==> (#[trigger] fl@[x], li@[x]) == flat_pos(col, j as int)[x]
                    && fl@[x] < j && li@[x] < col[fl@[x] as int].len() && us@[x] as int
                    == col[fl@[x] as int][li@[x] as int].useful && ks@[x] as int
                    == col[fl@[x] as int][li@[x] as int].useful
                    + files@[fl@[x] as int].cpath_symmetry_breaker && tk@[x]
                    == toks[fl@[x] as int][li@[x] as int],
        decreases lines@.len() - j,
    {
        let ghost base = fl@.len();
        let ghost prevpos = flat_pos(col, j as int);
        let v = &lines[j];
        let t = &line_tokens[j];
        let brk = files[j].cpath_symmetry_breaker;
        let mut i: usize = 0;
        proof {
            crate::colorize::lemma_bounded_to_lines(v@);
        }
        while i < v.len()
            invariant
                i <= v@.len(),
                j < lines@.len(),
                lines@.len() == files@.len() == line_tokens@.len(),
                *v == lines@[j as int],
                *t == line_tokens@[j as int],
                v@.len() == t@.len(),
                brk == files@[j as int].cpath_symmetry_breaker,
                0 <= brk < 10_000,
                forall|k: int| 0 <= k < v@.len() ==> -SCORE_LIMIT <= #[trigger] v@[k].useful <= SCORE_LIMIT,
                col == Seq::new(lines@.len(), |j: int| models(lines@[j]@)),
                toks == tables(line_tokens@),
                base == prevpos.len(),
                prevpos == flat_pos(col, j as int),
                fl@.len() == base + i,
                li@.len() == fl@.len() && us@.len() == fl@.len() && ks@.len() == fl@.len() && tk@.len()
                    == fl@.len(),
                forall|x: int| 0 <= x < base ==> (#[trigger] fl@[x], li@[x]) == prevpos[x] && fl@[x] < j,
                forall|x: int| base <= x < fl@.len() ==> (#[trigger] fl@[x], li@[x]) == (j, (x - base) as usize),
                forall|x: int|
                    0 <= x < fl@.len() ==> li@[x] < col[#[trigger] fl@[x] as int].len() && us@[x] as int
                        == col[fl@[x] as int][li@[x] as int].useful && ks@[x] as int
                        == col[fl@[x] as int][li@[x] as int].useful
                        + files@[fl@[x] as int].cpath_symmetry_breaker && tk@[x]
                        == toks[fl@[x] as int][li@[x] as int],
            decreases v@.len() - i,
        {
            proof {
                assert(col[j as int] == models(v@));
                assert(models(v@)[i as int] == v@[i as int].model());
                assert(toks[j as int] == t@);
            }
            fl.push(j);
            li.push(i);
            us.push(v[i].useful);
            ks.push(v[i].useful + brk);
            tk.push(t[i]);
            i += 1;
        }
        proof {
            let np = flat_pos(col, j as int + 1);
            assert(np == prevpos + Seq::new(col[j as int].len(), |i: int| (j as usize, i as usize)));
            assert(col[j as int].len() == v@.len());
            assert forall|x: int| 0 <= x < fl@.len() implies (#[trigger] fl@[x], li@[x]) == np[x] && fl@[x] < j + 1 by {
                if x >= base {
                    assert(np[x] == (j as usize, (x - base) as usize));
                }
            }
        }
        j += 1;
    }
    proof {
        let pos = flat_pos(col, col.len() as int);
        let b = budget_of(col, toks, Seq::empty(), 0, false, PostprocessSettings::new_spec());
        assert(fl@.len() == pos.len());
        let ksm = ints_i128(ks@);
        let kso = keys_of(col, files@);
        let usm = ints_i128(us@);
        let tkm = ints_usize(tk@);
        let bu = b.useful;
        let bt = b.tok;
        assert forall|x: int| 0 <= x < pos.len() implies usm[x] == bu[x] && tkm[x] == bt[x]
            && ksm[x] == kso[x] by {
            assert((fl@[x], li@[x]) == pos[x]);
            assert(us@[x] as int == col[fl@[x] as int][li@[x] as int].useful);
            assert(ks@[x] as int == col[fl@[x] as int][li@[x] as int].useful
                + files@[fl@[x] as int].cpath_symmetry_breaker);
        }
        assert(ksm =~= kso);
        assert(b.useful.len() == pos.len());
        assert(b.tok.len() == pos.len());
        assert(ints_i128(us@).len() == pos.len());
        assert(ints_usize(tk@).len() == pos.len());
        assert(usm =~= bu);
        assert(tkm =~= bt);
        assert(keys_of(col, files@).len() == pos.len());
        assert(ints_i128(ks@).len() == pos.len());
        assert(ints_i128(ks@) =~= keys_of(col, files@));
    }
    Flat { file: fl, row: li, useful: us, key: ks, tok: tk }
}

/// Files met by the budget pass are files of offered lines.
pub proof fn lemma_seen_bounded(order: Seq<usize>, k: int, b: Budget, n: int)
    requires
        0 <= k <= order.len(),
        forall|a: int| 0 <= a < order.len() ==> #[trigger] order[a] < b.file.len(),
        forall|x: int| 0 <= x < b.file.len() ==> #[trigger] b.file[x] < n,
    ensures
        forall|a: int|
            0 <= a < select_prefix(order, k, b).seen.len() ==> #[trigger] select_prefix(
                order,
                k,
                b,
            ).seen[a] < n,
        forall|a: int|
            0 <= a < select_prefix(order, k, b).taken.len() ==> #[trigger] select_prefix(
                order,
                k,
                b,
            ).taken[a] < b.file.len(),
    decreases k,
{
    if k > 0 {
        lemma_seen_bounded(order, k - 1, b, n);
        let s = select_prefix(order, k - 1, b);
        let t = select_prefix(order, k, b);
        let x = order[k - 1];
        assert(x < b.file.len());
        assert(b.file[x as int] < n);
        assert(t == crate::select::select_step(s, b, x));
        assert forall|a: int| 0 <= a < t.seen.len() implies #[trigger] t.seen[a] < n by {
            if a < s.seen.len() {
                assert(s.seen[a] < n);
            }
        }
        assert forall|a: int| 0 <= a < t.taken.len() implies #[trigger] t.taken[a] < b.file.len() by {
            if a < s.taken.len() {
                assert(s.taken[a] < b.file.len());
            }
        }
    }
}

/// Select lines under the token budget and write one excerpt per file that had a line
/// taken, in the order files were first met.
pub fn postprocess_rag_stage_7_9(
    files: &Vec<File>,
    lines_in_files: &mut Vec<Vec<FileLine>>,
    line_tokens: &Vec<Vec<usize>>,
    name_tokens: &Vec<usize>,
    tokens_limit: usize,
    single_file_mode: bool,
    settings: &PostprocessSettings,
) -> (r: Vec<ContextFile>)
    requires
        old(lines_in_files)@.len() == files@.len(),
        line_tokens@.len() == files@.len(),
        name_tokens@.len() == files@.len(),
        forall|j: int| 0 <= j < files@.len() ==> file_ok(#[trigger] files@[j]),
        forall|j: int|
            0 <= j < files@.len() ==> bounded(models(#[trigger] old(lines_in_files)@[j]@))
                && old(lines_in_files)@[j]@.len() == line_tokens@[j]@.len() && text_of(
                old(lines_in_files)@[j]@,
            ) == split_nl(files@[j].markup.file_content@),
    ensures
        ({
            let col = Seq::new(files@.len(), |j: int| models(old(lines_in_files)@[j]@));
            let sel = selection(
                files@,
                col,
                tables(line_tokens@),
                name_tokens@,
                tokens_limit as int,
                single_file_mode,
                *settings,
            );
            let ex = excerpts_upto(files@, col, sel, sel.seen.len() as int);
            &&& final(lines_in_files)@.len() == files@.len()
            &&& forall|j: int|
                0 <= j < files@.len() ==> models(#[trigger] final(lines_in_files)@[j]@) == col[j]
                    && takes_of(final(lines_in_files)@[j]@) == takes_in(col, sel, j) && text_of(
                    final(lines_in_files)@[j]@,
                ) == text_of(old(lines_in_files)@[j]@) && rows_of(final(lines_in_files)@[j]@)
                    == rows_of(old(lines_in_files)@[j]@)
            &&& r@.len() == ex.len()
            &&& forall|k: int| 0 <= k < r@.len() ==> is_excerpt(#[trigger] r@[k], ex[k])
        }),
{
    let ghost col = Seq::new(files@.len(), |j: int| models(lines_in_files@[j]@));
    let ghost orig = lines_in_files@;
    let flat = flatten(files, lines_in_files, line_tokens);
    let ghost pos = flat_pos(col, col.len() as int);
    let order = sort_by_key_desc(&flat.key);
    let ghost b = budget_of(
        col,
        tables(line_tokens@),
        name_tokens@,
        tokens_limit as int,
        single_file_mode,
        *settings,
    );
    let ghost eb = Budget {
        useful: ints_i128(flat.useful@),
        file: flat.file@,
        tok: ints_usize(flat.tok@),
        ntok: ints_usize(name_tokens@),
        floor: settings.take_floor as int,
        limit: tokens_limit as int,
        single: single_file_mode,
    };
    proof {
        assert(col =~= Seq::new(lines_in_files@.len(), |j: int| models(lines_in_files@[j]@)));
        let bf = b.file;
        assert forall|x: int| 0 <= x < pos.len() implies flat.file@[x] == bf[x] by {
            assert((flat.file@[x], flat.row@[x]) == pos[x]);
        }
        assert(flat.file@ =~= bf);
        assert(eb == b);
        assert forall|a: int| 0 <= a < order@.len() implies #[trigger] order@[a] < flat.useful@.len() by {
            assert(order@[a] < flat.key@.len());
        }
    }
    let (taken, seen) = select_lines(
        &order,
        &flat.useful,
        &flat.file,
        &flat.tok,
        name_tokens,
        settings.take_floor,
        tokens_limit,
        single_file_mode,
    );
    let ghost sel = select_prefix(order@, order@.len() as int, b);
    proof {
        lemma_seen_bounded(order@, order@.len() as int, b, files@.len() as int);
    }
    // clear the take flags
    let mut j: usize = 0;
    while j < lines_in_files.len()
        invariant
            j <= lines_in_files@.len(),
            lines_in_files@.len() == orig.len(),
            forall|m: int|
                0 <= m < orig.len() ==> models(#[trigger] lines_in_files@[m]@) == models(orig[m]@)
                    && text_of(lines_in_files@[m]@) == text_of(orig[m]@)
                    && rows_of(lines_in_files@[m]@) == rows_of(orig[m]@),
            forall|m: int, i: int|
                0 <= m < j && 0 <= i < lines_in_files@[m]@.len() ==> !(#[trigger] lines_in_files@[m]@[i]).take,
        decreases orig.len() - j,
    {
        let mut i: usize = 0;
        let ghost row0 = lines_in_files@[j as int]@;
        while i < lines_in_files[j].len()
            invariant
                j < lines_in_files@.len(),
                i <= lines_in_files@[j as int]@.len(),
                lines_in_files@.len() == orig.len(),
                lines_in_files@[j as int]@.len() == row0.len(),
                models(row0) == models(orig[j as int]@),
                text_of(row0) == text_of(orig[j as int]@),
                rows_of(row0) == rows_of(orig[j as int]@),
                forall|m: int|
                    0 <= m < orig.len() && m != j ==> models(#[trigger] lines_in_files@[m]@)
                        == models(orig[m]@) && text_of(lines_in_files@[m]@) == text_of(orig[m]@)
                    && rows_of(lines_in_files@[m]@) == rows_of(orig[m]@),
                forall|k: int|
                    0 <= k < row0.len() ==> (#[trigger] lines_in_files@[j as int]@[k]).model()
                        == row0[k].model() && lines_in_files@[j as int]@[k].line_content
                        == row0[k].line_content && lines_in_files@[j as int]@[k].line_n
                        == row0[k].line_n,
                forall|k: int| 0 <= k < i ==> !(#[trigger] lines_in_files@[j as int]@[k]).take,
                forall|m: int, k: int|
                    0 <= m < j && 0 <= k < lines_in_files@[m]@.len() ==> !(#[trigger] lines_in_files@[m]@[k]).take,
            decreases row0.len() - i,
        {
            lines_in_files[j][i].take = false;
            i += 1;
        }
        proof {
            let row = lines_in_files@[j as int]@;
            assert(models(row) =~= models(row0));
            assert(text_of(row) =~= text_of(row0));
            assert(rows_of(row) =~= rows_of(row0));
        }
        j += 1;
    }
    let ghost cleared = lines_in_files@;
    // mark the lines taken
    let mut a: usize = 0;
    while a < taken.len()
        invariant
            a <= taken@.len(),
            taken@ == sel.taken,
            forall|t: int| 0 <= t < taken@.len() ==> #[trigger] taken@[t] < flat.file@.len(),
            flat.file@.len() == pos.len() && flat.row@.len() == pos.len(),
            forall|x: int| 0 <= x < pos.len() ==> (#[trigger] flat.file@[x], flat.row@[x]) == pos[x],
            forall|x: int|
                0 <= x < pos.len() ==> #[trigger] flat.file@[x] < files@.len() && flat.row@[x]
                    < col[flat.file@[x] as int].len(),
            lines_in_files@.len() == orig.len(),
            orig.len() == files@.len(),
            col == Seq::new(files@.len(), |j: int| models(orig[j]@)),
            forall|m: int|
                0 <= m < orig.len() ==> models(#[trigger] lines_in_files@[m]@) == models(orig[m]@)
                    && text_of(lines_in_files@[m]@) == text_of(orig[m]@)
                    && rows_of(lines_in_files@[m]@) == rows_of(orig[m]@),
            forall|m: int, i: int|
                0 <= m < orig.len() && 0 <= i < lines_in_files@[m]@.len() ==> (#[trigger] lines_in_files@[m]@[i]).take
                    == exists|t: int|
                    0 <= t < a && pos[taken@[t] as int].0 as int == m && pos[taken@[t] as int].1 as int
                        == i,
        decreases taken@.len() - a,
    {
        let x = taken[a];
        let fj = flat.file[x];
        let fi = flat.row[x];
        let ghost before = lines_in_files@;
        assert(x < pos.len());
        assert(flat.file@[x as int] < files@.len());
        assert(models(lines_in_files@[fj as int]@) == models(orig[fj as int]@));
        assert(models(lines_in_files@[fj as int]@).len() == col[fj as int].len());
        lines_in_files[fj][fi].take = true;
        proof {
            let row = lines_in_files@[fj as int]@;
            let row0 = before[fj as int]@;
            assert(models(row) =~= models(row0));
            assert(text_of(row) =~= text_of(row0));
            assert(rows_of(row) =~= rows_of(row0));
            assert((fj, fi) == pos[x as int]);
        }
        a += 1;
    }
    let mut out: Vec<ContextFile> = Vec::new();
    let mut k: usize = 0;
    while k < seen.len()
        invariant
            k <= seen@.len(),
            seen@ == sel.seen,
            forall|t: int| 0 <= t < seen@.len() ==> #[trigger] seen@[t] < files@.len(),
            lines_in_files@.len() == orig.len(),
            orig.len() == files@.len(),
            col == Seq::new(files@.len(), |j: int| models(orig[j]@)),
            forall|m: int|
                0 <= m < orig.len() ==> models(#[trigger] lines_in_files@[m]@) == models(orig[m]@)
                    && text_of(lines_in_files@[m]@) == text_of(orig[m]@)
                    && rows_of(lines_in_files@[m]@) == rows_of(orig[m]@) && takes_of(
                    lines_in_files@[m]@,
                ) == takes_in(col, sel, m),
            forall|m: int|
                0 <= m < files@.len() ==> text_of(#[trigger] orig[m]@) == split_nl(
                    files@[m].markup.file_content@,
                ),
            out@.len() == excerpts_upto(files@, col, sel, k as int).len(),
            forall|t: int|
                0 <= t < out@.len() ==> is_excerpt(
                    #[trigger] out@[t],
                    excerpts_upto(files@, col, sel, k as int)[t],
                ),
        decreases seen@.len() - k,
    {
        let j = seen[k];
        let (content, first) = emit_file(&lines_in_files[j]);
        let ghost prev = excerpts_upto(files@, col, sel, k as int);
        match first {
            Some(f) => {
                let n = lines_in_files[j].len();
                let c = ContextFile {
                    file_name: files[j].cpath.clone(),
                    file_content: content,
                    line1: f,
                    line2: n - 1,
                    symbol: 0,
                    gradient_type: -1,
                    usefulness: 0,
                    is_body_important: false,
                };
                proof {
                    assert(takes_in(col, sel, j as int).len() == n);
                }
                let ghost out0 = out@;
                out.push(c);
                proof {
                    let ex = excerpts_upto(files@, col, sel, k as int + 1);
                    assert(ex == prev.push(excerpt_of(files@, j as int, takes_in(col, sel, j as int))));
                    assert forall|t: int| 0 <= t < out@.len() implies is_excerpt(#[trigger] out@[t], ex[t]) by {
                        if t < prev.len() {
                            assert(out@[t] == out0[t]);
                        }
                    }
                }
            },
            None => {},
        }
        k += 1;
    }
    proof {
        assert forall|m: int| 0 <= m < files@.len() implies takes_of(#[trigger] lines_in_files@[m]@) == takes_in(col, sel, m) by {
            assert(takes_of(lines_in_files@[m]@) =~= takes_in(col, sel, m));
        }
    }
    out
}

/// Why a run was refused.
#[derive(PartialEq, Eq, Structural, Clone, Copy, Debug)]
pub enum PostprocessError {
    /// A hint, a file record, a token table or the settings is malformed.
    InvalidInput,
}

/// The inputs of a run are well formed.
pub open spec fn inputs_ok(
    files: Seq<File>,
    hints: Seq<ContextFile>,
    line_tokens: Seq<Seq<usize>>,
    name_tokens: Seq<usize>,
    st: PostprocessSettings,
) -> bool {
    &&& st.wf()
    &&& forall|j: int| 0 <= j < files.len() ==> file_ok(#[trigger] files[j])
    &&& forall|k: int| 0 <= k < hints.len() ==> hint_ok(#[trigger] hints[k])
    &&& tokens_fit(files, line_tokens, name_tokens)
    &&& files_match_hints(files, hints)
}

/// The file records carry distinct paths, and each is the file some hint names.
pub open spec fn files_match_hints(files: Seq<File>, hints: Seq<ContextFile>) -> bool {
    &&& forall|a: int, b: int|
        0 <= a < b < files.len() ==> (#[trigger] files[a]).cpath@ != (#[trigger] files[b]).cpath@
    &&& forall|j: int| 0 <= j < files.len() ==> named(hints, (#[trigger] files[j]).cpath@)
}

/// Some hint names `name`.
pub open spec fn named(hints: Seq<ContextFile>, name: Seq<char>) -> bool {
    exists|k: int| 0 <= k < hints.len() && (#[trigger] hints[k]).file_name@ == name
}

/// Whether some hint names `name`.
fn named_by(hints: &Vec<ContextFile>, name: &String) -> (r: bool)
    ensures
        r == named(hints@, name@),
{
    let mut k: usize = 0;
    while k < hints.len()
        invariant
            k <= hints@.len(),
            forall|m: int| 0 <= m < k ==> (#[trigger] hints@[m]).file_name@ != name@,
        decreases hints@.len() - k,
    {
        if hints[k].file_name == *name {
            return true;
        }
        k += 1;
    }
    false
}

/// Whether the file records carry distinct paths, each named by some hint.
pub fn check_files(files: &Vec<File>, hints: &Vec<ContextFile>) -> (r: bool)
    ensures
        r == files_match_hints(files@, hints@),
{
    let mut j: usize = 0;
    while j < files.len()
        invariant
            j <= files@.len(),
            forall|a: int, b: int|
                0 <= a < b < j ==> (#[trigger] files@[a]).cpath@ != (#[trigger] files@[b]).cpath@,
            forall|m: int| 0 <= m < j ==> named(hints@, (#[trigger] files@[m]).cpath@),
        decreases files@.len() - j,
    {
        if !named_by(hints, &files[j].cpath) {
            assert(!files_match_hints(files@, hints@)) by {
                assert(files@[j as int] == files@[j as int]);
            }
            return false;
        }
        let mut a: usize = 0;
        while a < j
            invariant
                a <= j < files@.len(),
                forall|c: int| 0 <= c < a ==> (#[trigger] files@[c]).cpath@ != files@[j as int].cpath@,
            decreases j - a,
        {
            if files[a].cpath == files[j].cpath {
                assert(!files_match_hints(files@, hints@)) by {
                    assert(files@[a as int].cpath@ == files@[j as int].cpath@);
                }
                return false;
            }
            a += 1;
        }
        j += 1;
    }
    assert(forall|a: int, b: int|
        0 <= a < b < files@.len() ==> (#[trigger] files@[a]).cpath@ != (#[trigger] files@[b]).cpath@);
    true
}

/// Whether the settings are within range.
pub fn settings_ok(st: &PostprocessSettings) -> (r: bool)
    ensures
        r == st.wf(),
{
    0 <= st.useful_background && st.useful_background <= crate::model::USEFUL_MAX && 0
        <= st.useful_symbol_default && st.useful_symbol_default <= crate::model::USEFUL_MAX && 0
        <= st.degrade_parent_coef && st.degrade_parent_coef <= crate::model::SCORE_ONE && 0
        <= st.degrade_body_coef && st.degrade_body_coef <= crate::model::SCORE_ONE && 0
        <= st.comments_propogate_up_coef && st.comments_propogate_up_coef
        <= crate::model::SCORE_ONE && crate::model::DISABLED <= st.take_floor
}

/// Whether a hint is well formed.
pub fn check_hint(h: &ContextFile) -> (r: bool)
    ensures
        r == hint_ok(*h),
{
    crate::model::DISABLED <= h.usefulness && h.usefulness <= crate::model::USEFUL_MAX && (
    h.usefulness < 0 || h.line1 <= h.line2)
}

/// Whether every input of a run is well formed.
pub fn check_inputs(
    files: &Vec<File>,
    hints: &Vec<ContextFile>,
    line_tokens: &Vec<Vec<usize>>,
    name_tokens: &Vec<usize>,
    st: &PostprocessSettings,
) -> (r: bool)
    ensures
        r == inputs_ok(files@, hints@, tables(line_tokens@), name_tokens@, *st),
{
    if !settings_ok(st) {
        return false;
    }
    if line_tokens.len() != files.len() || name_tokens.len() != files.len() {
        return false;
    }
    let mut j: usize = 0;
    while j < files.len()
        invariant
            j <= files@.len(),
            line_tokens@.len() == files@.len(),
            forall|m: int| 0 <= m < j ==> file_ok(#[trigger] files@[m]),
            forall|m: int|
                0 <= m < j ==> (#[trigger] tables(line_tokens@)[m]).len() == split_nl(
                    files@[m].markup.file_content@,
                ).len(),
        decreases files@.len() - j,
    {
        let b = files[j].cpath_symmetry_breaker;
        if b < 0 || b >= 10_000 {
            return false;
        }
        let n = crate::pipeline::split_lines(files[j].markup.file_content.as_str()).len();
        if line_tokens[j].len() != n {
            assert(tables(line_tokens@)[j as int].len() != split_nl(
                files@[j as int].markup.file_content@,
            ).len());
            return false;
        }
        j += 1;
    }
    let mut k: usize = 0;
    while k < hints.len()
        invariant
            k <= hints@.len(),
            forall|m: int| 0 <= m < k ==> hint_ok(#[trigger] hints@[m]),
        decreases hints@.len() - k,
    {
        if !check_hint(&hints[k]) {
            return false;
        }
        k += 1;
    }
    check_files(files, hints)
}

/// The whole postprocessor over counted tokens: score, select under `tokens_limit`, and
/// write excerpts. `line_tokens[j][i]` counts row `i` of file `j`, `name_tokens[j]` the name
/// of file `j`. Malformed input is refused before any work.
pub fn postprocess(
    files: &Vec<File>,
    hints: &Vec<ContextFile>,
    line_tokens: &Vec<Vec<usize>>,
    name_tokens: &Vec<usize>,
    tokens_limit: usize,
    single_file_mode: bool,
    settings: &PostprocessSettings,
) -> (r: Result<Vec<ContextFile>, PostprocessError>)
    ensures
        r is Err <==> !inputs_ok(files@, hints@, tables(line_tokens@), name_tokens@, *settings),
        r is Err ==> r == Err::<Vec<ContextFile>, PostprocessError>(PostprocessError::InvalidInput),
        r is Ok ==> ({
            let ex = excerpts(
                files@,
                hints@,
                tables(line_tokens@),
                name_tokens@,
                tokens_limit as int,
                single_file_mode,
                *settings,
            );
            &&& r->Ok_0@.len() == ex.len()
            &&& forall|k: int| 0 <= k < ex.len() ==> is_excerpt(#[trigger] r->Ok_0@[k], ex[k])
        }),
{
    if !check_inputs(files, hints, line_tokens, name_tokens, settings) {
        return Err(PostprocessError::InvalidInput);
    }
    let mut lines = postprocess_rag_stage_3_6(files, hints, settings);
    proof {
        assert forall|j: int| 0 <= j < files@.len() implies (#[trigger] lines@[j])@.len()
            == line_tokens@[j]@.len() by {
            assert(tables(line_tokens@)[j].len() == split_nl(files@[j].markup.file_content@).len());
            assert(text_of(lines@[j]@).len() == lines@[j]@.len());
        }
    }
    let ghost col0 = Seq::new(files@.len(), |j: int| models(lines@[j]@));
    proof {
        assert(col0 =~= colored(files@, hints@, *settings));
    }
    let out = postprocess_rag_stage_7_9(
        files,
        &mut lines,
        line_tokens,
        name_tokens,
        tokens_limit,
        single_file_mode,
        settings,
    );
    Ok(out)
}

} // verus!
