use vstd::prelude::*;
use vstd::string::StringExecFns;
use crate::colorize::{
    bounded, close_gaps, close_small_gaps, color_with_gradient_type, colorize_comments_up,
    colorize_if_more_useful, colorize_minus_one, colorize_parentof, comments_up, disable,
    downgrade, downgrade_lines_if_subsymbol, gradient, lift, models, paint, same_text, scale,
    scale_exec,
};
use crate::model::{
    ContextFile, File, FileLine, LineModel, PostprocessSettings, SymbolInformation, SymbolType,
    DISABLED, SCORE_ONE, USEFUL_MAX,
};
use crate::text::{chars_of, has_parent, owned, parent_of, parent_path, push_char};

verus! {

/// The lines of `s`: the pieces between `\n` characters (a text without one is one line).
pub open spec fn split_nl(s: Seq<char>) -> Seq<Seq<char>>
    decreases s.len(),
{
    if s.len() == 0 {
        seq![Seq::<char>::empty()]
    } else {
        let r = split_nl(s.drop_last());
        if s.last() == '\n' {
            r.push(Seq::<char>::empty())
        } else {
            r.update(r.len() - 1, r.last().push(s.last()))
        }
    }
}

pub proof fn lemma_split_nl_nonempty(s: Seq<char>)
    ensures
        split_nl(s).len() >= 1,
    decreases s.len(),
{
    if s.len() > 0 {
        lemma_split_nl_nonempty(s.drop_last());
    }
}

/// A hint the postprocessor accepts: usefulness within `[-1, 100]` points, and an ordered
/// line range unless the hint disables lines.
pub open spec fn hint_ok(h: ContextFile) -> bool {
    &&& DISABLED <= h.usefulness <= USEFUL_MAX
    &&& h.usefulness >= 0 ==> h.line1 <= h.line2
}

/// Label a symbol paints its rows with.
pub open spec fn sym_label(s: SymbolInformation) -> Seq<char> {
    if s.symbol_type == SymbolType::CommentDefinition {
        "comment"@
    } else {
        s.symbol_path@
    }
}

/// Symbol fill with the first `k` symbols, in order.
pub open spec fn fill_symbols(ls: Seq<LineModel>, syms: Seq<SymbolInformation>, k: int, u: int) -> Seq<
    LineModel,
>
    decreases k,
{
    if k <= 0 {
        ls
    } else {
        let s = syms[k - 1];
        paint(
            fill_symbols(ls, syms, k - 1, u),
            s.full_range.start_row as int,
            s.full_range.end_row + 1,
            sym_label(s),
            u,
        )
    }
}

/// Symbol fill then background fill.
pub open spec fn symbol_pass(ls: Seq<LineModel>, syms: Seq<SymbolInformation>, st: PostprocessSettings) -> Seq<
    LineModel,
> {
    paint(
        fill_symbols(ls, syms, syms.len() as int, st.useful_symbol_default as int),
        0,
        ls.len() as int,
        "empty"@,
        st.useful_background as int,
    )
}

/// Index of the first symbol with id `id`, or -1.
pub open spec fn first_symbol(syms: Seq<SymbolInformation>, id: u128) -> int
    decreases syms.len(),
{
    if syms.len() == 0 {
        -1
    } else {
        let r = first_symbol(syms.drop_last(), id);
        if r >= 0 {
            r
        } else if syms.last().guid == id {
            syms.len() - 1
        } else {
            -1
        }
    }
}

/// First row (0-based) of a hint's line range.
pub open spec fn hint_lo(h: ContextFile) -> int {
    if h.line1 >= 1 {
        h.line1 - 1
    } else {
        0
    }
}

/// What one hint does to the lines of its file.
pub open spec fn apply_hint(
    ls: Seq<LineModel>,
    h: ContextFile,
    syms: Seq<SymbolInformation>,
    st: PostprocessSettings,
) -> Seq<LineModel> {
    let u = h.usefulness as int;
    if u < 0 {
        disable(ls, hint_lo(h), h.line2 as int)
    } else {
        let g = gradient(ls, h.gradient_type as int, u, h.line1 as int, h.line2 as int);
        let k = if h.symbol != 0 {
            first_symbol(syms, h.symbol)
        } else {
            -1
        };
        let p = if !h.is_body_important && k >= 0 {
            let s = syms[k];
            let painted = paint(
                g,
                s.full_range.start_row as int,
                s.full_range.end_row + 1,
                s.symbol_path@,
                u,
            );
            if has_parent(s.symbol_path@) {
                lift(
                    painted,
                    parent_path(s.symbol_path@),
                    st.useful_background as int,
                    scale(u, st.degrade_parent_coef as int, SCORE_ONE as int),
                )
            } else {
                painted
            }
        } else {
            paint(g, hint_lo(h), h.line2 as int, "nosymb"@, u)
        };
        comments_up(p, st.comments_propogate_up_coef as int)
    }
}

/// Index of the first file named `name`, or -1.
pub open spec fn owner(files: Seq<File>, name: Seq<char>) -> int
    decreases files.len(),
{
    if files.len() == 0 {
        -1
    } else {
        let r = owner(files.drop_last(), name);
        if r >= 0 {
            r
        } else if files.last().cpath@ == name {
            files.len() - 1
        } else {
            -1
        }
    }
}

/// The first `k` hints applied in order, each to the file it names when that is file `j`.
pub open spec fn apply_hints(
    ls: Seq<LineModel>,
    files: Seq<File>,
    j: int,
    hints: Seq<ContextFile>,
    k: int,
    st: PostprocessSettings,
) -> Seq<LineModel>
    decreases k,
{
    if k <= 0 {
        ls
    } else {
        let prev = apply_hints(ls, files, j, hints, k - 1, st);
        if owner(files, hints[k - 1].file_name@) == j {
            apply_hint(prev, hints[k - 1], files[j].markup.symbols_sorted_by_path_len@, st)
        } else {
            prev
        }
    }
}

/// Body downgrade for the first `k` symbols, in order.
pub open spec fn downgrade_bodies(
    ls: Seq<LineModel>,
    text: Seq<Seq<char>>,
    syms: Seq<SymbolInformation>,
    k: int,
    coef: int,
) -> Seq<LineModel>
    decreases k,
{
    if k <= 0 {
        ls
    } else {
        let prev = downgrade_bodies(ls, text, syms, k - 1, coef);
        let s = syms[k - 1];
        let lo = if s.definition_range.start_row > s.declaration_range.end_row + 1 {
            s.definition_range.start_row as int
        } else {
            s.declaration_range.end_row + 1
        };
        if s.definition_range.end_byte != 0 && s.definition_range.end_row >= lo {
            downgrade(
                prev,
                text,
                lo,
                s.definition_range.end_row as int,
                s.symbol_path@ + "::body"@,
                coef,
            )
        } else {
            prev
        }
    }
}

/// The scored lines of file `j` once every pass has run.
pub open spec fn colorize_file(
    files: Seq<File>,
    j: int,
    hints: Seq<ContextFile>,
    st: PostprocessSettings,
) -> Seq<LineModel> {
    let f = files[j];
    let text = split_nl(f.markup.file_content@);
    let syms = f.markup.symbols_sorted_by_path_len@;
    let init = Seq::new(text.len(), |i: int| LineModel { useful: 0, color: Seq::empty() });
    let a = symbol_pass(init, syms, st);
    let b = apply_hints(a, files, j, hints, hints.len() as int, st);
    let e = downgrade_bodies(b, text, syms, syms.len() as int, st.degrade_body_coef as int);
    if st.close_small_gaps {
        close_gaps(e)
    } else {
        e
    }
}

/// Split `s` into its lines.
pub fn split_lines(s: &str) -> (r: Vec<String>)
    ensures
        r@.len() == split_nl(s@).len(),
        forall|i: int| 0 <= i < r@.len() ==> #[trigger] r@[i]@ == split_nl(s@)[i],
{
    let cs = chars_of(s);
    let mut out: Vec<String> = Vec::new();
    let mut cur = String::new();
    let mut i: usize = 0;
    while i < cs.len()
        invariant
            i <= cs@.len(),
            cs@ == s@,
            out@.len() + 1 == split_nl(cs@.take(i as int)).len(),
            forall|k: int| 0 <= k < out@.len() ==> #[trigger] out@[k]@ == split_nl(
                cs@.take(i as int),
            )[k],
            cur@ == split_nl(cs@.take(i as int)).last(),
        decreases cs@.len() - i,
    {
        let ghost prev = split_nl(cs@.take(i as int));
        proof {
            assert(cs@.take(i as int + 1).drop_last() =~= cs@.take(i as int));
            lemma_split_nl_nonempty(cs@.take(i as int));
        }
        if cs[i] == '\n' {
            out.push(cur);
            cur = String::new();
        } else {
            push_char(&mut cur, cs[i]);
        }
        i += 1;
    }
    proof {
        assert(cs@.take(i as int) =~= s@);
    }
    out.push(cur);
    proof {
        lemma_split_nl_nonempty(s@);
    }
    out
}

pub proof fn lemma_paint_clip(ls: Seq<LineModel>, lo: int, hi: int, label: Seq<char>, u: int)
    requires
        hi >= ls.len(),
    ensures
        paint(ls, lo, hi, label, u) == paint(ls, lo, ls.len() as int, label, u),
{
    assert(paint(ls, lo, hi, label, u) =~= paint(ls, lo, ls.len() as int, label, u));
}

/// Paint the rows of a symbol's full range.
fn paint_rows(lines: &mut Vec<FileLine>, s: &SymbolInformation, label: &String, u: i128)
    requires
        bounded(models(old(lines)@)),
        0 <= u <= USEFUL_MAX,
    ensures
        models(final(lines)@) == paint(
            models(old(lines)@),
            s.full_range.start_row as int,
            s.full_range.end_row + 1,
            label@,
            u as int,
        ),
        same_text(old(lines)@, final(lines)@),
        bounded(models(final(lines)@)),
{
    let ghost before = models(lines@);
    if s.full_range.end_row < lines.len() {
        colorize_if_more_useful(lines, s.full_range.start_row, s.full_range.end_row + 1, label, u);
    } else {
        proof {
            lemma_paint_clip(
                before,
                s.full_range.start_row as int,
                s.full_range.end_row + 1,
                label@,
                u as int,
            );
        }
        let n = lines.len();
        colorize_if_more_useful(lines, s.full_range.start_row, n, label, u);
    }
}

/// Index of the first symbol with id `id`.
pub fn find_symbol(syms: &Vec<SymbolInformation>, id: u128) -> (r: Option<usize>)
    ensures
        match r {
            Some(k) => k as int == first_symbol(syms@, id) && k < syms@.len(),
            None => first_symbol(syms@, id) == -1,
        },
{
    let mut i: usize = 0;
    while i < syms.len()
        invariant
            i <= syms@.len(),
            first_symbol(syms@.take(i as int), id) == -1,
        decreases syms@.len() - i,
    {
        proof {
            assert(syms@.take(i as int + 1).drop_last() =~= syms@.take(i as int));
        }
        if syms[i].guid == id {
            proof {
                lemma_first_symbol_prefix(syms@, i as int + 1, id);
            }
            return Some(i);
        }
        i += 1;
    }
    proof {
        assert(syms@.take(i as int) =~= syms@);
    }
    None
}

/// A hit within the first `k` symbols is the overall first hit.
pub proof fn lemma_first_symbol_prefix(syms: Seq<SymbolInformation>, k: int, id: u128)
    requires
        0 <= k <= syms.len(),
        first_symbol(syms.take(k), id) >= 0,
    ensures
        first_symbol(syms, id) == first_symbol(syms.take(k), id),
    decreases syms.len() - k,
{
    if k < syms.len() {
        assert(syms.take(k + 1).drop_last() =~= syms.take(k));
        lemma_first_symbol_prefix(syms, k + 1, id);
    } else {
        assert(syms.take(k) =~= syms);
    }
}

/// Apply one hint to the lines of its file.
pub fn apply_hint_exec(
    lines: &mut Vec<FileLine>,
    h: &ContextFile,
    syms: &Vec<SymbolInformation>,
    st: &PostprocessSettings,
)
    requires
        bounded(models(old(lines)@)),
        hint_ok(*h),
        st.wf(),
    ensures
        models(final(lines)@) == apply_hint(models(old(lines)@), *h, syms@, *st),
        same_text(old(lines)@, final(lines)@),
        bounded(models(final(lines)@)),
{
    let lo = if h.line1 >= 1 {
        h.line1 - 1
    } else {
        0
    };
    if h.usefulness < 0 {
        colorize_minus_one(lines, lo, h.line2);
        return ;
    }
    let ghost before = models(lines@);
    let u = h.usefulness;
    color_with_gradient_type(lines, h.gradient_type, u, h.line1, h.line2);
    let k = if h.symbol != 0 {
        find_symbol(syms, h.symbol)
    } else {
        None
    };
    let ghost g = models(lines@);
    let ghost orig1 = lines@;
    match k {
        Some(k) if !h.is_body_important => {
            let s = &syms[k];
            paint_rows(lines, s, &s.symbol_path, u);
            let ghost orig2 = lines@;
            match parent_of(s.symbol_path.as_str()) {
                Some(p) => {
                    let peak = scale_exec(u, st.degrade_parent_coef, SCORE_ONE);
                    colorize_parentof(lines, &p, st.useful_background, peak);
                    proof {
                        assert(same_text(orig1, lines@));
                    }
                },
                None => {},
            }
        },
        _ => {
            let label = owned("nosymb");
            colorize_if_more_useful(lines, lo, h.line2, &label, u);
        },
    }
    colorize_comments_up(lines, st.comments_propogate_up_coef);
}

/// Index of the first file named `name`.
pub fn find_owner(files: &Vec<File>, name: &String) -> (r: Option<usize>)
    ensures
        match r {
            Some(j) => j as int == owner(files@, name@) && j < files@.len(),
            None => owner(files@, name@) == -1,
        },
{
    let mut i: usize = 0;
    while i < files.len()
        invariant
            i <= files@.len(),
            owner(files@.take(i as int), name@) == -1,
        decreases files@.len() - i,
    {
        proof {
            assert(files@.take(i as int + 1).drop_last() =~= files@.take(i as int));
        }
        if files[i].cpath == *name {
            proof {
                lemma_owner_prefix(files@, i as int + 1, name@);
            }
            return Some(i);
        }
        i += 1;
    }
    proof {
        assert(files@.take(i as int) =~= files@);
    }
    None
}

/// A hit within the first `k` files is the overall first hit.
pub proof fn lemma_owner_prefix(files: Seq<File>, k: int, name: Seq<char>)
    requires
        0 <= k <= files.len(),
        owner(files.take(k), name) >= 0,
    ensures
        owner(files, name) == owner(files.take(k), name),
    decreases files.len() - k,
{
    if k < files.len() {
        assert(files.take(k + 1).drop_last() =~= files.take(k));
        lemma_owner_prefix(files, k + 1, name);
    } else {
        assert(files.take(k) =~= files);
    }
}

/// Symbol fill then background fill, over fresh lines.
fn symbol_pass_exec(lines: &mut Vec<FileLine>, syms: &Vec<SymbolInformation>, st: &PostprocessSettings)
    requires
        bounded(models(old(lines)@)),
        st.wf(),
    ensures
        models(final(lines)@) == symbol_pass(models(old(lines)@), syms@, *st),
        same_text(old(lines)@, final(lines)@),
        bounded(models(final(lines)@)),
{
    let ghost before = models(lines@);
    let ghost orig = lines@;
    let comment = owned("comment");
    let mut i: usize = 0;
    while i < syms.len()
        invariant
            i <= syms@.len(),
            st.wf(),
            comment@ == "comment"@,
            bounded(models(lines@)),
            same_text(orig, lines@),
            before == models(orig),
            models(lines@) == fill_symbols(before, syms@, i as int, st.useful_symbol_default as int),
        decreases syms@.len() - i,
    {
        let s = &syms[i];
        if s.symbol_type == SymbolType::CommentDefinition {
            paint_rows(lines, s, &comment, st.useful_symbol_default);
        } else {
            paint_rows(lines, s, &s.symbol_path, st.useful_symbol_default);
        }
        i += 1;
    }
    let empty = owned("empty");
    let n = lines.len();
    colorize_if_more_useful(lines, 0, n, &empty, st.useful_background);
}

/// Body downgrade for every symbol, in order.
fn downgrade_bodies_exec(lines: &mut Vec<FileLine>, syms: &Vec<SymbolInformation>, coef: i128)
    requires
        bounded(models(old(lines)@)),
        0 <= coef <= 1_000_000,
    ensures
        models(final(lines)@) == downgrade_bodies(
            models(old(lines)@),
            Seq::new(old(lines)@.len(), |k: int| old(lines)@[k].line_content@),
            syms@,
            syms@.len() as int,
            coef as int,
        ),
        same_text(old(lines)@, final(lines)@),
        bounded(models(final(lines)@)),
{
    let ghost before = models(lines@);
    let ghost orig = lines@;
    let ghost text = Seq::new(orig.len(), |k: int| orig[k].line_content@);
    let mut i: usize = 0;
    while i < syms.len()
        invariant
            i <= syms@.len(),
            0 <= coef <= 1_000_000,
            bounded(models(lines@)),
            same_text(orig, lines@),
            before == models(orig),
            text == Seq::new(orig.len(), |k: int| orig[k].line_content@),
            models(lines@) == downgrade_bodies(before, text, syms@, i as int, coef as int),
        decreases syms@.len() - i,
    {
        let s = &syms[i];
        let ghost cur = lines@;
        proof {
            assert(Seq::new(cur.len(), |k: int| cur[k].line_content@) =~= text);
        }
        if s.declaration_range.end_row < usize::MAX {
            let lo = if s.definition_range.start_row > s.declaration_range.end_row + 1 {
                s.definition_range.start_row
            } else {
                s.declaration_range.end_row + 1
            };
            if s.definition_range.end_byte != 0 && s.definition_range.end_row >= lo {
                let sub = s.symbol_path.clone().concat("::body");
                downgrade_lines_if_subsymbol(lines, lo, s.definition_range.end_row, &sub, coef);
            }
        }
        i += 1;
    }
}

/// Which file each hint names, as the index of the first file with that path.
pub fn resolve_owners(files: &Vec<File>, hints: &Vec<ContextFile>) -> (r: Vec<Option<usize>>)
    ensures
        r@.len() == hints@.len(),
        forall|k: int|
            0 <= k < hints@.len() ==> match #[trigger] r@[k] {
                Some(j) => j as int == owner(files@, hints@[k].file_name@) && j < files@.len(),
                None => owner(files@, hints@[k].file_name@) == -1,
            },
{
    let mut r: Vec<Option<usize>> = Vec::new();
    let mut k: usize = 0;
    while k < hints.len()
        invariant
            k <= hints@.len(),
            r@.len() == k,
            forall|m: int|
                0 <= m < k ==> match #[trigger] r@[m] {
                    Some(j) => j as int == owner(files@, hints@[m].file_name@) && j < files@.len(),
                    None => owner(files@, hints@[m].file_name@) == -1,
                },
        decreases hints@.len() - k,
    {
        r.push(find_owner(files, &hints[k].file_name));
        k += 1;
    }
    r
}

/// Build and score the lines of file `j`.
pub fn colorize_one(
    files: &Vec<File>,
    j: usize,
    hints: &Vec<ContextFile>,
    owners: &Vec<Option<usize>>,
    st: &PostprocessSettings,
) -> (r: Vec<FileLine>)
    requires
        j < files@.len(),
        st.wf(),
        forall|k: int| 0 <= k < hints@.len() ==> hint_ok(#[trigger] hints@[k]),
        owners@.len() == hints@.len(),
        forall|k: int|
            0 <= k < hints@.len() ==> match #[trigger] owners@[k] {
                Some(i) => i as int == owner(files@, hints@[k].file_name@),
                None => owner(files@, hints@[k].file_name@) == -1,
            },
    ensures
        models(r@) == colorize_file(files@, j as int, hints@, *st),
        r@.len() == split_nl(files@[j as int].markup.file_content@).len(),
        forall|i: int|
            0 <= i < r@.len() ==> (#[trigger] r@[i]).line_content@ == split_nl(
                files@[j as int].markup.file_content@,
            )[i] && !r@[i].take && r@[i].line_n == i,
        bounded(models(r@)),
{
    let f = &files[j];
    let ghost text = split_nl(f.markup.file_content@);
    let parts = split_lines(f.markup.file_content.as_str());
    let mut lines: Vec<FileLine> = Vec::new();
    let mut i: usize = 0;
    while i < parts.len()
        invariant
            i <= parts@.len(),
            parts@.len() == text.len(),
            forall|m: int| 0 <= m < parts@.len() ==> #[trigger] parts@[m]@ == text[m],
            lines@.len() == i,
            forall|m: int|
                0 <= m < i ==> (#[trigger] lines@[m]).line_content@ == text[m] && !lines@[m].take
                    && lines@[m].line_n == m && lines@[m].useful == 0 && lines@[m].color@
                    == Seq::<char>::empty(),
        decreases parts@.len() - i,
    {
        lines.push(
            FileLine {
                line_n: i,
                line_content: parts[i].clone(),
                useful: 0,
                color: String::new(),
                take: false,
            },
        );
        i += 1;
    }
    let ghost orig = lines@;
    let ghost init = Seq::new(text.len(), |m: int| LineModel { useful: 0, color: Seq::empty() });
    proof {
        assert(models(lines@) =~= init);
    }
    let syms = &f.markup.symbols_sorted_by_path_len;
    symbol_pass_exec(&mut lines, syms, st);
    let mut k: usize = 0;
    while k < hints.len()
        invariant
            k <= hints@.len(),
            j < files@.len(),
            st.wf(),
            *syms == files@[j as int].markup.symbols_sorted_by_path_len,
            forall|m: int| 0 <= m < hints@.len() ==> hint_ok(#[trigger] hints@[m]),
            owners@.len() == hints@.len(),
            forall|m: int|
                0 <= m < hints@.len() ==> match #[trigger] owners@[m] {
                    Some(i) => i as int == owner(files@, hints@[m].file_name@),
                    None => owner(files@, hints@[m].file_name@) == -1,
                },
            bounded(models(lines@)),
            same_text(orig, lines@),
            models(lines@) == apply_hints(
                symbol_pass(init, syms@, *st),
                files@,
                j as int,
                hints@,
                k as int,
                *st,
            ),
        decreases hints@.len() - k,
    {
        match owners[k] {
            Some(o) => {
                if o == j {
                    apply_hint_exec(&mut lines, &hints[k], syms, st);
                }
            },
            None => {},
        }
        k += 1;
    }
    let ghost before_down = lines@;
    proof {
        assert(Seq::new(before_down.len(), |m: int| before_down[m].line_content@) =~= text);
    }
    downgrade_bodies_exec(&mut lines, syms, st.degrade_body_coef);
    if st.close_small_gaps {
        close_small_gaps(&mut lines);
    }
    lines
}

} // verus!
