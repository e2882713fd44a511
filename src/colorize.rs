use vstd::prelude::*;
use crate::model::{FileLine, LineModel, DISABLED, FADE_LINES, LINE_BIAS, SCORE_ONE, USEFUL_MAX};
use crate::text::{chars_of, is_lone_glyph, is_prefix, lone_glyph, owned, starts_with};

verus! {

/// Magnitude that no line score reaches.
pub const SCORE_LIMIT: i128 = 1208925819614629174706176;

/// The model of each line of a file.
pub open spec fn models(v: Seq<FileLine>) -> Seq<LineModel> {
    Seq::new(v.len(), |i: int| v[i].model())
}

/// Every score lies within `SCORE_LIMIT`.
pub open spec fn bounded(ls: Seq<LineModel>) -> bool {
    forall|i: int| 0 <= i < ls.len() ==> -SCORE_LIMIT <= #[trigger] ls[i].useful <= SCORE_LIMIT
}

/// A pass leaves the text, line numbers and selection flags of the lines alone.
pub open spec fn same_text(a: Seq<FileLine>, b: Seq<FileLine>) -> bool {
    a.len() == b.len() && forall|i: int|
        0 <= i < a.len() ==> (#[trigger] b[i]).line_content == a[i].line_content && b[i].take
            == a[i].take && b[i].line_n == a[i].line_n
}

/// `x * num / den` rounded toward zero.
pub open spec fn scale(x: int, num: int, den: int) -> int {
    if x >= 0 {
        x * num / den
    } else {
        -((-x) * num / den)
    }
}

/// A line a disabling hint switched off: it keeps its score of -1 through every later pass.
pub open spec fn is_disabled(l: LineModel) -> bool {
    l.useful == DISABLED as int && l.color == "disabled"@
}

/// Whether the line is switched off; `label` holds `disabled`.
pub fn line_disabled(l: &FileLine, label: &String) -> (r: bool)
    requires
        label@ == "disabled"@,
    ensures
        r == is_disabled(l.model()),
{
    l.useful == DISABLED && l.color == *label
}

/// Paint `[lo, hi)` with `label` at `u` (less the line bias) wherever that is an increase
/// or the line is still unclaimed.
pub open spec fn paint(ls: Seq<LineModel>, lo: int, hi: int, label: Seq<char>, u: int) -> Seq<
    LineModel,
> {
    Seq::new(
        ls.len(),
        |i: int|
            {
                let v = u - LINE_BIAS * i;
                if lo <= i < hi && !is_disabled(ls[i]) && (ls[i].useful < v || ls[i].color.len()
                    == 0) {
                    LineModel { useful: v, color: label }
                } else {
                    ls[i]
                }
            },
    )
}

/// Mark `[lo, hi)` as disabled.
pub open spec fn disable(ls: Seq<LineModel>, lo: int, hi: int) -> Seq<LineModel> {
    Seq::new(
        ls.len(),
        |i: int|
            if lo <= i < hi {
                LineModel { useful: DISABLED as int, color: "disabled"@ }
            } else {
                ls[i]
            },
    )
}

/// A linear fade that is `u` at distance `FADE_LINES` and zero at distance zero or less.
pub open spec fn ramp(u: int, k: int) -> int {
    if k > 0 {
        u * k / (FADE_LINES as int)
    } else {
        0
    }
}

/// Score that gradient shape `gt` of a hint (peak `u`, 1-based range `[l1, l2]`) gives
/// 1-based line `n`.
pub open spec fn gradient_value(gt: int, u: int, l1: int, l2: int, n: int) -> int {
    let f = FADE_LINES as int;
    if gt == 0 {
        let v = u - LINE_BIAS * n;
        if v > 0 {
            v
        } else {
            0
        }
    } else if gt == 1 {
        if n < l1 {
            ramp(u, n - l1 + f)
        } else {
            ramp(u, l1 + f - n)
        }
    } else if gt == 2 {
        if n <= l2 {
            ramp(u, n - l2 + f)
        } else {
            DISABLED as int
        }
    } else if gt == 3 {
        if n < l1 {
            DISABLED as int
        } else {
            ramp(u, l1 + f - n)
        }
    } else {
        if n < l1 {
            ramp(u, n - l1 + f)
        } else if n <= l2 {
            USEFUL_MAX as int
        } else {
            ramp(u, l2 + f - n)
        }
    }
}

/// Label written by gradient shape `gt`.
pub open spec fn gradient_label(gt: int) -> Seq<char> {
    if gt == 0 {
        "gradient_type: 0"@
    } else if gt == 1 {
        "gradient_type: 1"@
    } else if gt == 2 {
        "gradient_type: 2"@
    } else if gt == 3 {
        "gradient_type: 3"@
    } else {
        "gradient_type: 4"@
    }
}

/// Apply gradient shape `gt` over the whole file: a point is written where it raises the
/// score or is negative. Shapes outside `0..=4` change nothing.
pub open spec fn gradient(ls: Seq<LineModel>, gt: int, u: int, l1: int, l2: int) -> Seq<LineModel> {
    if 0 <= gt <= 4 {
        Seq::new(
            ls.len(),
            |i: int|
                {
                    let g = gradient_value(gt, u, l1, l2, i + 1);
                    if !is_disabled(ls[i]) && (ls[i].useful < g || g < 0) {
                        LineModel { useful: g, color: gradient_label(gt) }
                    } else {
                        ls[i]
                    }
                },
        )
    } else {
        ls
    }
}

/// Parent lift: a line whose label `C` is a non-empty prefix of the parent path `P`
/// (`C == P` included) rises to `bg + (peak - bg) * len(C) / len(P)`, less the line bias,
/// if that is higher; its label is kept.
pub open spec fn lift(ls: Seq<LineModel>, parent: Seq<char>, bg: int, peak: int) -> Seq<LineModel> {
    Seq::new(
        ls.len(),
        |i: int|
            {
                let c = ls[i].color;
                let v = bg + scale(peak - bg, c.len() as int, parent.len() as int) - LINE_BIAS * i;
                if c.len() > 0 && is_prefix(c, parent) && !is_disabled(ls[i]) && ls[i].useful < v {
                    LineModel { useful: v, color: c }
                } else {
                    ls[i]
                }
            },
    )
}

/// One step of comment propagation at line `i`, from line `i + 1`.
pub open spec fn comment_step(ls: Seq<LineModel>, i: int, coef: int) -> Seq<LineModel> {
    let u = scale(ls[i + 1].useful, coef, SCORE_ONE as int);
    if ls[i].color == "comment"@ && ls[i].useful < u {
        ls.update(i, LineModel { useful: u, color: ls[i].color })
    } else {
        ls
    }
}

/// Comment propagation over lines `i..`, walking from the bottom up.
pub open spec fn comments_up_from(ls: Seq<LineModel>, i: int, coef: int) -> Seq<LineModel>
    decreases ls.len() - i,
{
    if i < 0 || i + 1 >= ls.len() {
        ls
    } else {
        comment_step(comments_up_from(ls, i + 1, coef), i, coef)
    }
}

/// Comment propagation over the whole file.
pub open spec fn comments_up(ls: Seq<LineModel>, coef: int) -> Seq<LineModel> {
    comments_up_from(ls, 0, coef)
}

/// Body downgrade of rows `lo..=last`: lines whose label is a prefix of `sub` are scaled by
/// `coef` and relabelled `sub`; an end row that is a lone glyph is kept.
pub open spec fn downgrade(
    ls: Seq<LineModel>,
    text: Seq<Seq<char>>,
    lo: int,
    last: int,
    sub: Seq<char>,
    coef: int,
) -> Seq<LineModel> {
    Seq::new(
        ls.len(),
        |i: int|
            if lo <= i <= last && is_prefix(ls[i].color, sub) && !is_disabled(ls[i]) && !((i
                == last || i == lo) && lone_glyph(text[i])) {
                LineModel { useful: scale(ls[i].useful, coef, SCORE_ONE as int), color: sub }
            } else {
                ls[i]
            },
    )
}

/// Gap closing: an interior line rises to the lower of its two neighbours.
pub open spec fn close_gaps(ls: Seq<LineModel>) -> Seq<LineModel> {
    Seq::new(
        ls.len(),
        |i: int|
            {
                if 1 <= i < ls.len() - 1 {
                    let m = if ls[i - 1].useful < ls[i + 1].useful {
                        ls[i - 1].useful
                    } else {
                        ls[i + 1].useful
                    };
                    if !is_disabled(ls[i]) && ls[i].useful < m {
                        LineModel { useful: m, color: ls[i].color }
                    } else {
                        ls[i]
                    }
                } else {
                    ls[i]
                }
            },
    )
}

pub proof fn lemma_comments_up_len(ls: Seq<LineModel>, i: int, coef: int)
    ensures
        comments_up_from(ls, i, coef).len() == ls.len(),
    decreases ls.len() - i,
{
    if !(i < 0 || i + 1 >= ls.len()) {
        lemma_comments_up_len(ls, i + 1, coef);
    }
}

/// Bound on `|x| * den` under which `scale_exec` computes without overflow.
pub const PRODUCT_LIMIT: i128 = 0x4000_0000_0000_0000_0000_0000_0000_0000;

pub proof fn lemma_bounded_to_lines(v: Seq<FileLine>)
    requires
        bounded(models(v)),
    ensures
        forall|k: int| 0 <= k < v.len() ==> -SCORE_LIMIT <= #[trigger] v[k].useful <= SCORE_LIMIT,
{
    assert forall|k: int| 0 <= k < v.len() implies -SCORE_LIMIT <= #[trigger] v[k].useful
        <= SCORE_LIMIT by {
        assert(models(v)[k] == v[k].model());
        assert(-SCORE_LIMIT <= models(v)[k].useful <= SCORE_LIMIT);
    }
}

pub proof fn lemma_bounded_from_lines(v: Seq<FileLine>)
    requires
        forall|k: int| 0 <= k < v.len() ==> -SCORE_LIMIT <= #[trigger] v[k].useful <= SCORE_LIMIT,
    ensures
        bounded(models(v)),
{
    assert forall|k: int| 0 <= k < v.len() implies -SCORE_LIMIT <= #[trigger] models(v)[k].useful
        <= SCORE_LIMIT by {
        assert(models(v)[k] == v[k].model());
    }
}

/// `x * num / den` rounded toward zero.
pub fn scale_exec(x: i128, num: i128, den: i128) -> (r: i128)
    requires
        -SCORE_LIMIT <= x <= SCORE_LIMIT,
        0 <= num <= den,
        den > 0,
        -PRODUCT_LIMIT <= x * den <= PRODUCT_LIMIT,
    ensures
        r == scale(x as int, num as int, den as int),
        x >= 0 ==> 0 <= r <= x,
        x < 0 ==> x <= r <= 0,
{
    if x >= 0 {
        assert(0 <= x * num <= x * den) by (nonlinear_arith)
            requires
                0 <= x,
                0 <= num <= den,
        ;
        let p = x * num;
        assert(p / den <= x) by (nonlinear_arith)
            requires
                p <= x * den,
                den > 0,
                p >= 0,
        ;
        p / den
    } else {
        let y = -x;
        assert(0 <= y * num <= y * den) by (nonlinear_arith)
            requires
                0 <= y,
                0 <= num <= den,
        ;
        assert(y * den == -(x * den)) by (nonlinear_arith)
            requires
                y == -x,
        ;
        let p = y * num;
        assert(p / den <= y) by (nonlinear_arith)
            requires
                p <= y * den,
                den > 0,
                p >= 0,
        ;
        -(p / den)
    }
}

/// Paint `[line1, line2)` with `color` at `useful` where that raises the score or the line
/// is unclaimed; rows past the end of the file are ignored.
pub fn colorize_if_more_useful(
    lines: &mut Vec<FileLine>,
    line1: usize,
    line2: usize,
    color: &String,
    useful: i128,
)
    requires
        bounded(models(old(lines)@)),
        0 <= useful <= USEFUL_MAX,
    ensures
        models(final(lines)@) == paint(
            models(old(lines)@),
            line1 as int,
            line2 as int,
            color@,
            useful as int,
        ),
        same_text(old(lines)@, final(lines)@),
        bounded(models(final(lines)@)),
{
    let ghost before = models(lines@);
    let ghost target = paint(before, line1 as int, line2 as int, color@, useful as int);
    let ghost orig = lines@;
    let off = owned("disabled");
    let end = if line2 < lines.len() {
        line2
    } else {
        lines.len()
    };
    let mut i: usize = line1;
    while i < end
        invariant
            end <= lines@.len(),
            lines@.len() == before.len(),
            line1 <= i,
            end <= line2,
            same_text(orig, lines@),
            before == models(orig),
            target == paint(before, line1 as int, line2 as int, color@, useful as int),
            0 <= useful <= USEFUL_MAX,
            off@ == "disabled"@,
            bounded(before),
            forall|k: int|
                0 <= k < lines@.len() ==> #[trigger] lines@[k].model() == if line1 <= k < i {
                    target[k]
                } else {
                    before[k]
                },
        decreases end - i,
    {
        let v = useful - LINE_BIAS * (i as i128);
        assert(lines@[i as int].model() == before[i as int]);
        if !line_disabled(&lines[i], &off) && (lines[i].useful < v
            || lines[i].color.as_str().is_empty()) {
            lines[i].useful = v;
            lines[i].color = color.clone();
            assert(lines@[i as int].model() == LineModel { useful: v as int, color: color@ });
        }
        proof {
            assert(lines@[i as int].model() == target[i as int]);
        }
        i += 1;
    }
    proof {
        assert(models(lines@) =~= target);
    }
}

/// Disable `[line1, line2)`; rows past the end of the file are ignored.
pub fn colorize_minus_one(lines: &mut Vec<FileLine>, line1: usize, line2: usize)
    requires
        bounded(models(old(lines)@)),
    ensures
        models(final(lines)@) == disable(models(old(lines)@), line1 as int, line2 as int),
        same_text(old(lines)@, final(lines)@),
        bounded(models(final(lines)@)),
{
    let ghost before = models(lines@);
    let ghost target = disable(before, line1 as int, line2 as int);
    let ghost orig = lines@;
    let label = owned("disabled");
    let end = if line2 < lines.len() {
        line2
    } else {
        lines.len()
    };
    let mut i: usize = line1;
    while i < end
        invariant
            end <= lines@.len(),
            lines@.len() == before.len(),
            line1 <= i,
            end <= line2,
            label@ == "disabled"@,
            same_text(orig, lines@),
            before == models(orig),
            target == disable(before, line1 as int, line2 as int),
            bounded(before),
            forall|k: int|
                0 <= k < lines@.len() ==> #[trigger] lines@[k].model() == if line1 <= k < i {
                    target[k]
                } else {
                    before[k]
                },
        decreases end - i,
    {
        lines[i].useful = DISABLED;
        lines[i].color = label.clone();
        assert(lines@[i as int].model() == target[i as int]);
        i += 1;
    }
    proof {
        assert(models(lines@) =~= target);
    }
}

/// The gradient shape's value at 1-based line `n`.
pub fn gradient_point(gt: i32, u: i128, l1: usize, l2: usize, n: i128) -> (r: i128)
    requires
        0 <= gt <= 4,
        0 <= u <= USEFUL_MAX,
        1 <= n <= 0x1_0000_0000_0000_0000,
    ensures
        r == gradient_value(gt as int, u as int, l1 as int, l2 as int, n as int),
        DISABLED <= r <= USEFUL_MAX,
{
    let a = l1 as i128;
    let b = l2 as i128;
    if gt == 0 {
        let v = u - LINE_BIAS * n;
        if v > 0 {
            v
        } else {
            0
        }
    } else if gt == 1 {
        if n < a {
            ramp_exec(u, n - a + FADE_LINES)
        } else {
            ramp_exec(u, a + FADE_LINES - n)
        }
    } else if gt == 2 {
        if n <= b {
            ramp_exec(u, n - b + FADE_LINES)
        } else {
            DISABLED
        }
    } else if gt == 3 {
        if n < a {
            DISABLED
        } else {
            ramp_exec(u, a + FADE_LINES - n)
        }
    } else {
        if n < a {
            ramp_exec(u, n - a + FADE_LINES)
        } else if n <= b {
            USEFUL_MAX
        } else {
            ramp_exec(u, b + FADE_LINES - n)
        }
    }
}

fn ramp_exec(u: i128, k: i128) -> (r: i128)
    requires
        0 <= u <= USEFUL_MAX,
        -0x2_0000_0000_0000_0000 <= k <= FADE_LINES,
    ensures
        r == ramp(u as int, k as int),
        0 <= r <= u,
{
    if k > 0 {
        assert(0 <= u * k <= u * FADE_LINES) by (nonlinear_arith)
            requires
                0 <= u,
                0 < k <= FADE_LINES,
        ;
        let p = u * k;
        assert(p / FADE_LINES <= u) by (nonlinear_arith)
            requires
                0 <= p <= u * FADE_LINES,
        ;
        p / FADE_LINES
    } else {
        0
    }
}

fn gradient_label_exec(gt: i32) -> (r: String)
    requires
        0 <= gt <= 4,
    ensures
        r@ == gradient_label(gt as int),
{
    if gt == 0 {
        owned("gradient_type: 0")
    } else if gt == 1 {
        owned("gradient_type: 1")
    } else if gt == 2 {
        owned("gradient_type: 2")
    } else if gt == 3 {
        owned("gradient_type: 3")
    } else {
        owned("gradient_type: 4")
    }
}

/// Apply a hint's gradient shape to every line of the file.
pub fn color_with_gradient_type(lines: &mut Vec<FileLine>, gt: i32, u: i128, l1: usize, l2: usize)
    requires
        bounded(models(old(lines)@)),
        0 <= u <= USEFUL_MAX,
    ensures
        models(final(lines)@) == gradient(
            models(old(lines)@),
            gt as int,
            u as int,
            l1 as int,
            l2 as int,
        ),
        same_text(old(lines)@, final(lines)@),
        bounded(models(final(lines)@)),
{
    if gt < 0 || gt > 4 {
        return ;
    }
    let ghost before = models(lines@);
    let ghost target = gradient(before, gt as int, u as int, l1 as int, l2 as int);
    let ghost orig = lines@;
    let label = gradient_label_exec(gt);
    let off = owned("disabled");
    proof {
        lemma_bounded_to_lines(lines@);
    }
    let mut i: usize = 0;
    while i < lines.len()
        invariant
            lines@.len() == before.len(),
            off@ == "disabled"@,
            0 <= gt <= 4,
            0 <= u <= USEFUL_MAX,
            label@ == gradient_label(gt as int),
            same_text(orig, lines@),
            before == models(orig),
            target == gradient(before, gt as int, u as int, l1 as int, l2 as int),
            bounded(before),
            forall|k: int|
                0 <= k < lines@.len() ==> -SCORE_LIMIT <= #[trigger] lines@[k].useful
                    <= SCORE_LIMIT,
            forall|k: int|
                0 <= k < lines@.len() ==> #[trigger] lines@[k].model() == if k < i {
                    target[k]
                } else {
                    before[k]
                },
        decreases lines@.len() - i,
    {
        let g = gradient_point(gt, u, l1, l2, i as i128 + 1);
        assert(lines@[i as int].model() == before[i as int]);
        if !line_disabled(&lines[i], &off) && (lines[i].useful < g || g < 0) {
            lines[i].useful = g;
            lines[i].color = label.clone();
            assert(lines@[i as int].model() == LineModel { useful: g as int, color: label@ });
        }
        assert(lines@[i as int].model() == target[i as int]);
        i += 1;
    }
    proof {
        assert(models(lines@) =~= target);
        lemma_bounded_from_lines(lines@);
    }
}

/// Parent lift over the whole file toward the parent path of a hinted symbol, with the
/// background `bg` and the peak `peak`.
pub fn colorize_parentof(lines: &mut Vec<FileLine>, parent_path: &String, bg: i128, peak: i128)
    requires
        bounded(models(old(lines)@)),
        0 <= bg <= USEFUL_MAX,
        0 <= peak <= USEFUL_MAX,
    ensures
        models(final(lines)@) == lift(models(old(lines)@), parent_path@, bg as int, peak as int),
        same_text(old(lines)@, final(lines)@),
        bounded(models(final(lines)@)),
{
    let ghost before = models(lines@);
    let ghost target = lift(before, parent_path@, bg as int, peak as int);
    let ghost orig = lines@;
    let off = owned("disabled");
    let plen = chars_of(parent_path.as_str()).len();
    proof {
        lemma_bounded_to_lines(lines@);
    }
    let mut i: usize = 0;
    while i < lines.len()
        invariant
            lines@.len() == before.len(),
            0 <= bg <= USEFUL_MAX,
            0 <= peak <= USEFUL_MAX,
            off@ == "disabled"@,
            plen == parent_path@.len(),
            same_text(orig, lines@),
            before == models(orig),
            target == lift(before, parent_path@, bg as int, peak as int),
            bounded(before),
            forall|k: int|
                0 <= k < lines@.len() ==> -SCORE_LIMIT <= #[trigger] lines@[k].useful
                    <= SCORE_LIMIT,
            forall|k: int|
                0 <= k < lines@.len() ==> #[trigger] lines@[k].model() == if k < i {
                    target[k]
                } else {
                    before[k]
                },
        decreases lines@.len() - i,
    {
        assert(lines@[i as int].model() == before[i as int]);
        let is_pre = starts_with(parent_path.as_str(), lines[i].color.as_str());
        if is_pre && !line_disabled(&lines[i], &off) {
            let clen = chars_of(lines[i].color.as_str()).len();
            if clen > 0 {
                assert((peak - bg) * (plen as int) <= PRODUCT_LIMIT && (peak - bg) * (plen as int)
                    >= -PRODUCT_LIMIT) by (nonlinear_arith)
                    requires
                        -USEFUL_MAX <= peak - bg <= USEFUL_MAX,
                        0 < plen <= 0x1_0000_0000_0000_0000,
                ;
                let d = scale_exec(peak - bg, clen as i128, plen as i128);
                let v = bg + d - LINE_BIAS * (i as i128);
                if lines[i].useful < v {
                    lines[i].useful = v;
                    assert(lines@[i as int].model() == LineModel {
                        useful: v as int,
                        color: before[i as int].color,
                    });
                }
            }
        }
        assert(lines@[i as int].model() == target[i as int]);
        i += 1;
    }
    proof {
        assert(models(lines@) =~= target);
        lemma_bounded_from_lines(lines@);
    }
}

/// Comment propagation over the whole file, from the bottom up.
pub fn colorize_comments_up(lines: &mut Vec<FileLine>, coef: i128)
    requires
        bounded(models(old(lines)@)),
        0 <= coef <= SCORE_ONE,
    ensures
        models(final(lines)@) == comments_up(models(old(lines)@), coef as int),
        same_text(old(lines)@, final(lines)@),
        bounded(models(final(lines)@)),
{
    let ghost before = models(lines@);
    let ghost orig = lines@;
    let comment = owned("comment");
    let n = lines.len();
    if n < 2 {
        proof {
            assert(models(lines@) == comments_up_from(before, 0, coef as int));
        }
        return ;
    }
    let mut i: usize = n - 1;
    proof {
        assert(models(lines@) == comments_up_from(before, i as int, coef as int));
    }
    while i > 0
        invariant
            n == lines@.len() == before.len(),
            i < n,
            0 <= coef <= SCORE_ONE,
            comment@ == "comment"@,
            same_text(orig, lines@),
            before == models(orig),
            bounded(models(lines@)),
            models(lines@) == comments_up_from(before, i as int, coef as int),
        decreases i,
    {
        i -= 1;
        let ghost cur = models(lines@);
        proof {
            lemma_bounded_to_lines(lines@);
            assert(cur[i as int + 1] == lines@[i as int + 1].model());
            assert(cur[i as int] == lines@[i as int].model());
        }
        let u = scale_exec(lines[i + 1].useful, coef, SCORE_ONE);
        if lines[i].color == comment && lines[i].useful < u {
            lines[i].useful = u;
        }
        proof {
            assert(models(lines@) =~= comment_step(cur, i as int, coef as int));
            lemma_bounded_from_lines(lines@);
        }
    }
}

/// Body downgrade of rows `line1..=last` toward the label `subsymbol`.
pub fn downgrade_lines_if_subsymbol(
    lines: &mut Vec<FileLine>,
    line1: usize,
    last: usize,
    subsymbol: &String,
    coef: i128,
)
    requires
        bounded(models(old(lines)@)),
        0 <= coef <= SCORE_ONE,
    ensures
        models(final(lines)@) == downgrade(
            models(old(lines)@),
            Seq::new(old(lines)@.len(), |k: int| old(lines)@[k].line_content@),
            line1 as int,
            last as int,
            subsymbol@,
            coef as int,
        ),
        same_text(old(lines)@, final(lines)@),
        bounded(models(final(lines)@)),
{
    let ghost before = models(lines@);
    let ghost text = Seq::new(lines@.len(), |k: int| lines@[k].line_content@);
    let ghost target = downgrade(before, text, line1 as int, last as int, subsymbol@, coef as int);
    let ghost orig = lines@;
    let off = owned("disabled");
    proof {
        lemma_bounded_to_lines(lines@);
    }
    let end = if last < lines.len() {
        last + 1
    } else {
        lines.len()
    };
    let mut i: usize = line1;
    while i < end
        invariant
            end <= lines@.len(),
            lines@.len() == before.len(),
            line1 <= i,
            end <= last + 1,
            0 <= coef <= SCORE_ONE,
            off@ == "disabled"@,
            same_text(orig, lines@),
            before == models(orig),
            text == Seq::new(orig.len(), |k: int| orig[k].line_content@),
            target == downgrade(before, text, line1 as int, last as int, subsymbol@, coef as int),
            bounded(before),
            forall|k: int|
                0 <= k < lines@.len() ==> -SCORE_LIMIT <= #[trigger] lines@[k].useful
                    <= SCORE_LIMIT,
            forall|k: int|
                0 <= k < lines@.len() ==> #[trigger] lines@[k].model() == if line1 <= k < i {
                    target[k]
                } else {
                    before[k]
                },
        decreases end - i,
    {
        assert(lines@[i as int].model() == before[i as int]);
        if starts_with(subsymbol.as_str(), lines[i].color.as_str()) && !line_disabled(
            &lines[i],
            &off,
        ) {
            let edge = i == last || i == line1;
            let keep = edge && is_lone_glyph(lines[i].line_content.as_str());
            if !keep {
                let v = scale_exec(lines[i].useful, coef, SCORE_ONE);
                lines[i].useful = v;
                lines[i].color = subsymbol.clone();
                assert(lines@[i as int].model() == LineModel { useful: v as int, color: subsymbol@ });
            }
        }
        assert(lines@[i as int].model() == target[i as int]);
        i += 1;
    }
    proof {
        assert(models(lines@) =~= target);
        lemma_bounded_from_lines(lines@);
    }
}

/// Gap closing over the whole file, from a copy of the scores taken beforehand.
pub fn close_small_gaps(lines: &mut Vec<FileLine>)
    requires
        bounded(models(old(lines)@)),
    ensures
        models(final(lines)@) == close_gaps(models(old(lines)@)),
        same_text(old(lines)@, final(lines)@),
        bounded(models(final(lines)@)),
{
    let ghost before = models(lines@);
    let ghost target = close_gaps(before);
    let ghost orig = lines@;
    proof {
        lemma_bounded_to_lines(lines@);
    }
    let mut copy: Vec<i128> = Vec::new();
    let mut j: usize = 0;
    while j < lines.len()
        invariant
            j <= lines@.len(),
            lines@ == orig,
            copy@.len() == j,
            forall|k: int| 0 <= k < j ==> copy@[k] == orig[k].useful,
        decreases lines@.len() - j,
    {
        copy.push(lines[j].useful);
        j += 1;
    }
    let n = lines.len();
    let off = owned("disabled");
    let mut i: usize = 1;
    while n > 0 && i < n - 1
        invariant
            off@ == "disabled"@,
            n == lines@.len() == before.len() == copy@.len(),
            1 <= i,
            n > 0 ==> i <= n,
            same_text(orig, lines@),
            before == models(orig),
            target == close_gaps(before),
            forall|k: int| 0 <= k < n ==> copy@[k] == orig[k].useful,
            bounded(before),
            forall|k: int|
                0 <= k < lines@.len() ==> -SCORE_LIMIT <= #[trigger] lines@[k].useful
                    <= SCORE_LIMIT,
            forall|k: int|
                0 <= k < lines@.len() ==> #[trigger] lines@[k].model() == if 1 <= k < i {
                    target[k]
                } else {
                    before[k]
                },
        decreases n - i,
    {
        assert(lines@[i as int].model() == before[i as int]);
        assert(before[i as int - 1] == orig[i as int - 1].model());
        assert(before[i as int + 1] == orig[i as int + 1].model());
        let l = copy[i - 1];
        let r = copy[i + 1];
        let m = if l < r {
            l
        } else {
            r
        };
        if !line_disabled(&lines[i], &off) && lines[i].useful < m {
            lines[i].useful = m;
            assert(lines@[i as int].model() == LineModel {
                useful: m as int,
                color: before[i as int].color,
            });
        }
        assert(lines@[i as int].model() == target[i as int]);
        i += 1;
    }
    proof {
        assert(models(lines@) =~= target);
        lemma_bounded_from_lines(lines@);
    }
}

} // verus!
