use vstd::prelude::*;

verus! {

/// Scores are fixed-point numbers counted in millionths: `SCORE_ONE` is a score of 1.
pub const SCORE_ONE: i128 = 1_000_000;

/// The per-line bias (a thousandth of a point) that ranks earlier lines above later ones.
pub const LINE_BIAS: i128 = 1000;

/// The score that marks a line as disabled.
pub const DISABLED: i128 = -1_000_000;

/// The largest hint usefulness accepted, and the plateau of gradient shape 4.
pub const USEFUL_MAX: i128 = 100_000_000;

/// Lines over which a gradient fades from its peak to zero.
pub const FADE_LINES: i128 = 50;

/// Extra tokens charged for each file in multi-file mode (separator, new line).
pub const FILE_OVERHEAD: usize = 5;

/// Kind of a symbol as reported by the syntax service.
#[derive(PartialEq, Eq, Structural, Clone, Copy, Debug)]
pub enum SymbolType {
    StructDeclaration,
    TypeAlias,
    ClassFieldDeclaration,
    ImportDeclaration,
    VariableDefinition,
    FunctionDeclaration,
    CommentDefinition,
    FunctionCall,
    VariableUsage,
    Unknown,
}

/// A region of a file: byte offsets and 0-based rows, both ends inclusive for rows.
#[derive(PartialEq, Eq, Structural, Clone, Copy, Debug)]
pub struct Span {
    pub start_byte: usize,
    pub end_byte: usize,
    pub start_row: usize,
    pub end_row: usize,
}

/// One symbol of a parsed file.
#[derive(Clone, Debug)]
pub struct SymbolInformation {
    pub guid: u128,
    pub symbol_path: String,
    pub symbol_type: SymbolType,
    pub full_range: Span,
    pub declaration_range: Span,
    pub definition_range: Span,
}

/// What the syntax service knows of a file: its text and its symbols.
#[derive(Clone, Debug)]
pub struct FileASTMarkup {
    pub file_path: String,
    pub file_content: String,
    pub symbols_sorted_by_path_len: Vec<SymbolInformation>,
}

/// A file taking part in one postprocessing run.
#[derive(Clone, Debug)]
pub struct File {
    pub markup: FileASTMarkup,
    pub cpath: String,
    /// Per-file offset in `[0, 10_000)` millionths added to sort keys to break ties.
    pub cpath_symmetry_breaker: i128,
}

/// One line of a file, with its score, its owner label and whether it was selected.
#[derive(Clone, Debug)]
pub struct FileLine {
    pub line_n: usize,
    pub line_content: String,
    pub useful: i128,
    pub color: String,
    pub take: bool,
}

/// A candidate fragment on input, and a condensed excerpt on output.
#[derive(Clone, Debug)]
pub struct ContextFile {
    pub file_name: String,
    pub file_content: String,
    pub line1: usize,
    pub line2: usize,
    /// Symbol id; zero is the nil id.
    pub symbol: u128,
    pub gradient_type: i32,
    /// Usefulness in millionths, in `[-1, 100]` points for a hint.
    pub usefulness: i128,
    pub is_body_important: bool,
}

/// Tuning knobs of the postprocessor. Scores are in millionths, coefficients in millionths of 1.
#[derive(Clone, Copy, Debug)]
pub struct PostprocessSettings {
    pub useful_background: i128,
    pub useful_symbol_default: i128,
    /// Multiplies a hint's usefulness to give the peak its symbol's parent is lifted toward.
    pub degrade_parent_coef: i128,
    pub degrade_body_coef: i128,
    pub comments_propogate_up_coef: i128,
    pub close_small_gaps: bool,
    pub take_floor: i128,
}

/// Spec-level view of a line's mutable state.
pub struct LineModel {
    pub useful: int,
    pub color: Seq<char>,
}

impl FileLine {
    pub open spec fn model(&self) -> LineModel {
        LineModel { useful: self.useful as int, color: self.color@ }
    }
}

impl PostprocessSettings {
    /// Scores within `[0, 100]` points, coefficients within `[0, 1]`, and a take floor no
    /// lower than the disabled score.
    pub open spec fn wf(&self) -> bool {
        &&& 0 <= self.useful_background <= USEFUL_MAX
        &&& 0 <= self.useful_symbol_default <= USEFUL_MAX
        &&& 0 <= self.degrade_parent_coef <= SCORE_ONE
        &&& 0 <= self.degrade_body_coef <= SCORE_ONE
        &&& 0 <= self.comments_propogate_up_coef <= SCORE_ONE
        &&& DISABLED <= self.take_floor
    }

    /// The default settings, as a value.
    pub open spec fn new_spec() -> Self {
        PostprocessSettings {
            useful_background: 5_000_000,
            useful_symbol_default: 10_000_000,
            degrade_parent_coef: 600_000,
            degrade_body_coef: 800_000,
            comments_propogate_up_coef: 990_000,
            close_small_gaps: true,
            take_floor: 0,
        }
    }

    /// The default settings.
    pub fn new() -> (r: Self)
        ensures
            r.wf(),
            r.useful_background == 5 * SCORE_ONE,
            r.useful_symbol_default == 10 * SCORE_ONE,
            r.degrade_parent_coef == 600_000,
            r.degrade_body_coef == 800_000,
            r.comments_propogate_up_coef == 990_000,
            r.close_small_gaps,
            r.take_floor == 0,
    {
        PostprocessSettings {
            degrade_body_coef: 800_000,
            degrade_parent_coef: 600_000,
            useful_background: 5 * SCORE_ONE,
            useful_symbol_default: 10 * SCORE_ONE,
            close_small_gaps: true,
            comments_propogate_up_coef: 990_000,
            take_floor: 0,
        }
    }
}

} // verus!
