use rag_postprocess::colorize::close_small_gaps;
use rag_postprocess::loader::make_file;
use rag_postprocess::model::{
    ContextFile, File, FileLine, PostprocessSettings, Span, SymbolInformation, SymbolType,
};
use rag_postprocess::pipeline::split_lines;
use rag_postprocess::postprocess::{postprocess, postprocess_rag_stage_3_6, PostprocessError};
use rag_postprocess::tokens::symmetry_breaker;

const ONE: i128 = 1_000_000;

fn hint(file: &str, line1: usize, line2: usize, usefulness: i128, gradient_type: i32, body: bool) -> ContextFile {
    ContextFile {
        file_name: file.to_string(),
        file_content: String::new(),
        line1,
        line2,
        symbol: 0,
        gradient_type,
        usefulness,
        is_body_important: body,
    }
}

fn span(start_row: usize, end_row: usize, end_byte: usize) -> Span {
    Span { start_byte: 0, end_byte, start_row, end_row }
}

fn symbol(guid: u128, path: &str, kind: SymbolType, full: (usize, usize), decl_end: usize, def: Option<(usize, usize)>) -> SymbolInformation {
    SymbolInformation {
        guid,
        symbol_path: path.to_string(),
        symbol_type: kind,
        full_range: span(full.0, full.1, 1),
        declaration_range: span(full.0, decl_end, 1),
        definition_range: match def {
            Some((a, b)) => span(a, b, 100),
            None => span(0, 0, 0),
        },
    }
}

/// One token per line, and `name` tokens for each file name.
fn unit_tokens(files: &Vec<File>, name: usize) -> (Vec<Vec<usize>>, Vec<usize>) {
    let mut lt = Vec::new();
    let mut nt = Vec::new();
    for f in files {
        let n = split_lines(&f.markup.file_content).len();
        lt.push(vec![1; n]);
        nt.push(name);
    }
    (lt, nt)
}

fn run(files: &Vec<File>, hints: &Vec<ContextFile>, limit: usize, single: bool, st: &PostprocessSettings) -> Vec<ContextFile> {
    let (lt, nt) = unit_tokens(files, 2);
    postprocess(files, hints, &lt, &nt, limit, single, st).expect("valid input")
}

#[test]
fn empty_input_gives_no_excerpts() {
    let st = PostprocessSettings::new();
    let out = postprocess(&vec![], &vec![], &vec![], &vec![], 1000, false, &st).unwrap();
    assert!(out.is_empty());
}

#[test]
fn one_file_one_hint_ample_budget() {
    let st = PostprocessSettings::new();
    let files = vec![make_file("a.txt".to_string(), "l1\nl2\nl3\nl4\nl5".to_string(), vec![])];
    let hints = vec![hint("a.txt", 2, 3, 50 * ONE, 0, true)];
    let out = run(&files, &hints, 1_000_000, false, &st);
    assert_eq!(out.len(), 1);
    assert_eq!(out[0].file_name, "a.txt");
    assert_eq!(out[0].file_content, "l1\nl2\nl3\nl4\nl5\n");
    assert_eq!(out[0].line1, 0);
    assert_eq!(out[0].line2, 4);
    assert_eq!(out[0].symbol, 0);
    assert_eq!(out[0].gradient_type, -1);
    assert_eq!(out[0].usefulness, 0);
    assert!(!out[0].is_body_important);
}

fn foo_file() -> File {
    let mut text = String::from("fn foo() {");
    for i in 1..9 {
        text.push_str(&format!("\n    x{};", i));
    }
    text.push_str("\n}");
    let foo = symbol(7, "foo", SymbolType::FunctionDeclaration, (0, 9), 0, Some((1, 9)));
    make_file("foo.rs".to_string(), text, vec![foo])
}

#[test]
fn symbol_declaration_preferred_over_body() {
    let st = PostprocessSettings::new();
    let files = vec![foo_file()];
    let mut h = hint("foo.rs", 1, 10, 30 * ONE, -1, false);
    h.symbol = 7;
    let out = run(&files, &vec![h], 3, true, &st);
    assert_eq!(out.len(), 1);
    assert_eq!(out[0].file_content, "fn foo() {\n    x1;\n...\n}\n");
    assert_eq!(out[0].line1, 0);
    assert_eq!(out[0].line2, 9);
}

#[test]
fn body_lines_scored_below_declaration() {
    let st = PostprocessSettings::new();
    let files = vec![foo_file()];
    let mut h = hint("foo.rs", 1, 10, 30 * ONE, -1, false);
    h.symbol = 7;
    let lines = postprocess_rag_stage_3_6(&files, &vec![h], &st);
    let v = &lines[0];
    assert_eq!(v[0].useful, 30 * ONE);
    assert_eq!(v[0].color, "foo");
    assert_eq!(v[1].useful, 24 * ONE - 800);
    assert_eq!(v[1].color, "foo::body");
    assert_eq!(v[9].useful, 30 * ONE - 9000);
    assert_eq!(v[9].color, "foo");
    // gap closing lifts row 8 to the lower of its neighbours
    assert_eq!(v[8].useful, 24 * ONE - 5600);
}

#[test]
fn disabled_range_contributes_nothing() {
    let st = PostprocessSettings::new();
    let files = vec![make_file("a.txt".to_string(), "l1\nl2\nl3\nl4\nl5".to_string(), vec![])];
    let hints = vec![hint("a.txt", 2, 3, 80 * ONE, -1, true), hint("a.txt", 2, 3, -ONE, -1, true)];
    let out = run(&files, &hints, 1_000_000, false, &st);
    assert_eq!(out.len(), 1);
    assert_eq!(out[0].file_content, "l1\n...\nl4\nl5\n");
    assert!(!out[0].file_content.contains("l2"));
    assert!(!out[0].file_content.contains("l3"));
}

#[test]
fn parent_lift_scales_by_path_length() {
    let mut st = PostprocessSettings::new();
    st.close_small_gaps = false;
    let mut text = String::from("0");
    for i in 1..21 {
        text.push_str(&format!("\n{}", i));
    }
    let a = symbol(1, "A", SymbolType::StructDeclaration, (0, 20), 0, None);
    let b = symbol(2, "A::b", SymbolType::FunctionDeclaration, (5, 10), 5, None);
    let files = vec![make_file("a.rs".to_string(), text, vec![b, a])];
    assert_eq!(files[0].markup.symbols_sorted_by_path_len[0].symbol_path, "A");
    let mut h = hint("a.rs", 6, 11, 40 * ONE, -1, false);
    h.symbol = 2;
    let lines = postprocess_rag_stage_3_6(&files, &vec![h], &st);
    let v = &lines[0];
    for i in 5..=10 {
        assert_eq!(v[i].useful, 40 * ONE - 1000 * i as i128);
        assert_eq!(v[i].color, "A::b");
    }
    // peak 40 * 0.6 = 24; label "A" is the whole parent path, so the lift reaches the peak:
    // 5 + (24 - 5) * len("A") / len("A") = 24
    for i in (0..5).chain(11..21) {
        assert_eq!(v[i].useful, 24 * ONE - 1000 * i as i128);
        assert_eq!(v[i].color, "A");
        assert!(v[i].useful < 40 * ONE - 1000 * 5);
    }
}

#[test]
fn parent_lift_uses_parent_coefficient() {
    let mut st = PostprocessSettings::new();
    st.close_small_gaps = false;
    st.degrade_parent_coef = ONE / 2;
    let a = symbol(1, "A", SymbolType::StructDeclaration, (0, 2), 0, None);
    let b = symbol(2, "A::b", SymbolType::FunctionDeclaration, (1, 1), 1, None);
    let files = vec![make_file("a.rs".to_string(), "x\ny\nz".to_string(), vec![a, b])];
    let mut h = hint("a.rs", 2, 2, 40 * ONE, -1, false);
    h.symbol = 2;
    let v = postprocess_rag_stage_3_6(&files, &vec![h], &st).remove(0);
    assert_eq!(v[0].useful, 20 * ONE);
    assert_eq!(v[2].useful, 20 * ONE - 2000);
}

fn three_lines(gaps: bool) -> Vec<FileLine> {
    let mut st = PostprocessSettings::new();
    st.close_small_gaps = gaps;
    let files = vec![make_file("g.txt".to_string(), "a\nb\nc".to_string(), vec![])];
    let hints = vec![hint("g.txt", 1, 1, 20 * ONE, -1, true), hint("g.txt", 3, 3, 20 * ONE, -1, true)];
    postprocess_rag_stage_3_6(&files, &hints, &st).remove(0)
}

#[test]
fn gap_closing_bridges_one_line_dip() {
    let v = three_lines(true);
    assert_eq!(v[0].useful, 20 * ONE);
    assert_eq!(v[1].useful, 20 * ONE - 2000);
    assert_eq!(v[2].useful, 20 * ONE - 2000);
}

#[test]
fn gap_closing_off_keeps_dip() {
    let v = three_lines(false);
    assert_eq!(v[1].useful, 5 * ONE - 1000);
    assert_eq!(v[1].color, "empty");
}

#[test]
fn close_small_gaps_reads_scores_before_update() {
    let mut v: Vec<FileLine> = [20, 0, 20, 0].iter().enumerate().map(|(i, u)| FileLine {
        line_n: i,
        line_content: String::new(),
        useful: u * ONE,
        color: "x".to_string(),
        take: false,
    }).collect();
    close_small_gaps(&mut v);
    let got: Vec<i128> = v.iter().map(|l| l.useful).collect();
    assert_eq!(got, vec![20 * ONE, 20 * ONE, 20 * ONE, 0]);
}

#[test]
fn budget_is_respected_across_files() {
    let st = PostprocessSettings::new();
    let files = vec![
        make_file("a.txt".to_string(), "a1\na2\na3".to_string(), vec![]),
        make_file("b.txt".to_string(), "b1\nb2\nb3".to_string(), vec![]),
    ];
    let hints = vec![hint("a.txt", 1, 3, 50 * ONE, -1, true), hint("b.txt", 1, 3, 40 * ONE, -1, true)];
    // name tokens 2 + overhead 5 per file, one token per line
    let limit = 7 + 3 + 7 + 1;
    let out = run(&files, &hints, limit, false, &st);
    assert_eq!(out.len(), 2);
    assert_eq!(out[0].file_name, "a.txt");
    assert_eq!(out[0].file_content, "a1\na2\na3\n");
    assert_eq!(out[1].file_name, "b.txt");
    assert_eq!(out[1].file_content, "b1\n...\n");
    let kept: usize = out.iter().map(|e| e.file_content.lines().filter(|l| *l != "...").count() + 7).sum();
    assert!(kept <= limit);
}

#[test]
fn single_file_mode_charges_no_overhead() {
    let st = PostprocessSettings::new();
    let files = vec![make_file("a.txt".to_string(), "a1\na2\na3".to_string(), vec![])];
    let hints = vec![hint("a.txt", 1, 3, 50 * ONE, -1, true)];
    assert_eq!(run(&files, &hints, 3, true, &st)[0].file_content, "a1\na2\na3\n");
    // with overhead 2 + 5 the same budget takes nothing
    assert!(run(&files, &hints, 3, false, &st).is_empty());
}

#[test]
fn budget_stops_at_first_line_that_does_not_fit() {
    let st = PostprocessSettings::new();
    let files = vec![make_file("a.txt".to_string(), "long\nshort".to_string(), vec![])];
    let hints = vec![hint("a.txt", 1, 1, 60 * ONE, -1, true), hint("a.txt", 2, 2, 50 * ONE, -1, true)];
    let lt = vec![vec![10, 1]];
    let nt = vec![0];
    let out = postprocess(&files, &hints, &lt, &nt, 5, true, &st).unwrap();
    assert!(out.is_empty());
}

#[test]
fn equal_inputs_give_equal_outputs() {
    let st = PostprocessSettings::new();
    let files = vec![foo_file(), make_file("a.txt".to_string(), "x\ny".to_string(), vec![])];
    let mut h = hint("foo.rs", 1, 10, 30 * ONE, 1, false);
    h.symbol = 7;
    let hints = vec![h, hint("a.txt", 1, 2, 20 * ONE, 4, true)];
    let a = run(&files, &hints, 9, false, &st);
    let b = run(&files, &hints, 9, false, &st);
    assert_eq!(a.len(), b.len());
    for (x, y) in a.iter().zip(b.iter()) {
        assert_eq!(x.file_name, y.file_name);
        assert_eq!(x.file_content, y.file_content);
        assert_eq!((x.line1, x.line2), (y.line1, y.line2));
    }
}

#[test]
fn excerpt_alternates_blocks_and_elisions() {
    let mut st = PostprocessSettings::new();
    st.close_small_gaps = false;
    st.take_floor = 6 * ONE;
    let files = vec![make_file("a.txt".to_string(), "0\n1\n2\n3\n4\n5\n6\n7".to_string(), vec![])];
    let hints = vec![hint("a.txt", 3, 3, 30 * ONE, -1, true), hint("a.txt", 5, 6, 30 * ONE, -1, true)];
    let out = run(&files, &hints, 100, false, &st);
    assert_eq!(out.len(), 1);
    assert_eq!(out[0].file_content, "2\n...\n4\n5\n...\n");
    assert_eq!(out[0].line1, 2);
    assert_eq!(out[0].line2, 7);
    assert!(!out[0].file_content.starts_with("..."));
    assert!(!out[0].file_content.contains("...\n...\n"));
}

#[test]
fn disable_survives_later_hint() {
    let st = PostprocessSettings::new();
    let files = vec![make_file("a.txt".to_string(), "l1\nl2\nl3\nl4\nl5".to_string(), vec![])];
    let hints = vec![hint("a.txt", 2, 3, -ONE, -1, true), hint("a.txt", 2, 3, 80 * ONE, 0, true)];
    let out = run(&files, &hints, 1_000_000, false, &st);
    assert_eq!(out.len(), 1);
    assert_eq!(out[0].file_content, "l1\n...\nl4\nl5\n");
}

#[test]
fn disable_survives_on_one_line_file() {
    let st = PostprocessSettings::new();
    let files = vec![make_file("a.txt".to_string(), "only".to_string(), vec![])];
    let hints = vec![hint("a.txt", 1, 1, -ONE, -1, true), hint("a.txt", 1, 1, 80 * ONE, -1, true)];
    let (lt, nt) = (vec![vec![0]], vec![0]);
    let out = postprocess(&files, &hints, &lt, &nt, 1000, false, &st).unwrap();
    assert!(out.is_empty());
}

#[test]
fn disabled_middle_row_not_bridged() {
    let st = PostprocessSettings::new();
    let files = vec![make_file("a.txt".to_string(), "a\nb\nc".to_string(), vec![])];
    let hints = vec![hint("a.txt", 1, 3, 20 * ONE, -1, true), hint("a.txt", 2, 2, -ONE, -1, true)];
    let lines = postprocess_rag_stage_3_6(&files, &hints, &st);
    assert_eq!(lines[0][1].useful, -ONE);
    assert_eq!(lines[0][1].color, "disabled");
    let out = run(&files, &hints, 1000, false, &st);
    assert_eq!(out[0].file_content, "a\n...\nc\n");
}

#[test]
fn duplicate_paths_are_invalid_input() {
    let st = PostprocessSettings::new();
    let files = vec![
        make_file("a.txt".to_string(), "x".to_string(), vec![]),
        make_file("a.txt".to_string(), "x".to_string(), vec![]),
    ];
    let (lt, nt) = unit_tokens(&files, 1);
    let hints = vec![hint("a.txt", 1, 1, ONE, -1, true)];
    assert_eq!(postprocess(&files, &hints, &lt, &nt, 10, false, &st).unwrap_err(), PostprocessError::InvalidInput);
}

#[test]
fn file_without_hint_is_invalid_input() {
    let st = PostprocessSettings::new();
    let files = vec![make_file("a.txt".to_string(), "x".to_string(), vec![])];
    let (lt, nt) = unit_tokens(&files, 1);
    assert_eq!(postprocess(&files, &vec![], &lt, &nt, 10, false, &st).unwrap_err(), PostprocessError::InvalidInput);
}

#[test]
fn floor_below_disabled_score_is_invalid_input() {
    let mut st = PostprocessSettings::new();
    st.take_floor = -2 * ONE;
    let files = vec![make_file("a.txt".to_string(), "x".to_string(), vec![])];
    let (lt, nt) = unit_tokens(&files, 1);
    let hints = vec![hint("a.txt", 1, 1, ONE, -1, true)];
    assert!(postprocess(&files, &hints, &lt, &nt, 10, false, &st).is_err());
}

#[test]
fn stage_lines_are_numbered_and_untaken() {
    let st = PostprocessSettings::new();
    let files = vec![make_file("a.txt".to_string(), "x\ny\nz".to_string(), vec![])];
    let v = postprocess_rag_stage_3_6(&files, &vec![hint("a.txt", 1, 1, ONE, -1, true)], &st).remove(0);
    for (i, l) in v.iter().enumerate() {
        assert_eq!(l.line_n, i);
        assert!(!l.take);
    }
}

#[test]
fn comment_above_symbol_follows_it() {
    let st = PostprocessSettings::new();
    let c = symbol(3, "doc", SymbolType::CommentDefinition, (0, 0), 0, None);
    let f = symbol(4, "f", SymbolType::FunctionDeclaration, (1, 1), 1, None);
    let files = vec![make_file("c.rs".to_string(), "/// doc\nfn f() {}\nlet x = 1;".to_string(), vec![c, f])];
    let mut h = hint("c.rs", 2, 2, 50 * ONE, -1, false);
    h.symbol = 4;
    let lines = postprocess_rag_stage_3_6(&files, &vec![h], &st);
    let v = &lines[0];
    assert_eq!(v[0].color, "comment");
    assert_eq!(v[1].useful, 50 * ONE - 1000);
    assert_eq!(v[0].useful, (50 * ONE - 1000) * 99 / 100);
    let out = run(&files, &vec![{ let mut h = hint("c.rs", 2, 2, 50 * ONE, -1, false); h.symbol = 4; h }], 2, true, &st);
    assert_eq!(out[0].file_content, "/// doc\nfn f() {}\n...\n");
}

#[test]
fn malformed_hint_is_invalid_input() {
    let st = PostprocessSettings::new();
    let files = vec![make_file("a.txt".to_string(), "x".to_string(), vec![])];
    let (lt, nt) = unit_tokens(&files, 1);
    let bad = vec![hint("a.txt", 3, 2, ONE, -1, true)];
    assert_eq!(postprocess(&files, &bad, &lt, &nt, 10, false, &st).unwrap_err(), PostprocessError::InvalidInput);
    let too_high = vec![hint("a.txt", 1, 1, 101 * ONE, -1, true)];
    assert!(postprocess(&files, &too_high, &lt, &nt, 10, false, &st).is_err());
    // a disabling hint may have its range reversed
    let disabling = vec![hint("a.txt", 3, 2, -ONE, -1, true)];
    assert!(postprocess(&files, &disabling, &lt, &nt, 10, false, &st).is_ok());
}

#[test]
fn mismatched_token_table_is_invalid_input() {
    let st = PostprocessSettings::new();
    let files = vec![make_file("a.txt".to_string(), "x\ny".to_string(), vec![])];
    let r = postprocess(&files, &vec![], &vec![vec![1]], &vec![1], 10, false, &st);
    assert_eq!(r.unwrap_err(), PostprocessError::InvalidInput);
}

#[test]
fn hint_for_unknown_file_is_ignored() {
    let st = PostprocessSettings::new();
    let files = vec![make_file("a.txt".to_string(), "x\ny".to_string(), vec![])];
    let hints = vec![hint("zzz.txt", 1, 2, 50 * ONE, 0, true), hint("a.txt", 1, 1, ONE, -1, true)];
    let out = run(&files, &hints, 100, false, &st);
    assert_eq!(out.len(), 1);
    assert_eq!(out[0].file_content, "x\ny\n");
}

#[test]
fn gradient_shape_four_plateaus_at_hundred() {
    let st = PostprocessSettings::new();
    let files = vec![make_file("a.txt".to_string(), "a\nb\nc\nd".to_string(), vec![])];
    let lines = postprocess_rag_stage_3_6(&files, &vec![hint("a.txt", 2, 3, 10 * ONE, 4, false)], &st);
    let v = &lines[0];
    assert_eq!(v[1].useful, 100 * ONE);
    assert_eq!(v[1].color, "gradient_type: 4");
    assert_eq!(v[2].useful, 100 * ONE);
    // ramp in: 10 * (1 - 2 + 50) / 50
    assert_eq!(v[0].useful, 9_800_000);
    // fade out after line 3: 10 * (3 + 50 - 4) / 50
    assert_eq!(v[3].useful, 9_800_000);
}

#[test]
fn symbols_sorted_and_breaker_in_range() {
    let a = symbol(1, "A::long::path", SymbolType::Unknown, (0, 0), 0, None);
    let b = symbol(2, "B", SymbolType::Unknown, (0, 0), 0, None);
    let c = symbol(3, "C::d", SymbolType::Unknown, (0, 0), 0, None);
    let f = make_file("/p/x.rs".to_string(), "x".to_string(), vec![a, b, c]);
    let order: Vec<&str> = f.markup.symbols_sorted_by_path_len.iter().map(|s| s.symbol_path.as_str()).collect();
    assert_eq!(order, vec!["B", "C::d", "A::long::path"]);
    assert!(f.cpath_symmetry_breaker >= 0 && f.cpath_symmetry_breaker < 10_000);
    assert_eq!(f.cpath_symmetry_breaker, symmetry_breaker("/p/x.rs"));
    assert_eq!(f.markup.file_path, "/p/x.rs");
}

#[test]
fn split_lines_keeps_empty_pieces() {
    assert_eq!(split_lines(""), vec![String::new()]);
    assert_eq!(split_lines("a\n\nb\n"), vec!["a".to_string(), String::new(), "b".to_string(), String::new()]);
}
