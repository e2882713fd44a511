use vstd::prelude::*;
use std::hash::{Hash, Hasher};
use crate::model::{ContextFile, File};
use crate::postprocess::{excerpts, file_ok, files_match_hints, is_excerpt, postprocess, tokens_fit, PostprocessError};
use crate::pipeline::{hint_ok, split_lines, split_nl};
use crate::select::tables;
use crate::model::PostprocessSettings;

verus! {

#[verifier::external_type_specification]
#[verifier::external_body]
pub struct ExTokenizer(tokenizers::Tokenizer);

/// Relies on tokenizers::Tokenizer::encode (without special tokens) and Encoding::len:
/// the number of tokens of `text`, or `None` when encoding fails.
#[verifier::external_body]
fn encode_len(tokenizer: &tokenizers::Tokenizer, text: &str) -> Option<usize> {
    match tokenizer.encode(text, false) {
        Ok(encoding) => Some(encoding.len()),
        Err(_) => None,
    }
}

/// Number of tokens the tokenizer gives `text`; a text it fails to encode counts as zero.
pub fn count_tokens(tokenizer: &tokenizers::Tokenizer, text: &str) -> usize {
    match encode_len(tokenizer, text) {
        Some(n) => n,
        None => 0,
    }
}

/// What `calculate_hash` gives a path.
pub uninterp spec fn path_hash_of(p: Seq<char>) -> u64;

/// Hash of a path with the standard library's default hasher: `DefaultHasher::new`, the
/// path's `Hash` impl, then `finish`. Relies on `DefaultHasher::new` always starting from
/// the same state, so the hash depends on the path alone.
#[verifier::external_body]
fn calculate_hash(path: &str) -> (r: u64)
    ensures
        r == path_hash_of(path@),
{
    let mut hasher = std::collections::hash_map::DefaultHasher::new();
    std::path::Path::new(path).hash(&mut hasher);
    hasher.finish()
}

/// Divisor that maps a 64-bit hash onto `[0, 10_000)` millionths.
pub const BREAKER_DIVISOR: u64 = 1_844_674_407_370_956;

/// The symmetry breaker of a file with canonical path `p`.
pub open spec fn breaker_of(p: Seq<char>) -> int {
    path_hash_of(p) as int / BREAKER_DIVISOR as int
}

/// The symmetry breaker of a file with canonical path `cpath`, in `[0, 10_000)` millionths.
pub fn symmetry_breaker(cpath: &str) -> (r: i128)
    ensures
        r == breaker_of(cpath@),
        0 <= r < 10_000,
{
    let h = calculate_hash(cpath);
    assert(h as int / BREAKER_DIVISOR as int <= 9999) by (nonlinear_arith)
        requires
            h <= 0xffff_ffff_ffff_ffff,
    ;
    (h / BREAKER_DIVISOR) as i128
}

/// Count the tokens of every line of every file, and of every file's canonical path.
fn count_all(files: &Vec<File>, tokenizer: &tokenizers::Tokenizer) -> (r: (Vec<Vec<usize>>, Vec<usize>))
    ensures
        tokens_fit(files@, tables(r.0@), r.1@),
{
    let mut lt: Vec<Vec<usize>> = Vec::new();
    let mut nt: Vec<usize> = Vec::new();
    let mut j: usize = 0;
    while j < files.len()
        invariant
            j <= files@.len(),
            lt@.len() == j,
            nt@.len() == j,
            forall|m: int|
                0 <= m < j ==> (#[trigger] lt@[m])@.len() == split_nl(
                    files@[m].markup.file_content@,
                ).len(),
        decreases files@.len() - j,
    {
        let rows = split_lines(files[j].markup.file_content.as_str());
        let mut counts: Vec<usize> = Vec::new();
        let mut i: usize = 0;
        while i < rows.len()
            invariant
                i <= rows@.len(),
                counts@.len() == i,
            decreases rows@.len() - i,
        {
            counts.push(count_tokens(tokenizer, rows[i].as_str()));
            i += 1;
        }
        lt.push(counts);
        nt.push(count_tokens(tokenizer, files[j].cpath.as_str()));
        j += 1;
    }
    proof {
        assert forall|m: int| 0 <= m < files@.len() implies (#[trigger] tables(lt@)[m]).len()
            == split_nl(files@[m].markup.file_content@).len() by {
            assert(tables(lt@)[m] == lt@[m]@);
        }
    }
    (lt, nt)
}

/// The postprocessor with token counts from `tokenizer` and the default settings. The
/// counts are whatever the tokenizer gives; the excerpts are those of `postprocess` on them.
pub fn postprocess_at_results2(
    files: &Vec<File>,
    hints: &Vec<ContextFile>,
    tokenizer: &tokenizers::Tokenizer,
    tokens_limit: usize,
    single_file_mode: bool,
) -> (r: Result<Vec<ContextFile>, PostprocessError>)
    ensures
        r is Err <==> !((forall|j: int| 0 <= j < files@.len() ==> file_ok(#[trigger] files@[j]))
            && (forall|k: int| 0 <= k < hints@.len() ==> hint_ok(#[trigger] hints@[k]))
            && files_match_hints(files@, hints@)),
        r is Ok ==> exists|lt: Seq<Seq<usize>>, nt: Seq<usize>|
            tokens_fit(files@, lt, nt) && {
                let ex = excerpts(
                    files@,
                    hints@,
                    lt,
                    nt,
                    tokens_limit as int,
                    single_file_mode,
                    PostprocessSettings::new_spec(),
                );
                &&& r->Ok_0@.len() == ex.len()
                &&& forall|k: int| 0 <= k < ex.len() ==> is_excerpt(#[trigger] r->Ok_0@[k], ex[k])
            },
{
    let settings = PostprocessSettings::new();
    let (lt, nt) = count_all(files, tokenizer);
    assert(settings == PostprocessSettings::new_spec());
    let r = postprocess(files, hints, &lt, &nt, tokens_limit, single_file_mode, &settings);
    r
}

} // verus!
