use vstd::prelude::*;

verus! {

/// Tokens held back from the context budget for the question and its follow-up.
pub const RESERVE_FOR_QUESTION_AND_FOLLOWUP: usize = 1024;

/// The context budget left by a window of `n_ctx` tokens once `maxgen` tokens are set
/// aside for generation and the reserve is taken off, floored at zero.
pub open spec fn rag_budget(n_ctx: int, maxgen: int) -> int {
    let b = n_ctx - maxgen - RESERVE_FOR_QUESTION_AND_FOLLOWUP;
    if b > 0 { b } else { 0 }
}

/// Token budget for retrieved context in a chat with window `n_ctx` and generation
/// length `maxgen`.
pub fn max_tokens_for_rag_chat(n_ctx: usize, maxgen: usize) -> (r: usize)
    ensures
        r as int == rag_budget(n_ctx as int, maxgen as int),
{
    if n_ctx > maxgen && n_ctx - maxgen > RESERVE_FOR_QUESTION_AND_FOLLOWUP {
        n_ctx - maxgen - RESERVE_FOR_QUESTION_AND_FOLLOWUP
    } else {
        0
    }
}

} // verus!
