use vstd::prelude::*;
use crate::budget::rag_budget;
use crate::text::{char_is_ws, chars_of, is_ws, owned};

verus! {

/// The function a tool call names, with its arguments as JSON text.
#[derive(Clone, Debug)]
pub struct ChatToolFunction {
    pub name: String,
    pub arguments: String,
}

/// A tool call made by the assistant.
#[derive(Clone, Debug)]
pub struct ChatToolCall {
    pub id: String,
    pub function: ChatToolFunction,
}

/// One message of a chat.
#[derive(Clone, Debug)]
pub struct ChatMessage {
    pub role: String,
    pub content: String,
    pub tool_calls: Option<Vec<ChatToolCall>>,
    pub tool_call_id: String,
}

/// The message was written by the user.
pub open spec fn is_user(m: ChatMessage) -> bool {
    m.role@ == "user"@
}

/// The message mentions an `@` command.
pub open spec fn has_at(m: ChatMessage) -> bool {
    m.content@.contains('@')
}

/// Start of the run of user messages that ends the first `k` messages.
pub open spec fn tail_start(ms: Seq<ChatMessage>, k: int) -> int
    decreases k,
{
    if k <= 0 {
        0
    } else if is_user(ms[k - 1]) {
        tail_start(ms, k - 1)
    } else {
        k
    }
}

/// How many of messages `lo..hi` mention an `@` command.
pub open spec fn count_at(ms: Seq<ChatMessage>, lo: int, hi: int) -> int
    decreases hi - lo,
{
    if hi <= lo {
        0
    } else {
        count_at(ms, lo, hi - 1) + if has_at(ms[hi - 1]) {
            1int
        } else {
            0
        }
    }
}

/// Whether `s` holds the character `c`.
pub fn contains_char(s: &str, c: char) -> (r: bool)
    ensures
        r == s@.contains(c),
{
    let cs = chars_of(s);
    let mut i: usize = 0;
    while i < cs.len()
        invariant
            i <= cs@.len(),
            cs@ == s@,
            forall|k: int| 0 <= k < i ==> cs@[k] != c,
        decreases cs@.len() - i,
    {
        if cs[i] == c {
            return true;
        }
        i += 1;
    }
    false
}

/// The user messages that end the chat: where they start, and how many of them mention
/// an `@` command.
pub fn trailing_user_messages(messages: &Vec<ChatMessage>) -> (r: (usize, usize))
    ensures
        r.0 as int == tail_start(messages@, messages@.len() as int),
        r.1 as int == count_at(messages@, r.0 as int, messages@.len() as int),
{
    let user = owned("user");
    let n = messages.len();
    let mut start: usize = n;
    let mut with_at: usize = 0;
    while start > 0 && messages[start - 1].role == user
        invariant
            start <= n == messages@.len(),
            user@ == "user"@,
            tail_start(messages@, n as int) == tail_start(messages@, start as int),
            with_at as int == count_at(messages@, start as int, n as int),
            with_at <= n - start,
        decreases start,
    {
        proof {
            lemma_count_at_front(messages@, start as int - 1, n as int);
        }
        if contains_char(messages[start - 1].content.as_str(), '@') {
            with_at += 1;
        }
        start -= 1;
    }
    (start, with_at)
}

proof fn lemma_count_at_front(ms: Seq<ChatMessage>, lo: int, hi: int)
    requires
        0 <= lo < hi <= ms.len(),
    ensures
        count_at(ms, lo, hi) == count_at(ms, lo + 1, hi) + if has_at(ms[lo]) {
            1int
        } else {
            0
        },
    decreases hi - lo,
{
    if hi - 1 > lo {
        lemma_count_at_front(ms, lo, hi - 1);
    } else {
        assert(count_at(ms, lo, lo) == 0);
        assert(count_at(ms, lo + 1, hi) == 0);
    }
}

/// Each of `n` messages gets `reserve / n` tokens of context (one share when `n` is zero),
/// with no redistribution of unused shares; the message's own tokens come off its share.
pub open spec fn message_context_limit(reserve: int, n: int, content_tokens: int) -> int {
    let share = reserve / if n > 1 {
        n
    } else {
        1
    };
    if share <= content_tokens {
        0
    } else {
        share - content_tokens
    }
}

/// Context tokens for one of `messages_with_at` user messages whose own text takes
/// `content_tokens` tokens, out of a turn budget of `reserve`.
pub fn context_limit_for_message(reserve: usize, messages_with_at: usize, content_tokens: usize) -> (r: usize)
    ensures
        r as int == message_context_limit(reserve as int, messages_with_at as int, content_tokens as int),
{
    let div = if messages_with_at > 1 {
        messages_with_at
    } else {
        1
    };
    let share = reserve / div;
    if share <= content_tokens {
        0
    } else {
        share - content_tokens
    }
}

/// Context tokens for one user message in a chat with window `n_ctx` and generation length
/// `maxgen`, when `messages_with_at` trailing user messages share the turn.
pub fn context_limit_in_chat(n_ctx: usize, maxgen: usize, messages_with_at: usize, content_tokens: usize) -> (r: usize)
    ensures
        r as int == message_context_limit(
            rag_budget(n_ctx as int, maxgen as int),
            messages_with_at as int,
            content_tokens as int,
        ),
{
    let reserve = crate::budget::max_tokens_for_rag_chat(n_ctx, maxgen);
    context_limit_for_message(reserve, messages_with_at, content_tokens)
}

/// The text holds nothing but white space.
pub open spec fn is_blank(s: Seq<char>) -> bool {
    forall|i: int| 0 <= i < s.len() ==> is_ws(#[trigger] s[i])
}

/// Whether the text holds nothing but white space.
pub fn blank(s: &str) -> (r: bool)
    ensures
        r == is_blank(s@),
{
    let cs = chars_of(s);
    let mut i: usize = 0;
    while i < cs.len()
        invariant
            i <= cs@.len(),
            cs@ == s@,
            forall|k: int| 0 <= k < i ==> is_ws(#[trigger] cs@[k]),
        decreases cs@.len() - i,
    {
        if !char_is_ws(cs[i]) {
            return false;
        }
        i += 1;
    }
    true
}

/// Append one user turn to the rebuilt chat: the messages its `@` commands produced, then
/// the context message if there is one, then the turn's own text unless it is blank.
pub fn push_turn(
    rebuilt: &mut Vec<ChatMessage>,
    produced: Vec<ChatMessage>,
    context: Option<ChatMessage>,
    role: String,
    content: String,
)
    ensures
        ({
            let base = old(rebuilt)@ + produced@ + match context {
                Some(c) => seq![c],
                None => Seq::empty(),
            };
            &&& is_blank(content@) ==> final(rebuilt)@ == base
            &&& !is_blank(content@) ==> final(rebuilt)@.len() == base.len() + 1
                && final(rebuilt)@.subrange(0, base.len() as int) == base && final(rebuilt)@.last().role@
                == role@ && final(rebuilt)@.last().content@ == content@
                && final(rebuilt)@.last().tool_calls is None && final(rebuilt)@.last().tool_call_id@
                == Seq::<char>::empty()
        }),
{
    let mut produced = produced;
    rebuilt.append(&mut produced);
    match context {
        Some(c) => rebuilt.push(c),
        None => {},
    }
    let ghost base = rebuilt@;
    if !blank(content.as_str()) {
        rebuilt.push(ChatMessage { role, content, tool_calls: None, tool_call_id: String::new() });
        assert(rebuilt@.subrange(0, base.len() as int) =~= base);
    }
}

} // verus!
