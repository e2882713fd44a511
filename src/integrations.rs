use vstd::prelude::*;
use vstd::string::StringExecFns;
use crate::chat::{is_user, ChatMessage, ChatToolCall};
use crate::text::{chars_of, owned};

verus! {

/// The hint an integration leaves in a tool answer when it needs configuring.
pub open spec fn config_marker(name: Seq<char>) -> Seq<char> {
    "\u{1f9e9} for configuration go to SETTINGS:"@ + name
}

/// The configuration hint for the integration `name`.
pub fn go_to_configuration_message(name: &str) -> (r: String)
    ensures
        r@ == config_marker(name@),
{
    owned("\u{1f9e9} for configuration go to SETTINGS:").concat(name)
}

/// `p` occurs in `s`.
pub open spec fn has_sub(s: Seq<char>, p: Seq<char>) -> bool {
    exists|i: int| 0 <= i <= s.len() - p.len() && #[trigger] s.subrange(i, i + p.len()) == p
}

/// Whether `pc` occurs in `sc` at position `i`.
fn matches_at(sc: &Vec<char>, pc: &Vec<char>, i: usize) -> (r: bool)
    requires
        i + pc.len() <= sc.len(),
    ensures
        r == (sc@.subrange(i as int, i + pc@.len()) == pc@),
{
    let mut j: usize = 0;
    while j < pc.len()
        invariant
            i + pc.len() <= sc.len(),
            j <= pc@.len(),
            forall|m: int| 0 <= m < j ==> sc@[i + m] == pc@[m],
        decreases pc@.len() - j,
    {
        if sc[i + j] != pc[j] {
            assert(sc@.subrange(i as int, i + pc@.len())[j as int] != pc@[j as int]);
            return false;
        }
        j += 1;
    }
    assert(sc@.subrange(i as int, i + pc@.len()) =~= pc@);
    true
}

/// Whether `p` occurs in `s`.
pub fn contains_text(s: &str, p: &str) -> (r: bool)
    ensures
        r == has_sub(s@, p@),
{
    let sc = chars_of(s);
    let pc = chars_of(p);
    if pc.len() > sc.len() {
        return false;
    }
    if pc.len() == 0 {
        assert(s@.subrange(0int, 0int + p@.len()) =~= p@);
        return true;
    }
    let end = sc.len() - pc.len() + 1;
    let mut i: usize = 0;
    while i < end
        invariant
            sc@ == s@,
            pc@ == p@,
            end == sc.len() - pc.len() + 1,
            1 <= pc.len() <= sc.len(),
            i <= end,
            forall|k: int| 0 <= k < i ==> #[trigger] sc@.subrange(k, k + pc@.len()) != pc@,
        decreases sc@.len() - pc@.len() + 1 - i,
    {
        if matches_at(&sc, &pc, i) {
            return true;
        }
        i += 1;
    }
    false
}

/// Row of the last user message among the first `k`, or 0 when there is none.
pub open spec fn last_user(ms: Seq<ChatMessage>, k: int) -> int
    decreases k,
{
    if k <= 0 {
        0
    } else if is_user(ms[k - 1]) {
        k - 1
    } else {
        last_user(ms, k - 1)
    }
}

/// Row of the first tool answer to call `id` among the first `k` messages, or -1.
pub open spec fn first_answer(ms: Seq<ChatMessage>, id: Seq<char>, k: int) -> int
    decreases k,
{
    if k <= 0 {
        -1
    } else {
        let r = first_answer(ms, id, k - 1);
        if r >= 0 {
            r
        } else if ms[k - 1].role@ == "tool"@ && ms[k - 1].tool_call_id@ == id {
            k - 1
        } else {
            -1
        }
    }
}

/// The first answer to tool call `t` asks for the integration to be configured.
pub open spec fn asks_configuration(ms: Seq<ChatMessage>, t: ChatToolCall) -> bool {
    let k = first_answer(ms, t.id@, ms.len() as int);
    k >= 0 && has_sub(ms[k].content@, config_marker(t.function.name@))
}

/// Tool call `c` of message `i` is an assistant's call of integration `n` whose answer asks
/// for configuration.
pub open spec fn call_flags(ms: Seq<ChatMessage>, i: int, c: int, n: Seq<char>) -> bool {
    &&& 0 <= i < ms.len()
    &&& ms[i].role@ == "assistant"@
    &&& ms[i].tool_calls is Some
    &&& 0 <= c < ms[i].tool_calls->Some_0@.len()
    &&& ms[i].tool_calls->Some_0@[c].function.name@ == n
    &&& asks_configuration(ms, ms[i].tool_calls->Some_0@[c])
}

/// Integrations flagged by the tool calls of messages `lo..i`, and by the first `c` calls
/// of message `i`.
pub open spec fn flagged_upto(ms: Seq<ChatMessage>, lo: int, i: int, c: int) -> Set<Seq<char>> {
    Set::new(
        |n: Seq<char>|
            exists|m: int, d: int|
                #[trigger] call_flags(ms, m, d, n) && ((lo <= m < i) || (m == i && d < c)),
    )
}

/// Integrations whose tool calls, made by the assistant since the last user message, were
/// answered with a request to configure them.
pub open spec fn failed_set(ms: Seq<ChatMessage>) -> Set<Seq<char>> {
    flagged_upto(ms, last_user(ms, ms.len() as int), ms.len() as int, 0)
}

/// `a` sorts strictly before `b` when compared character by character from position `i`.
pub open spec fn lex_lt_from(a: Seq<char>, b: Seq<char>, i: int) -> bool
    decreases a.len() - i,
{
    if i < 0 || i >= a.len() {
        0 <= i < b.len()
    } else if i >= b.len() {
        false
    } else if a[i] != b[i] {
        a[i] < b[i]
    } else {
        lex_lt_from(a, b, i + 1)
    }
}

/// `a` sorts strictly before `b`.
pub open spec fn lex_lt(a: Seq<char>, b: Seq<char>) -> bool {
    lex_lt_from(a, b, 0)
}

proof fn lemma_lex_trans(a: Seq<char>, b: Seq<char>, c: Seq<char>, i: int)
    requires
        0 <= i,
        lex_lt_from(a, b, i),
        lex_lt_from(b, c, i),
    ensures
        lex_lt_from(a, c, i),
    decreases a.len() - i,
{
    if i < a.len() && i < b.len() && i < c.len() && a[i] == b[i] && b[i] == c[i] {
        lemma_lex_trans(a, b, c, i + 1);
    }
}

proof fn lemma_lex_total(a: Seq<char>, b: Seq<char>, i: int)
    requires
        0 <= i <= a.len(),
        i <= b.len(),
        a.subrange(0, i) == b.subrange(0, i),
        !lex_lt_from(a, b, i),
        !lex_lt_from(b, a, i),
    ensures
        a == b,
    decreases a.len() - i,
{
    if i < a.len() && i < b.len() {
        assert(a.subrange(0, i + 1) =~= a.subrange(0, i).push(a[i]));
        assert(b.subrange(0, i + 1) =~= b.subrange(0, i).push(b[i]));
        lemma_lex_total(a, b, i + 1);
    } else {
        assert(a =~= a.subrange(0, i));
        assert(b =~= b.subrange(0, i));
    }
}

proof fn lemma_lex_irrefl(a: Seq<char>, i: int)
    requires
        0 <= i,
    ensures
        !lex_lt_from(a, a, i),
    decreases a.len() - i,
{
    if i < a.len() {
        lemma_lex_irrefl(a, i + 1);
    }
}

/// Whether `a` sorts strictly before `b`.
fn lex_less(a: &Vec<char>, b: &Vec<char>) -> (r: bool)
    ensures
        r == lex_lt(a@, b@),
{
    let mut i: usize = 0;
    while i < a.len() && i < b.len() && a[i] == b[i]
        invariant
            i <= a@.len(),
            i <= b@.len(),
            lex_lt(a@, b@) == lex_lt_from(a@, b@, i as int),
        decreases a@.len() - i,
    {
        i += 1;
    }
    if i >= a.len() {
        i < b.len()
    } else if i >= b.len() {
        false
    } else {
        a[i] < b[i]
    }
}

/// Every earlier entry sorts strictly before every later one.
pub open spec fn strictly_increasing(v: Seq<Seq<char>>) -> bool {
    forall|a: int, b: int| 0 <= a < b < v.len() ==> lex_lt(#[trigger] v[a], #[trigger] v[b])
}

/// The texts of `v`.
pub open spec fn views(v: Seq<String>) -> Seq<Seq<char>> {
    Seq::new(v.len(), |i: int| v[i]@)
}

/// Insert `name` into the sorted, duplicate-free `out` (with `keys` its characters).
fn insert_sorted(out: &mut Vec<String>, keys: &mut Vec<Vec<char>>, name: &String)
    requires
        strictly_increasing(views(old(out)@)),
        old(keys)@.len() == old(out)@.len(),
        forall|k: int| 0 <= k < old(keys)@.len() ==> (#[trigger] old(keys)@[k])@ == old(out)@[k]@,
    ensures
        strictly_increasing(views(final(out)@)),
        final(keys)@.len() == final(out)@.len(),
        forall|k: int| 0 <= k < final(keys)@.len() ==> (#[trigger] final(keys)@[k])@ == final(out)@[k]@,
        views(final(out)@).to_set() == views(old(out)@).to_set().insert(name@),
{
    let nc = chars_of(name.as_str());
    let ghost v0 = views(out@);
    let mut pos: usize = 0;
    while pos < keys.len() && lex_less(&keys[pos], &nc)
        invariant
            pos <= keys@.len() == out@.len(),
            v0 == views(out@),
            nc@ == name@,
            forall|k: int| 0 <= k < keys@.len() ==> (#[trigger] keys@[k])@ == out@[k]@,
            forall|k: int| 0 <= k < pos ==> lex_lt(#[trigger] v0[k], name@),
        decreases keys@.len() - pos,
    {
        pos += 1;
    }
    if pos < keys.len() && !lex_less(&nc, &keys[pos]) {
        proof {
            assert(!lex_lt(v0[pos as int], name@));
            assert(v0[pos as int].subrange(0, 0) =~= name@.subrange(0, 0));
            lemma_lex_total(v0[pos as int], name@, 0);
            assert(views(out@).to_set() =~= v0.to_set().insert(name@)) by {
                assert(v0.contains(name@)) by {
                    assert(v0[pos as int] == name@);
                }
            }
        }
        return ;
    }
    let ghost before = out@;
    out.insert(pos, name.clone());
    keys.insert(pos, nc);
    proof {
        let v1 = views(out@);
        assert(v1 =~= v0.insert(pos as int, name@));
        assert forall|a: int, b: int| 0 <= a < b < v1.len() implies lex_lt(#[trigger] v1[a], #[trigger] v1[b]) by {
            if b < pos {
            } else if a < pos && b == pos {
            } else if a < pos && b > pos {
                assert(lex_lt(v0[a], v0[b - 1]));
            } else if a == pos {
                if b - 1 > pos {
                    assert(lex_lt(v0[pos as int], v0[b - 1]));
                    lemma_lex_trans(name@, v0[pos as int], v0[b - 1], 0);
                }
            } else {
                assert(lex_lt(v0[a - 1], v0[b - 1]));
            }
        }
        assert forall|k: int| 0 <= k < keys@.len() implies (#[trigger] keys@[k])@ == out@[k]@ by {
            if k < pos {
                assert(keys@[k] == old(keys)@[k]);
            } else if k > pos {
                assert(keys@[k] == old(keys)@[k - 1]);
            }
        }
        assert(v1.to_set() =~= v0.to_set().insert(name@)) by {
            assert forall|x: Seq<char>| v1.to_set().contains(x) <==> v0.to_set().insert(name@).contains(x) by {
                if v1.contains(x) {
                    let k = choose|k: int| 0 <= k < v1.len() && v1[k] == x;
                    if k < pos {
                        assert(v0[k] == x);
                    } else if k > pos {
                        assert(v0[k - 1] == x);
                    }
                }
                if v0.contains(x) {
                    let k = choose|k: int| 0 <= k < v0.len() && v0[k] == x;
                    if k < pos {
                        assert(v1[k] == x);
                    } else {
                        assert(v1[k + 1] == x);
                    }
                }
                if x == name@ {
                    assert(v1[pos as int] == x);
                }
            }
        }
    }
}

/// Row of the first tool answer to call `id`.
fn find_answer(ms: &Vec<ChatMessage>, id: &String) -> (r: Option<usize>)
    ensures
        match r {
            Some(k) => k as int == first_answer(ms@, id@, ms@.len() as int) && k < ms@.len(),
            None => first_answer(ms@, id@, ms@.len() as int) == -1,
        },
{
    let tool = owned("tool");
    let mut i: usize = 0;
    while i < ms.len()
        invariant
            i <= ms@.len(),
            tool@ == "tool"@,
            first_answer(ms@, id@, i as int) == -1,
        decreases ms@.len() - i,
    {
        if ms[i].role == tool && ms[i].tool_call_id == *id {
            proof {
                lemma_first_answer_stays(ms@, id@, i as int + 1, ms@.len() as int);
            }
            return Some(i);
        }
        i += 1;
    }
    None
}

proof fn lemma_first_answer_stays(ms: Seq<ChatMessage>, id: Seq<char>, k: int, m: int)
    requires
        0 <= k <= m <= ms.len(),
        first_answer(ms, id, k) >= 0,
    ensures
        first_answer(ms, id, m) == first_answer(ms, id, k),
    decreases m - k,
{
    if m > k {
        lemma_first_answer_stays(ms, id, k, m - 1);
    }
}

/// Integrations that tool answers since the last user message asked to be configured,
/// sorted and without repeats.
pub fn failed_integration_names_after_last_user_message(messages: &Vec<ChatMessage>) -> (r: Vec<String>)
    ensures
        strictly_increasing(views(r@)),
        views(r@).to_set() == failed_set(messages@),
{
    let ghost ms = messages@;
    let user = owned("user");
    let assistant = owned("assistant");
    let mut k: usize = messages.len();
    while k > 0 && !(messages[k - 1].role == user)
        invariant
            k <= ms.len(),
            ms == messages@,
            user@ == "user"@,
            last_user(ms, ms.len() as int) == last_user(ms, k as int),
        decreases k,
    {
        k -= 1;
    }
    let lo: usize = if k > 0 {
        k - 1
    } else {
        0
    };
    let ghost lu = lo as int;
    assert(lu == last_user(ms, ms.len() as int));
    let mut out: Vec<String> = Vec::new();
    let mut keys: Vec<Vec<char>> = Vec::new();
    let mut i: usize = lo;
    proof {
        assert(views(out@).to_set() =~= flagged_upto(ms, lu, i as int, 0));
    }
    while i < messages.len()
        invariant
            lo <= i <= ms.len(),
            ms == messages@,
            lu == lo as int,
            assistant@ == "assistant"@,
            strictly_increasing(views(out@)),
            keys@.len() == out@.len(),
            forall|q: int| 0 <= q < keys@.len() ==> (#[trigger] keys@[q])@ == out@[q]@,
            views(out@).to_set() == flagged_upto(ms, lu, i as int, 0),
        decreases ms.len() - i,
    {
        if messages[i].role == assistant {
            match &messages[i].tool_calls {
                Some(tcs) => {
                    let mut c: usize = 0;
                    while c < tcs.len()
                        invariant
                            lo <= i < ms.len(),
                            ms == messages@,
                            lu == lo as int,
                            ms[i as int].role@ == "assistant"@,
                            ms[i as int].tool_calls == Some(*tcs),
                            c <= tcs@.len(),
                            strictly_increasing(views(out@)),
                            keys@.len() == out@.len(),
                            forall|q: int| 0 <= q < keys@.len() ==> (#[trigger] keys@[q])@ == out@[q]@,
                            views(out@).to_set() == flagged_upto(ms, lu, i as int, c as int),
                        decreases tcs@.len() - c,
                    {
                        let t = &tcs[c];
                        let mut asks = false;
                        match find_answer(messages, &t.id) {
                            Some(a) => {
                                let marker = go_to_configuration_message(t.function.name.as_str());
                                asks = contains_text(messages[a].content.as_str(), marker.as_str());
                            },
                            None => {},
                        }
                        let ghost before = views(out@).to_set();
                        if asks {
                            insert_sorted(&mut out, &mut keys, &t.function.name);
                        }
                        proof {
                            assert(asks == asks_configuration(ms, tcs@[c as int]));
                            let next = flagged_upto(ms, lu, i as int, c as int + 1);
                            let prev = flagged_upto(ms, lu, i as int, c as int);
                            assert forall|n: Seq<char>| next.contains(n) <==> (prev.contains(n) || (asks
                                && n == t.function.name@)) by {
                                if next.contains(n) {
                                    let (m, d) = choose|m: int, d: int|
                                        #[trigger] call_flags(ms, m, d, n) && ((lu <= m < i) || (m == i && d < c + 1));
                                    if !(m == i && d == c) {
                                        assert(prev.contains(n));
                                    }
                                }
                                if prev.contains(n) {
                                    let (m, d) = choose|m: int, d: int|
                                        #[trigger] call_flags(ms, m, d, n) && ((lu <= m < i) || (m == i && d < c));
                                    assert(next.contains(n));
                                }
                                if asks && n == t.function.name@ {
                                    assert(call_flags(ms, i as int, c as int, n));
                                    assert(next.contains(n));
                                }
                            }
                            if asks {
                                assert(views(out@).to_set() =~= next);
                            } else {
                                assert(views(out@).to_set() =~= next);
                            }
                        }
                        c += 1;
                    }
                    proof {
                        let a = flagged_upto(ms, lu, i as int, c as int);
                        let b = flagged_upto(ms, lu, i as int + 1, 0);
                        assert forall|n: Seq<char>| a.contains(n) <==> b.contains(n) by {
                            if a.contains(n) {
                                let (m, d) = choose|m: int, d: int|
                                    #[trigger] call_flags(ms, m, d, n) && ((lu <= m < i) || (m == i && d < c));
                                assert(b.contains(n));
                            }
                            if b.contains(n) {
                                let (m, d) = choose|m: int, d: int|
                                    #[trigger] call_flags(ms, m, d, n) && ((lu <= m < i + 1) || (m == i + 1 && d < 0));
                                assert(a.contains(n));
                            }
                        }
                        assert(a =~= b);
                    }
                },
                None => {
                    proof {
                        lemma_no_calls_step(ms, lu, i as int);
                    }
                },
            }
        } else {
            proof {
                lemma_no_calls_step(ms, lu, i as int);
            }
        }
        i += 1;
    }
    out
}

proof fn lemma_no_calls_step(ms: Seq<ChatMessage>, lu: int, i: int)
    requires
        0 <= i < ms.len(),
        !(ms[i].role@ == "assistant"@ && ms[i].tool_calls is Some),
    ensures
        flagged_upto(ms, lu, i, 0) == flagged_upto(ms, lu, i + 1, 0),
{
    let a = flagged_upto(ms, lu, i, 0);
    let b = flagged_upto(ms, lu, i + 1, 0);
    assert forall|n: Seq<char>| a.contains(n) <==> b.contains(n) by {
        if a.contains(n) {
            let (m, d) = choose|m: int, d: int|
                #[trigger] call_flags(ms, m, d, n) && ((lu <= m < i) || (m == i && d < 0));
            assert(b.contains(n));
        }
        if b.contains(n) {
            let (m, d) = choose|m: int, d: int|
                #[trigger] call_flags(ms, m, d, n) && ((lu <= m < i + 1) || (m == i + 1 && d < 0));
            assert(m != i);
            assert(a.contains(n));
        }
    }
    assert(a =~= b);
}

} // verus!
