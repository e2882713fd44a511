use vstd::prelude::*;
use vstd::std_specs::iter::IteratorSpec;
use vstd::string::StringExecFns;

verus! {

/// `p` is a prefix of `s`.
pub open spec fn is_prefix(p: Seq<char>, s: Seq<char>) -> bool {
    p.len() <= s.len() && s.subrange(0, p.len() as int) == p
}

/// Unicode White_Space, the set that `str::trim` strips.
pub open spec fn is_ws(c: char) -> bool {
    let u = c as u32;
    (0x9 <= u <= 0xd) || u == 0x20 || u == 0x85 || u == 0xa0 || u == 0x1680 || (0x2000 <= u
        <= 0x200a) || u == 0x2028 || u == 0x2029 || u == 0x202f || u == 0x205f || u == 0x3000
}

/// The line holds one non-space ASCII character and otherwise only white space,
/// such as a lone closing brace.
pub open spec fn lone_glyph(s: Seq<char>) -> bool {
    exists|k: int|
        0 <= k < s.len() && !is_ws(#[trigger] s[k]) && (s[k] as u32) < 0x80 && (forall|j: int|
            0 <= j < s.len() && j != k ==> is_ws(#[trigger] s[j]))
}

/// Index of the last `::` in the first `n` characters of `s`, or -1.
pub open spec fn sep_before(s: Seq<char>, n: int) -> int
    decreases n,
{
    if n < 2 {
        -1
    } else if s[n - 2] == ':' && s[n - 1] == ':' {
        n - 2
    } else {
        sep_before(s, n - 1)
    }
}

/// The enclosing path of a `::`-joined symbol path: the text before its last `::`.
pub open spec fn parent_path(s: Seq<char>) -> Seq<char> {
    s.subrange(0, sep_before(s, s.len() as int))
}

/// The path has at least two segments.
pub open spec fn has_parent(s: Seq<char>) -> bool {
    sep_before(s, s.len() as int) >= 0
}

/// The characters of `s`, in order.
pub fn chars_of(s: &str) -> (r: Vec<char>)
    ensures
        r@ == s@,
{
    let mut r: Vec<char> = Vec::new();
    for c in it: s.chars()
        invariant
            r@ == it.seq().take(it.index() as int),
    {
        r.push(c);
    }
    r
}

/// A fresh `String` holding `s`.
pub fn owned(s: &str) -> (r: String)
    ensures
        r@ == s@,
{
    <String as StringExecFns>::from_str(s)
}

/// Whether `p` is a prefix of `s`.
pub fn starts_with(s: &str, p: &str) -> (r: bool)
    ensures
        r == is_prefix(p@, s@),
{
    let sc = chars_of(s);
    let pc = chars_of(p);
    if pc.len() > sc.len() {
        return false;
    }
    let mut i: usize = 0;
    while i < pc.len()
        invariant
            i <= pc.len() <= sc.len(),
            sc@ == s@,
            pc@ == p@,
            forall|j: int| 0 <= j < i ==> sc@[j] == pc@[j],
        decreases pc.len() - i,
    {
        if sc[i] != pc[i] {
            return false;
        }
        i += 1;
    }
    assert(s@.subrange(0, p@.len() as int) =~= p@);
    true
}

/// Whether `c` is white space in the sense of `is_ws`.
pub fn char_is_ws(c: char) -> (r: bool)
    ensures
        r == is_ws(c),
{
    let u = c as u32;
    (0x9 <= u && u <= 0xd) || u == 0x20 || u == 0x85 || u == 0xa0 || u == 0x1680 || (0x2000 <= u
        && u <= 0x200a) || u == 0x2028 || u == 0x2029 || u == 0x202f || u == 0x205f || u == 0x3000
}

/// Whether the line is a single non-space ASCII character padded with white space.
pub fn is_lone_glyph(s: &str) -> (r: bool)
    ensures
        r == lone_glyph(s@),
{
    let cs = chars_of(s);
    let mut count: usize = 0;
    let mut at: usize = 0;
    let mut i: usize = 0;
    while i < cs.len()
        invariant
            i <= cs.len(),
            cs@ == s@,
            count <= i,
            count == 0 ==> forall|j: int| 0 <= j < i ==> is_ws(#[trigger] cs@[j]),
            count == 1 ==> at < i && !is_ws(cs@[at as int]) && forall|j: int|
                0 <= j < i && j != at ==> is_ws(#[trigger] cs@[j]),
            count >= 2 ==> exists|a: int, b: int|
                0 <= a < b < i && !is_ws(#[trigger] cs@[a]) && !is_ws(#[trigger] cs@[b]),
        decreases cs.len() - i,
    {
        if !char_is_ws(cs[i]) {
            if count == 1 {
                assert(!is_ws(cs@[at as int]) && !is_ws(cs@[i as int]));
            }
            if count < 2 {
                count += 1;
            }
            at = i;
        }
        i += 1;
    }
    if count == 1 {
        let r = (cs[at] as u32) < 0x80;
        if !r {
            assert forall|k: int|
                0 <= k < s@.len() && !is_ws(#[trigger] s@[k]) implies (s@[k] as u32) >= 0x80 by {
                if k != at {
                    assert(is_ws(cs@[k]));
                }
            }
        }
        r
    } else {
        if count >= 2 {
            assert forall|k: int|
                0 <= k < s@.len() && !is_ws(#[trigger] s@[k]) && (s@[k] as u32) < 0x80 implies !(
            forall|j: int| 0 <= j < s@.len() && j != k ==> is_ws(#[trigger] s@[j])) by {
                let (a, b) = choose|a: int, b: int|
                    0 <= a < b < i && !is_ws(#[trigger] cs@[a]) && !is_ws(#[trigger] cs@[b]);
                if a != k {
                    assert(!is_ws(s@[a]));
                } else {
                    assert(!is_ws(s@[b]));
                }
            }
        }
        false
    }
}

/// Index of the last `::` in `s`, if any.
pub fn last_separator(s: &Vec<char>) -> (r: Option<usize>)
    ensures
        match r {
            Some(k) => k as int == sep_before(s@, s@.len() as int) && k + 2 <= s@.len(),
            None => sep_before(s@, s@.len() as int) == -1,
        },
{
    let mut n: usize = s.len();
    while n >= 2
        invariant
            n <= s.len(),
            sep_before(s@, s@.len() as int) == sep_before(s@, n as int),
        decreases n,
    {
        if s[n - 2] == ':' && s[n - 1] == ':' {
            return Some(n - 2);
        }
        n -= 1;
    }
    None
}

/// The enclosing path of `s`, when it has one.
pub fn parent_of(s: &str) -> (r: Option<String>)
    ensures
        match r {
            Some(p) => has_parent(s@) && p@ == parent_path(s@) && p@.len() + 2 <= s@.len(),
            None => !has_parent(s@),
        },
{
    let cs = chars_of(s);
    match last_separator(&cs) {
        Some(k) => {
            let mut p = String::new();
            let mut i: usize = 0;
            while i < k
                invariant
                    i <= k,
                    k < cs@.len(),
                    p@ == cs@.subrange(0, i as int),
                decreases k - i,
            {
                push_char(&mut p, cs[i]);
                i += 1;
                assert(p@ =~= cs@.subrange(0, i as int));
            }
            Some(p)
        },
        None => None,
    }
}

/// Relies on String::push: the character is appended.
#[verifier::external_body]
pub(crate) fn push_char(s: &mut String, c: char)
    ensures
        final(s)@ == old(s)@.push(c),
{
    s.push(c)
}

} // verus!
