use vstd::prelude::*;
use crate::model::FILE_OVERHEAD;

verus! {

/// The values of `s`, as integers.
pub open spec fn ints_i128(s: Seq<i128>) -> Seq<int> {
    Seq::new(s.len(), |i: int| s[i] as int)
}

/// The values of `s`, as integers.
pub open spec fn ints_usize(s: Seq<usize>) -> Seq<int> {
    Seq::new(s.len(), |i: int| s[i] as int)
}

/// The rows of a table of vectors, as sequences.
pub open spec fn tables(s: Seq<Vec<usize>>) -> Seq<Seq<usize>> {
    Seq::new(s.len(), |i: int| s[i]@)
}

/// Line `x` ranks ahead of line `y`: a higher key, or an equal key and an earlier position.
pub open spec fn ahead(keys: Seq<int>, x: int, y: int) -> bool {
    keys[x] > keys[y] || (keys[x] == keys[y] && x < y)
}

/// Every earlier entry of `p` ranks ahead of every later one.
pub open spec fn strictly_sorted(p: Seq<usize>, keys: Seq<int>) -> bool {
    forall|a: int, b: int| 0 <= a < b < p.len() ==> ahead(keys, #[trigger] p[a] as int, #[trigger] p[b] as int)
}

/// `p` lists each position `0..keys.len()` once, best ranked first.
pub open spec fn sorted_perm(p: Seq<usize>, keys: Seq<int>) -> bool {
    &&& p.len() == keys.len()
    &&& strictly_sorted(p, keys)
    &&& forall|a: int| 0 <= a < p.len() ==> #[trigger] p[a] < keys.len()
    &&& forall|y: usize| y < keys.len() ==> p.contains(y)
}

/// The order in which lines are offered to the budget: descending key, ties by position.
pub open spec fn sort_order(keys: Seq<int>) -> Seq<usize> {
    choose|p: Seq<usize>| sorted_perm(p, keys)
}

proof fn lemma_sorted_unique_sets(p: Seq<usize>, q: Seq<usize>, keys: Seq<int>)
    requires
        strictly_sorted(p, keys),
        strictly_sorted(q, keys),
        forall|a: int| 0 <= a < p.len() ==> #[trigger] p[a] < keys.len(),
        forall|a: int| 0 <= a < q.len() ==> #[trigger] q[a] < keys.len(),
        forall|y: usize| p.contains(y) <==> q.contains(y),
    ensures
        p == q,
    decreases p.len(),
{
    if p.len() == 0 {
        if q.len() > 0 {
            assert(q.contains(q[0]));
        }
        assert(p =~= q);
    } else {
        assert(p.contains(p[0]));
        let j = choose|j: int| 0 <= j < q.len() && q[j] == p[0];
        if j > 0 {
            assert(q.contains(q[0]));
            let i = choose|i: int| 0 <= i < p.len() && p[i] == q[0];
            assert(ahead(keys, q[0] as int, q[j] as int));
            if i == 0 {
                assert(q[0] == q[j]);
            } else {
                assert(ahead(keys, p[0] as int, p[i] as int));
            }
        }
        let p_rest = p.drop_first();
        let q_rest = q.drop_first();
        assert forall|y: usize| p_rest.contains(y) <==> q_rest.contains(y) by {
            if p_rest.contains(y) {
                let a = choose|a: int| 0 <= a < p_rest.len() && p_rest[a] == y;
                assert(ahead(keys, p[0] as int, p[a + 1] as int));
                assert(p.contains(y));
                let b = choose|b: int| 0 <= b < q.len() && q[b] == y;
                if b == 0 {
                    assert(p[0] == y);
                }
                assert(q_rest[b - 1] == y);
            }
            if q_rest.contains(y) {
                let a = choose|a: int| 0 <= a < q_rest.len() && q_rest[a] == y;
                assert(ahead(keys, q[0] as int, q[a + 1] as int));
                assert(q.contains(y));
                let b = choose|b: int| 0 <= b < p.len() && p[b] == y;
                if b == 0 {
                    assert(q[0] == y);
                }
                assert(p_rest[b - 1] == y);
            }
        }
        assert(j == 0);
        lemma_sorted_unique_sets(p_rest, q_rest, keys);
        assert(p.len() == q.len());
        assert forall|k: int| 0 <= k < p.len() implies p[k] == q[k] by {
            if k > 0 {
                assert(p[k] == p_rest[k - 1]);
                assert(q[k] == q_rest[k - 1]);
            }
        }
        assert(p =~= q);
    }
}

/// Two sorted permutations of the same keys are equal.
pub proof fn lemma_sorted_perm_unique(p: Seq<usize>, q: Seq<usize>, keys: Seq<int>)
    requires
        sorted_perm(p, keys),
        sorted_perm(q, keys),
    ensures
        p == q,
{
    assert forall|y: usize| p.contains(y) <==> q.contains(y) by {
        if p.contains(y) {
            let a = choose|a: int| 0 <= a < p.len() && p[a] == y;
            assert(p[a] < keys.len());
        }
        if q.contains(y) {
            let a = choose|a: int| 0 <= a < q.len() && q[a] == y;
            assert(q[a] < keys.len());
        }
    }
    lemma_sorted_unique_sets(p, q, keys);
}

/// The ranking order of `keys`: descending, ties by position.
pub fn sort_by_key_desc(keys: &Vec<i128>) -> (r: Vec<usize>)
    ensures
        r@ == sort_order(ints_i128(keys@)),
        sorted_perm(r@, ints_i128(keys@)),
{
    let ghost ks = ints_i128(keys@);
    let mut r: Vec<usize> = Vec::new();
    let mut x: usize = 0;
    while x < keys.len()
        invariant
            x <= keys@.len(),
            ks == ints_i128(keys@),
            strictly_sorted(r@, ks),
            r@.len() == x,
            forall|a: int| 0 <= a < r@.len() ==> #[trigger] r@[a] < x,
            forall|y: usize| y < x ==> r@.contains(y),
        decreases keys@.len() - x,
    {
        let mut pos: usize = r.len();
        while pos > 0 && keys[x] > keys[r[pos - 1]]
            invariant
                pos <= r@.len(),
                x < keys@.len(),
                ks == ints_i128(keys@),
                forall|a: int| 0 <= a < r@.len() ==> #[trigger] r@[a] < x,
                forall|a: int| pos <= a < r@.len() ==> ahead(ks, x as int, #[trigger] r@[a] as int),
            decreases pos,
        {
            pos -= 1;
        }
        let ghost old_r = r@;
        r.insert(pos, x);
        proof {
            assert(r@ == old_r.insert(pos as int, x));
            assert forall|a: int, b: int| 0 <= a < b < r@.len() implies ahead(
                ks,
                #[trigger] r@[a] as int,
                #[trigger] r@[b] as int,
            ) by {
                if b < pos {
                    assert(ahead(ks, old_r[a] as int, old_r[b] as int));
                } else if a < pos && b == pos {
                    assert(!(keys@[x as int] > keys@[old_r[pos - 1] as int]));
                    assert(old_r[pos - 1] < x);
                    if a < pos - 1 {
                        assert(ahead(ks, old_r[a] as int, old_r[pos - 1] as int));
                    }
                } else if a < pos && b > pos {
                    assert(ahead(ks, old_r[a] as int, old_r[b - 1] as int));
                } else if a == pos {
                    assert(ahead(ks, x as int, old_r[b - 1] as int));
                } else {
                    assert(ahead(ks, old_r[a - 1] as int, old_r[b - 1] as int));
                }
            }
            assert forall|y: usize| y < x + 1 implies r@.contains(y) by {
                if y < x {
                    assert(old_r.contains(y));
                    let a = choose|a: int| 0 <= a < old_r.len() && old_r[a] == y;
                    if a < pos {
                        assert(r@[a] == y);
                    } else {
                        assert(r@[a + 1] == y);
                    }
                } else {
                    assert(r@[pos as int] == y);
                }
            }
        }
        x += 1;
    }
    proof {
        assert(sorted_perm(r@, ks));
        lemma_sorted_perm_unique(r@, sort_order(ks), ks);
    }
    r
}

/// What the budget pass reads of each line, by flat position, and of each file.
pub struct Budget {
    /// Score of each line.
    pub useful: Seq<int>,
    /// File of each line.
    pub file: Seq<usize>,
    /// Tokens of each line.
    pub tok: Seq<int>,
    /// Tokens of each file's name.
    pub ntok: Seq<int>,
    /// Lines must score above this to be taken.
    pub floor: int,
    /// Token budget.
    pub limit: int,
    /// No per-file overhead is charged.
    pub single: bool,
}

/// State of the budget pass: tokens spent, lines taken in order, files met in order, and
/// whether the budget ran out.
pub struct SelState {
    pub total: int,
    pub taken: Seq<usize>,
    pub seen: Seq<usize>,
    pub stopped: bool,
}

/// Cost of taking line `x` when the files in `seen` are already charged for.
pub open spec fn line_cost(b: Budget, seen: Seq<usize>, x: usize) -> int {
    let f = b.file[x as int];
    b.tok[x as int] + if !seen.contains(f) && !b.single {
        b.ntok[f as int] + FILE_OVERHEAD
    } else {
        0
    }
}

/// Offer line `x` to the budget.
pub open spec fn select_step(s: SelState, b: Budget, x: usize) -> SelState {
    if s.stopped || x >= b.useful.len() || b.useful[x as int] <= b.floor {
        s
    } else {
        let f = b.file[x as int];
        let seen = if s.seen.contains(f) {
            s.seen
        } else {
            s.seen.push(f)
        };
        let t = line_cost(b, s.seen, x);
        if s.total + t > b.limit {
            SelState { total: s.total, taken: s.taken, seen, stopped: true }
        } else {
            SelState { total: s.total + t, taken: s.taken.push(x), seen, stopped: false }
        }
    }
}

/// The budget pass over the first `k` lines of `order`.
pub open spec fn select_prefix(order: Seq<usize>, k: int, b: Budget) -> SelState
    decreases k,
{
    if k <= 0 {
        SelState { total: 0, taken: Seq::empty(), seen: Seq::empty(), stopped: false }
    } else {
        select_step(select_prefix(order, k - 1, b), b, order[k - 1])
    }
}

/// Some line of `t` belongs to file `f`.
pub open spec fn has_file(t: Seq<usize>, f: usize, b: Budget) -> bool {
    exists|a: int| 0 <= a < t.len() && b.file[t[a] as int] == f
}

/// Tokens charged for the lines `t`, taken in this order: each line's tokens, plus, outside
/// single-file mode, the name and overhead of a file at its first line.
pub open spec fn taken_cost(t: Seq<usize>, b: Budget) -> int
    decreases t.len(),
{
    if t.len() == 0 {
        0
    } else {
        let x = t.last();
        let f = b.file[x as int];
        taken_cost(t.drop_last(), b) + b.tok[x as int] + if !has_file(t.drop_last(), f, b)
            && !b.single {
            b.ntok[f as int] + FILE_OVERHEAD
        } else {
            0
        }
    }
}

/// The budget pass keeps its books: the total is the cost of what was taken, within the
/// budget, and until it stops the files met are those of the lines taken.
pub proof fn lemma_select_books(order: Seq<usize>, k: int, b: Budget)
    requires
        0 <= k <= order.len(),
        b.limit >= 0,
    ensures
        select_prefix(order, k, b).total == taken_cost(select_prefix(order, k, b).taken, b),
        select_prefix(order, k, b).total <= b.limit,
        !select_prefix(order, k, b).stopped ==> forall|f: usize|
            #[trigger] select_prefix(order, k, b).seen.contains(f) <==> has_file(
                select_prefix(order, k, b).taken,
                f,
                b,
            ),
    decreases k,
{
    if k > 0 {
        lemma_select_books(order, k - 1, b);
        let s = select_prefix(order, k - 1, b);
        let x = order[k - 1];
        let n = select_prefix(order, k, b);
        if !s.stopped && x < b.useful.len() && b.useful[x as int] > b.floor && s.total + line_cost(
            b,
            s.seen,
            x,
        ) <= b.limit {
            let f = b.file[x as int];
            assert(n.taken.drop_last() =~= s.taken);
            assert(s.seen.contains(f) == has_file(s.taken, f, b));
            assert forall|g: usize| #[trigger] n.seen.contains(g) <==> has_file(n.taken, g, b) by {
                if has_file(n.taken, g, b) {
                    let a = choose|a: int| 0 <= a < n.taken.len() && b.file[n.taken[a] as int] == g;
                    if a < s.taken.len() {
                        assert(has_file(s.taken, g, b));
                        assert(s.seen.contains(g));
                        if !s.seen.contains(f) {
                            let c = choose|c: int| 0 <= c < s.seen.len() && s.seen[c] == g;
                            assert(n.seen[c] == g);
                        }
                    } else {
                        if !s.seen.contains(f) {
                            assert(n.seen[s.seen.len() as int] == g);
                        }
                    }
                }
                if n.seen.contains(g) {
                    if g == f {
                        assert(b.file[n.taken[s.taken.len() as int] as int] == g);
                    } else {
                        let c = choose|c: int| 0 <= c < n.seen.len() && n.seen[c] == g;
                        if !s.seen.contains(f) && c == s.seen.len() {
                            assert(false);
                        }
                        assert(s.seen.contains(g));
                        let a = choose|a: int| 0 <= a < s.taken.len() && b.file[s.taken[a] as int] == g;
                        assert(n.taken[a] == s.taken[a]);
                    }
                }
            }
        }
    }
}

/// Once the budget runs out, the pass changes nothing more.
pub proof fn lemma_stopped_stays(order: Seq<usize>, k: int, m: int, b: Budget)
    requires
        0 <= k <= m,
        select_prefix(order, k, b).stopped,
    ensures
        select_prefix(order, m, b) == select_prefix(order, k, b),
    decreases m - k,
{
    if m > k {
        lemma_stopped_stays(order, k, m - 1, b);
    }
}

/// The budget pass: walks `order` and takes lines until the next one would not fit.
/// Returns the lines taken and the files met, both in order.
pub fn select_lines(
    order: &Vec<usize>,
    useful: &Vec<i128>,
    file: &Vec<usize>,
    tok: &Vec<usize>,
    ntok: &Vec<usize>,
    floor: i128,
    limit: usize,
    single: bool,
) -> (r: (Vec<usize>, Vec<usize>))
    requires
        useful@.len() == file@.len() == tok@.len(),
        forall|a: int| 0 <= a < order@.len() ==> #[trigger] order@[a] < useful@.len(),
        forall|a: int| 0 <= a < file@.len() ==> #[trigger] file@[a] < ntok@.len(),
    ensures
        ({
            let b = Budget {
                useful: ints_i128(useful@),
                file: file@,
                tok: ints_usize(tok@),
                ntok: ints_usize(ntok@),
                floor: floor as int,
                limit: limit as int,
                single,
            };
            let s = select_prefix(order@, order@.len() as int, b);
            r.0@ == s.taken && r.1@ == s.seen
        }),
{
    let ghost b = Budget {
        useful: ints_i128(useful@),
        file: file@,
        tok: ints_usize(tok@),
        ntok: ints_usize(ntok@),
        floor: floor as int,
        limit: limit as int,
        single,
    };
    let mut flags: Vec<bool> = Vec::new();
    let mut j: usize = 0;
    while j < ntok.len()
        invariant
            j <= ntok@.len(),
            flags@.len() == j,
            forall|a: int| 0 <= a < j ==> !(#[trigger] flags@[a]),
        decreases ntok@.len() - j,
    {
        flags.push(false);
        j += 1;
    }
    let mut taken: Vec<usize> = Vec::new();
    let mut seen: Vec<usize> = Vec::new();
    let mut total: usize = 0;
    let mut i: usize = 0;
    proof {
        lemma_select_books(order@, 0, b);
    }
    while i < order.len()
        invariant
            i <= order@.len(),
            useful@.len() == file@.len() == tok@.len(),
            forall|a: int| 0 <= a < order@.len() ==> #[trigger] order@[a] < useful@.len(),
            forall|a: int| 0 <= a < file@.len() ==> #[trigger] file@[a] < ntok@.len(),
            b == (Budget {
                useful: ints_i128(useful@),
                file: file@,
                tok: ints_usize(tok@),
                ntok: ints_usize(ntok@),
                floor: floor as int,
                limit: limit as int,
                single,
            }),
            flags@.len() == ntok@.len(),
            forall|f: usize| f < ntok@.len() ==> #[trigger] flags@[f as int] == seen@.contains(f),
            select_prefix(order@, i as int, b) == (SelState {
                total: total as int,
                taken: taken@,
                seen: seen@,
                stopped: false,
            }),
        decreases order@.len() - i,
    {
        proof {
            lemma_select_books(order@, i as int, b);
        }
        let x = order[i];
        if useful[x] > floor {
            let f = file[x];
            let fresh = !flags[f];
            if fresh {
                let ghost old_flags = flags@;
                let ghost old_seen = seen@;
                assert(forall|g: usize| g < ntok@.len() ==> old_flags[g as int] == seen@.contains(g));
                flags.set(f, true);
                seen.push(f);
                proof {
                    let ghost prev = seen@.drop_last();
                    assert(prev =~= old_seen);
                    assert(seen@.last() == f);
                    assert forall|g: usize| g < ntok@.len() implies #[trigger] flags@[g as int]
                        == seen@.contains(g) by {
                        if g != f {
                            assert(flags@[g as int] == old_flags[g as int]);
                            assert(old_flags[g as int] == prev.contains(g));
                            if seen@.contains(g) {
                                let c = choose|c: int| 0 <= c < seen@.len() && seen@[c] == g;
                                assert(c < seen@.len() - 1);
                                assert(prev[c] == g);
                            }
                            if prev.contains(g) {
                                let c = choose|c: int| 0 <= c < prev.len() && prev[c] == g;
                                assert(seen@[c] == g);
                            }
                        } else {
                            assert(seen@[seen@.len() - 1] == f);
                        }
                    }
                }
            }
            let rem = limit - total;
            let mut fits = tok[x] <= rem;
            let mut cost = tok[x];
            if fits && fresh && !single {
                let rem2 = rem - tok[x];
                if ntok[f] <= rem2 && FILE_OVERHEAD <= rem2 - ntok[f] {
                    cost = tok[x] + ntok[f] + FILE_OVERHEAD;
                } else {
                    fits = false;
                }
            }
            if !fits {
                proof {
                    assert(select_prefix(order@, i as int + 1, b).stopped);
                    lemma_stopped_stays(order@, i as int + 1, order@.len() as int, b);
                }
                return (taken, seen);
            }
            total = total + cost;
            taken.push(x);
        }
        i += 1;
        proof {
            assert(select_prefix(order@, i as int, b) == (SelState {
                total: total as int,
                taken: taken@,
                seen: seen@,
                stopped: false,
            }));
        }
    }
    (taken, seen)
}

} // verus!
