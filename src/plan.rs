//! The chunk plan: the byte lengths of the chunks that a file of a given length
//! is cut into.
//!
//! The plan starts as the single element `total` and is refined in passes. A
//! pass visits each element that was present when the pass started; one that is
//! not below the limit is replaced by its lower half, and its upper half is
//! appended at the end. Passes repeat until every element is below the limit.
use vstd::prelude::*;

verus! {

/// Sum of a sequence of lengths.
pub open spec fn sum(s: Seq<u64>) -> int
    decreases s.len(),
{
    if s.len() == 0 {
        0
    } else {
        sum(s.drop_last()) + s.last()
    }
}

/// Every element of `s` is strictly below `limit`.
pub open spec fn all_below_spec(s: Seq<u64>, limit: u64) -> bool {
    forall|i: int| 0 <= i < s.len() ==> s[i] < limit
}

/// Every element of `s` is at most `bound`.
pub open spec fn all_at_most(s: Seq<u64>, bound: nat) -> bool {
    forall|i: int| 0 <= i < s.len() ==> s[i] <= bound
}

/// The element that a pass leaves in place of `x`.
pub open spec fn lower_half(x: u64, limit: u64) -> u64 {
    if x >= limit {
        (x / 2) as u64
    } else {
        x
    }
}

/// The elements left in place by a pass over `s`.
pub open spec fn halve_all(s: Seq<u64>, limit: u64) -> Seq<u64> {
    s.map_values(|x: u64| lower_half(x, limit))
}

/// The elements appended by a pass over `s`, in the order of the elements they
/// come from.
pub open spec fn upper_halves(s: Seq<u64>, limit: u64) -> Seq<u64>
    decreases s.len(),
{
    if s.len() == 0 {
        Seq::empty()
    } else {
        let x = s.last();
        let rest = upper_halves(s.drop_last(), limit);
        if x >= limit {
            rest.push((x - x / 2) as u64)
        } else {
            rest
        }
    }
}

/// One pass of the planner over `s`.
pub open spec fn pass(s: Seq<u64>, limit: u64) -> Seq<u64> {
    halve_all(s, limit) + upper_halves(s, limit)
}

/// Passes over `s` until every element is below `limit`. `bound` is an upper
/// bound of the elements; each pass lowers the largest element by at least
/// one, so `bound` passes are enough whenever `limit >= 2`.
pub open spec fn plan_from(s: Seq<u64>, limit: u64, bound: nat) -> Seq<u64>
    decreases bound,
{
    if all_below_spec(s, limit) || bound == 0 {
        s
    } else {
        plan_from(pass(s, limit), limit, (bound - 1) as nat)
    }
}

/// The chunk plan of a file of `total` bytes under the limit `limit`.
pub open spec fn plan(total: u64, limit: u64) -> Seq<u64> {
    plan_from(seq![total], limit, total as nat)
}

/// The planner stops: either the limit is at least two, or nothing needs
/// splitting at all.
pub open spec fn plan_terminates(total: u64, limit: u64) -> bool {
    limit >= 2 || total < limit
}

pub proof fn lemma_sum_concat(a: Seq<u64>, b: Seq<u64>)
    ensures
        sum(a + b) == sum(a) + sum(b),
    decreases b.len(),
{
    if b.len() == 0 {
        assert(a + b =~= a);
    } else {
        assert((a + b).drop_last() =~= a + b.drop_last());
        lemma_sum_concat(a, b.drop_last());
    }
}

/// The sum of the first `k + 1` elements adds the element at `k`, and no prefix
/// sums to more than the whole.
pub proof fn lemma_sum_prefix(s: Seq<u64>, k: int)
    requires
        0 <= k < s.len(),
    ensures
        sum(s.take(k + 1)) == sum(s.take(k)) + s[k],
        sum(s.take(k + 1)) <= sum(s),
{
    assert(s.take(k + 1).drop_last() =~= s.take(k));
    assert(s =~= s.take(k + 1) + s.skip(k + 1));
    lemma_sum_concat(s.take(k + 1), s.skip(k + 1));
    lemma_sum_nonneg(s.skip(k + 1));
}

pub proof fn lemma_sum_nonneg(s: Seq<u64>)
    ensures
        sum(s) >= 0,
    decreases s.len(),
{
    if s.len() > 0 {
        lemma_sum_nonneg(s.drop_last());
    }
}

proof fn lemma_pass_sum(s: Seq<u64>, limit: u64)
    ensures
        sum(halve_all(s, limit)) + sum(upper_halves(s, limit)) == sum(s),
    decreases s.len(),
{
    if s.len() > 0 {
        let t = s.drop_last();
        let x = s.last();
        assert(halve_all(s, limit).drop_last() =~= halve_all(t, limit));
        assert(halve_all(s, limit).last() == lower_half(x, limit));
        lemma_pass_sum(t, limit);
        let rest = upper_halves(t, limit);
        if x >= limit {
            assert(rest.push((x - x / 2) as u64).drop_last() =~= rest);
        }
    } else {
        assert(halve_all(s, limit) =~= Seq::<u64>::empty());
    }
}

proof fn lemma_upper_halves_bound(s: Seq<u64>, limit: u64, bound: nat)
    requires
        all_at_most(s, bound),
        bound >= 2,
    ensures
        all_at_most(upper_halves(s, limit), (bound - 1) as nat),
    decreases s.len(),
{
    if s.len() > 0 {
        let t = s.drop_last();
        assert(all_at_most(t, bound)) by {
            assert forall|i: int| 0 <= i < t.len() implies t[i] <= bound by {
                assert(t[i] == s[i]);
            }
        }
        lemma_upper_halves_bound(t, limit, bound);
    }
}

proof fn lemma_pass_bound(s: Seq<u64>, limit: u64, bound: nat)
    requires
        all_at_most(s, bound),
        !all_below_spec(s, limit),
        limit >= 2,
    ensures
        bound >= 2,
        all_at_most(pass(s, limit), (bound - 1) as nat),
{
    let i = choose|i: int| 0 <= i < s.len() && !(s[i] < limit);
    assert(s[i] <= bound);
    lemma_upper_halves_bound(s, limit, bound);
    let p = pass(s, limit);
    let h = halve_all(s, limit);
    let u = upper_halves(s, limit);
    assert forall|j: int| 0 <= j < p.len() implies p[j] <= bound - 1 by {
        if j < h.len() {
            assert(p[j] == h[j]);
            assert(s[j] <= bound);
        } else {
            assert(p[j] == u[j - h.len()]);
        }
    }
}

/// The planner conserves the sum of the elements, whatever the number of passes.
proof fn lemma_plan_from_sum(s: Seq<u64>, limit: u64, bound: nat)
    ensures
        sum(plan_from(s, limit, bound)) == sum(s),
    decreases bound,
{
    if !(all_below_spec(s, limit) || bound == 0) {
        lemma_sum_concat(halve_all(s, limit), upper_halves(s, limit));
        lemma_pass_sum(s, limit);
        lemma_plan_from_sum(pass(s, limit), limit, (bound - 1) as nat);
    }
}

/// With enough passes, every element ends below the limit.
proof fn lemma_plan_from_below(s: Seq<u64>, limit: u64, bound: nat)
    requires
        all_at_most(s, bound),
        limit >= 2 || all_below_spec(s, limit),
    ensures
        all_below_spec(plan_from(s, limit, bound), limit),
    decreases bound,
{
    if !all_below_spec(s, limit) {
        if bound == 0 {
            let i = choose|i: int| 0 <= i < s.len() && !(s[i] < limit);
            assert(s[i] <= bound);
        } else {
            lemma_pass_bound(s, limit, bound);
            lemma_plan_from_below(pass(s, limit), limit, (bound - 1) as nat);
        }
    }
}

/// Every element of `s` is at least one.
pub open spec fn all_positive(s: Seq<u64>) -> bool {
    forall|i: int| 0 <= i < s.len() ==> s[i] >= 1
}

proof fn lemma_upper_halves_positive(s: Seq<u64>, limit: u64)
    requires
        all_positive(s),
    ensures
        all_positive(upper_halves(s, limit)),
    decreases s.len(),
{
    if s.len() > 0 {
        let t = s.drop_last();
        assert(all_positive(t)) by {
            assert forall|i: int| 0 <= i < t.len() implies t[i] >= 1 by {
                assert(t[i] == s[i]);
            }
        }
        lemma_upper_halves_positive(t, limit);
        assert(s.last() == s[s.len() - 1]);
    }
}

proof fn lemma_plan_from_positive(s: Seq<u64>, limit: u64, bound: nat)
    requires
        all_positive(s),
        limit >= 2,
    ensures
        all_positive(plan_from(s, limit, bound)),
    decreases bound,
{
    if !(all_below_spec(s, limit) || bound == 0) {
        lemma_upper_halves_positive(s, limit);
        let h = halve_all(s, limit);
        let u = upper_halves(s, limit);
        let p = pass(s, limit);
        assert forall|j: int| 0 <= j < p.len() implies p[j] >= 1 by {
            if j < h.len() {
                assert(p[j] == h[j]);
                assert(s[j] >= 1);
            } else {
                assert(p[j] == u[j - h.len()]);
            }
        }
        lemma_plan_from_positive(p, limit, (bound - 1) as nat);
    }
}

proof fn lemma_len_at_most_sum(s: Seq<u64>)
    requires
        all_positive(s),
    ensures
        s.len() <= sum(s),
    decreases s.len(),
{
    if s.len() > 0 {
        let t = s.drop_last();
        assert forall|i: int| 0 <= i < t.len() implies t[i] >= 1 by {
            assert(t[i] == s[i]);
        }
        lemma_len_at_most_sum(t);
        assert(s.last() == s[s.len() - 1]);
    }
}

/// A plan has no more chunks than the total has bytes.
pub proof fn lemma_plan_len(total: u64, limit: u64)
    requires
        plan_terminates(total, limit),
        total >= 1,
    ensures
        plan(total, limit).len() <= total,
{
    if limit >= 2 {
        lemma_plan_from_positive(seq![total], limit, total as nat);
    } else {
        assert(plan(total, limit) == seq![total]);
    }
    assert(all_positive(plan(total, limit)));
    lemma_len_at_most_sum(plan(total, limit));
    lemma_plan_sum(total, limit);
}

/// The chunk lengths of a plan add up to the total that was planned.
pub proof fn lemma_plan_sum(total: u64, limit: u64)
    requires
        plan_terminates(total, limit),
    ensures
        sum(plan(total, limit)) == total,
{
    lemma_plan_from_sum(seq![total], limit, total as nat);
    assert(seq![total].drop_last() =~= Seq::<u64>::empty());
    assert(sum(seq![total]) == sum(Seq::<u64>::empty()) + total);
}

/// Every chunk length of a plan is strictly below the limit.
pub proof fn lemma_plan_below_limit(total: u64, limit: u64)
    requires
        plan_terminates(total, limit),
    ensures
        all_below_spec(plan(total, limit), limit),
{
    lemma_plan_from_below(seq![total], limit, total as nat);
}

/// Tells whether every element of `parts` is below `limit`.
pub fn all_below(parts: &Vec<u64>, limit: u64) -> (r: bool)
    ensures
        r == all_below_spec(parts@, limit),
{
    let mut i: usize = 0;
    while i < parts.len()
        invariant
            i <= parts@.len(),
            forall|j: int| 0 <= j < i ==> parts@[j] < limit,
        decreases parts@.len() - i,
    {
        if parts[i] >= limit {
            return false;
        }
        i = i + 1;
    }
    true
}

/// Runs one pass of the planner over `parts`.
fn halve_pass(parts: &mut Vec<u64>, limit: u64)
    ensures
        final(parts)@ == pass(old(parts)@, limit),
{
    let n = parts.len();
    let ghost start = parts@;
    for index in 0..n
        invariant
            n == start.len(),
            parts@ == halve_all(start.take(index as int), limit) + start.subrange(index as int, n as int)
                + upper_halves(start.take(index as int), limit),
    {
        let ghost before = parts@;
        let part = parts[index];
        let ghost pre = start.take(index as int);
        let ghost post = start.take(index as int + 1);
        assert(post.drop_last() =~= pre);
        assert(post.last() == part);
        assert(halve_all(post, limit) =~= halve_all(pre, limit).push(lower_half(part, limit)));
        if part >= limit {
            let half = part / 2;
            parts.set(index, half);
            parts.push(half + part % 2);
            assert(parts@ =~= halve_all(post, limit) + start.subrange(index as int + 1, n as int)
                + upper_halves(post, limit));
        } else {
            assert(parts@ =~= halve_all(post, limit) + start.subrange(index as int + 1, n as int)
                + upper_halves(post, limit));
        }
    }
    assert(start.take(n as int) =~= start);
    assert(parts@ =~= pass(start, limit));
}

/// Splits `initial_part` into chunk lengths that are each below `split_size`.
///
/// The result is the plan described above, in the order the passes leave it
/// (not sorted). `split_parts(10, 3)` is `[2, 2, 1, 1, 2, 2]`.
pub fn split_parts(initial_part: u64, split_size: u64) -> (parts: Vec<u64>)
    requires
        plan_terminates(initial_part, split_size),
    ensures
        parts@ == plan(initial_part, split_size),
        sum(parts@) == initial_part,
        all_below_spec(parts@, split_size),
{
    let mut parts: Vec<u64> = Vec::new();
    parts.push(initial_part);
    let ghost bound: nat = initial_part as nat;
    assert(parts@ =~= seq![initial_part]);
    while !all_below(&parts, split_size)
        invariant
            split_size >= 2 || all_below_spec(parts@, split_size),
            all_at_most(parts@, bound),
            plan_from(parts@, split_size, bound) == plan(initial_part, split_size),
        decreases bound,
    {
        proof {
            lemma_pass_bound(parts@, split_size, bound);
        }
        halve_pass(&mut parts, split_size);
        proof {
            bound = (bound - 1) as nat;
        }
    }
    proof {
        lemma_plan_sum(initial_part, split_size);
        lemma_plan_below_limit(initial_part, split_size);
    }
    parts
}

} // verus!
