//! Predicted durations: `est(diff, skill) = max(1, Σ_k max(0, diff[k] − skill[k]))`.
use vstd::prelude::*;

verus! {

/// How far a skill level falls short of a difficulty level.
pub open spec fn shortfall(d: i32, s: i32) -> int {
    if d - s > 0 {
        d - s
    } else {
        0
    }
}

/// Sum of the shortfalls over the first `n` dimensions.
pub open spec fn shortfall_sum(diff: Seq<i32>, skills: Seq<i32>, n: nat) -> int
    decreases n,
{
    if n == 0 {
        0
    } else {
        shortfall_sum(diff, skills, (n - 1) as nat) + shortfall(diff[n - 1], skills[n - 1])
    }
}

/// The predicted number of days a worker with `skills` needs for a task of
/// difficulty `diff`.
pub open spec fn est(diff: Seq<i32>, skills: Seq<i32>) -> int {
    let s = shortfall_sum(diff, skills, diff.len());
    if s < 1 {
        1
    } else {
        s
    }
}

/// Sum of the squares of the first `n` levels.
pub open spec fn norm_sum(diff: Seq<i32>, n: nat) -> int
    decreases n,
{
    if n == 0 {
        0
    } else {
        norm_sum(diff, (n - 1) as nat) + diff[n - 1] * diff[n - 1]
    }
}

/// Every level is non-negative.
pub open spec fn valid_levels(v: Seq<i32>) -> bool {
    forall|i: int| 0 <= i < v.len() ==> 0 <= #[trigger] v[i]
}

/// A difficulty vector: non-negative levels whose squared norm fits an `i32`.
pub open spec fn valid_difficulty(diff: Seq<i32>) -> bool {
    valid_levels(diff) && norm_sum(diff, diff.len()) <= i32::MAX
}

proof fn lemma_norm_monotone(diff: Seq<i32>, a: nat, b: nat)
    requires
        valid_levels(diff),
        a <= b <= diff.len(),
    ensures
        0 <= norm_sum(diff, a) <= norm_sum(diff, b),
    decreases b,
{
    if b > a {
        lemma_norm_monotone(diff, a, (b - 1) as nat);
        let d = diff[b - 1] as int;
        assert(d * d >= 0) by (nonlinear_arith);
    } else if a > 0 {
        lemma_norm_monotone(diff, 0, (a - 1) as nat);
        let d = diff[a - 1] as int;
        assert(d * d >= 0) by (nonlinear_arith);
    }
}

/// Sum of the first `n` levels.
pub open spec fn level_sum(diff: Seq<i32>, n: nat) -> int
    decreases n,
{
    if n == 0 {
        0
    } else {
        level_sum(diff, (n - 1) as nat) + diff[n - 1]
    }
}

/// What the estimate needs: non-negative levels, skills for every dimension
/// of the difficulty, and a level sum that fits an `i32`.
pub open spec fn estimable(diff: Seq<i32>, skills: Seq<i32>) -> bool {
    &&& valid_levels(diff)
    &&& valid_levels(skills)
    &&& diff.len() <= skills.len()
    &&& level_sum(diff, diff.len()) <= i32::MAX
}

proof fn lemma_levels_monotone(diff: Seq<i32>, a: nat, b: nat)
    requires
        valid_levels(diff),
        a <= b <= diff.len(),
    ensures
        0 <= level_sum(diff, a) <= level_sum(diff, b),
    decreases b,
{
    if b > a {
        lemma_levels_monotone(diff, a, (b - 1) as nat);
    } else if a > 0 {
        lemma_levels_monotone(diff, 0, (a - 1) as nat);
    }
}

/// The shortfall sum is bounded by the level sum of the difficulty.
proof fn lemma_shortfall_bounded(diff: Seq<i32>, skills: Seq<i32>, n: nat)
    requires
        valid_levels(diff),
        valid_levels(skills),
        n <= diff.len() <= skills.len(),
    ensures
        0 <= shortfall_sum(diff, skills, n) <= level_sum(diff, n),
    decreases n,
{
    if n > 0 {
        lemma_shortfall_bounded(diff, skills, (n - 1) as nat);
    }
}

/// The level sum is bounded by the squared norm.
proof fn lemma_levels_below_norm(diff: Seq<i32>, n: nat)
    requires
        valid_levels(diff),
        n <= diff.len(),
    ensures
        level_sum(diff, n) <= norm_sum(diff, n),
    decreases n,
{
    if n > 0 {
        lemma_levels_below_norm(diff, (n - 1) as nat);
        let d = diff[n - 1] as int;
        assert(0 <= d ==> d <= d * d || d == 0) by (nonlinear_arith);
    }
}

/// A task's difficulty and a worker's skills of the same dimension can be
/// estimated.
pub proof fn lemma_difficulty_estimable(diff: Seq<i32>, skills: Seq<i32>)
    requires
        valid_difficulty(diff),
        valid_levels(skills),
        diff.len() <= skills.len(),
    ensures
        estimable(diff, skills),
{
    lemma_levels_below_norm(diff, diff.len());
}

/// A predicted duration is never below one day.
pub proof fn lemma_est_at_least_one(diff: Seq<i32>, skills: Seq<i32>)
    ensures
        est(diff, skills) >= 1,
{
}

/// A predicted duration for a valid task and valid skills fits an `i32`.
pub proof fn lemma_est_fits(diff: Seq<i32>, skills: Seq<i32>)
    requires
        valid_difficulty(diff),
        valid_levels(skills),
        diff.len() == skills.len(),
    ensures
        1 <= est(diff, skills) <= i32::MAX,
{
    lemma_levels_below_norm(diff, diff.len());
    lemma_shortfall_bounded(diff, skills, diff.len());
}

/// Computes `est(diff, skills)`.
pub fn est_elapsed_days(diff: &Vec<i32>, skills: &Vec<i32>) -> (r: i32)
    requires
        estimable(diff@, skills@),
    ensures
        r == est(diff@, skills@),
        r >= 1,
{
    let n = diff.len();
    let mut sum: i32 = 0;
    let mut k: usize = 0;
    while k < n
        invariant
            n == diff@.len(),
            estimable(diff@, skills@),
            k <= n,
            sum == shortfall_sum(diff@, skills@, k as nat),
        decreases n - k,
    {
        proof {
            lemma_shortfall_bounded(diff@, skills@, (k + 1) as nat);
            lemma_levels_monotone(diff@, (k + 1) as nat, n as nat);
        }
        let d = diff[k];
        let s = skills[k];
        if d - s > 0 {
            sum = sum + (d - s);
        }
        k = k + 1;
    }
    if sum < 1 {
        1
    } else {
        sum
    }
}

/// Computes `Σ_k diff[k]²`.
pub fn squared_norm(diff: &Vec<i32>) -> (r: i32)
    requires
        valid_difficulty(diff@),
    ensures
        r == norm_sum(diff@, diff@.len()),
        r >= 0,
{
    let n = diff.len();
    let mut sum: i32 = 0;
    let mut k: usize = 0;
    while k < n
        invariant
            n == diff@.len(),
            valid_difficulty(diff@),
            k <= n,
            sum == norm_sum(diff@, k as nat),
        decreases n - k,
    {
        proof {
            lemma_norm_monotone(diff@, (k + 1) as nat, n as nat);
            lemma_norm_monotone(diff@, k as nat, (k + 1) as nat);
            let d = diff@[k as int] as int;
            assert(0 <= d ==> d <= d * d || d == 0) by (nonlinear_arith);
        }
        let d = diff[k];
        sum = sum + d * d;
        k = k + 1;
    }
    proof {
        lemma_norm_monotone(diff@, 0, n as nat);
    }
    sum
}

} // verus!
