use vstd::prelude::*;
use crate::mode::GangMode;
use crate::tasks::{TaskStats, is_safe_task, is_ranking, safe_of, ranking_of, safe_task, rank_candidates};

verus! {

/// The task a member is given for this tick.
#[derive(Clone, Copy, Debug, PartialEq, Eq, Structural)]
pub enum Assignment {
    /// The fixed territory warfare task, outside the ranked task list.
    TerritoryWarfare,
    /// The task at this index of the task list.
    Task(usize),
}

/// Bound on the magnitude of a running wanted budget that one greedy step accepts.
pub const BUDGET_LIMIT: i128 = 1267650600228229401496703205376;

// A risk table gives, for each member in order, a row: that member's wanted
// level gain on each task of the task list, in fixed point.

/// Taking `task` instead of the safe task keeps `budget` plus the extra gain positive.
pub open spec fn fits(budget: int, row: Seq<i32>, safe: int, task: int) -> bool {
    budget + (row[task] - row[safe]) > 0
}

/// The first candidate, in ranked order, that fits in `budget`.
pub open spec fn first_fit(budget: int, row: Seq<i32>, safe: int, cands: Seq<usize>) -> Option<usize>
    decreases cands.len(),
{
    if cands.len() == 0 {
        None
    } else if fits(budget, row, safe, cands[0] as int) {
        Some(cands[0])
    } else {
        first_fit(budget, row, safe, cands.drop_first())
    }
}

/// The budget after one member's step: the chosen task's extra gain is taken off.
pub open spec fn budget_after(budget: int, row: Seq<i32>, safe: int, cands: Seq<usize>) -> int {
    match first_fit(budget, row, safe, cands) {
        Some(t) => budget - (row[t as int] - row[safe]),
        None => budget,
    }
}

/// What one member is given: the first candidate that fits, else the safe task.
pub open spec fn pick(budget: int, row: Seq<i32>, safe: int, cands: Seq<usize>) -> Assignment {
    match first_fit(budget, row, safe, cands) {
        Some(t) => Assignment::Task(t),
        None => Assignment::Task(safe as usize),
    }
}

/// The sum of the first `k` members' wanted gains on the safe task.
pub open spec fn baseline_budget(gains: Seq<Vec<i32>>, safe: int, k: nat) -> int
    decreases k,
{
    if k == 0 {
        0
    } else {
        baseline_budget(gains, safe, (k - 1) as nat) + gains[k - 1]@[safe]
    }
}

/// The greedy pass over the first `k` members, from `budget`: their tasks, and
/// the budget left.
pub open spec fn greedy(budget: int, gains: Seq<Vec<i32>>, safe: int, cands: Seq<usize>, k: nat) -> (Seq<Assignment>, int)
    decreases k,
{
    if k == 0 {
        (Seq::empty(), budget)
    } else {
        let (done, b) = greedy(budget, gains, safe, cands, (k - 1) as nat);
        let row = gains[k - 1]@;
        (done.push(pick(b, row, safe, cands)), budget_after(b, row, safe, cands))
    }
}

/// The tasks of `members` members under `goal`, with safe task `safe`,
/// candidates `cands`, and the risk table if the gain formulas are available.
pub open spec fn plan(goal: GangMode, members: nat, safe: int, cands: Seq<usize>, gains: Option<Seq<Vec<i32>>>) -> Seq<Assignment> {
    match goal {
        GangMode::Territory { .. } => Seq::new(members, |_i: int| Assignment::TerritoryWarfare),
        _ => match gains {
            None => Seq::new(members, |_i: int| Assignment::Task(safe as usize)),
            Some(g) => greedy(baseline_budget(g, safe, g.len()), g, safe, cands, g.len()).0,
        },
    }
}

/// The rows of a risk table, if there is one.
pub open spec fn rows_of(gains: Option<&Vec<Vec<i32>>>) -> Option<Seq<Vec<i32>>> {
    match gains {
        Some(g) => Some(g@),
        None => None,
    }
}

/// A risk table with one row per member and one entry per task.
pub open spec fn table_fits(gains: Seq<Vec<i32>>, members: nat, n_tasks: nat) -> bool {
    gains.len() == members && forall|w: int| 0 <= w < gains.len() ==> (#[trigger] gains[w])@.len() == n_tasks
}

/// The wanted budget of the baseline: every member's gain on the safe task, summed.
pub fn wanted_budget(gains: &Vec<Vec<i32>>, safe: usize) -> (b: i128)
    requires
        forall|w: int| 0 <= w < gains.len() ==> safe < (#[trigger] gains@[w])@.len(),
    ensures
        b as int == baseline_budget(gains@, safe as int, gains.len() as nat),
        -(gains.len() as int) * 2147483648 <= b <= gains.len() as int * 2147483648,
{
    let mut b: i128 = 0;
    let mut w: usize = 0;
    while w < gains.len()
        invariant
            w <= gains.len(),
            forall|v: int| 0 <= v < gains.len() ==> safe < (#[trigger] gains@[v])@.len(),
            b as int == baseline_budget(gains@, safe as int, w as nat),
            -(w as int) * 2147483648 <= b <= w as int * 2147483648,
        decreases gains.len() - w,
    {
        let row = &gains[w];
        b = b + row[safe] as i128;
        w = w + 1;
    }
    b
}

/// One member's step of the greedy pass: the first candidate that fits in
/// `budget`, if any, and the budget once that candidate's extra gain over the
/// safe task is taken off.
pub fn upgrade_step(budget: i128, row: &Vec<i32>, safe: usize, cands: &Vec<usize>) -> (r: (Option<usize>, i128))
    requires
        -BUDGET_LIMIT <= budget <= BUDGET_LIMIT,
        safe < row.len(),
        forall|i: int| 0 <= i < cands.len() ==> #[trigger] cands@[i] < row.len(),
    ensures
        r.0 == first_fit(budget as int, row@, safe as int, cands@),
        r.1 as int == budget_after(budget as int, row@, safe as int, cands@),
        budget - 4294967296 <= r.1 <= budget + 4294967296,
{
    let mut i: usize = 0;
    proof {
        assert(cands@.subrange(0, cands.len() as int) =~= cands@);
    }
    while i < cands.len()
        invariant
            i <= cands.len(),
            -BUDGET_LIMIT <= budget <= BUDGET_LIMIT,
            safe < row.len(),
            forall|i: int| 0 <= i < cands.len() ==> #[trigger] cands@[i] < row.len(),
            first_fit(budget as int, row@, safe as int, cands@)
                == first_fit(budget as int, row@, safe as int, cands@.subrange(i as int, cands.len() as int)),
        decreases cands.len() - i,
    {
        let ghost rest = cands@.subrange(i as int, cands.len() as int);
        proof {
            assert(rest.drop_first() =~= cands@.subrange(i + 1, cands.len() as int));
            assert(rest[0] == cands@[i as int]);
        }
        let t = cands[i];
        let delta = row[t] as i64 - row[safe] as i64;
        if budget + delta as i128 > 0 {
            return (Some(t), budget - delta as i128);
        }
        i = i + 1;
    }
    proof {
        assert(cands@.subrange(i as int, cands.len() as int).len() == 0);
    }
    (None, budget)
}

/// Assigns every one of `members` members a task for this tick.
///
/// Under territory warfare everyone fights. Otherwise everyone starts on the
/// safe task; with a risk table (the gain formulas are available) each member
/// in turn then takes the first ranked candidate that fits in the shared
/// wanted budget, which starts as the baseline's sum.
pub fn allocate(goal: GangMode, members: usize, tasks: &Vec<TaskStats>, gains: Option<&Vec<Vec<i32>>>) -> (r: Vec<Assignment>)
    requires
        tasks.len() > 0,
        gains matches Some(g) ==> table_fits(g@, members as nat, tasks.len() as nat),
    ensures
        r.len() == members,
        r@ == plan(goal, members as nat, safe_of(tasks@), ranking_of(goal, tasks@), rows_of(gains)),
{
    let safe = safe_task(tasks);
    let mut r: Vec<Assignment> = Vec::new();
    if let GangMode::Territory { .. } = goal {
        while r.len() < members
            invariant
                r.len() <= members,
                forall|i: int| 0 <= i < r.len() ==> r@[i] == Assignment::TerritoryWarfare,
            decreases members - r.len(),
        {
            r.push(Assignment::TerritoryWarfare);
        }
        proof {
            assert(r@ =~= plan(goal, members as nat, safe as int, ranking_of(goal, tasks@), rows_of(gains)));
        }
        return r;
    }
    match gains {
        None => {
            while r.len() < members
                invariant
                    r.len() <= members,
                    forall|i: int| 0 <= i < r.len() ==> r@[i] == Assignment::Task(safe),
                decreases members - r.len(),
            {
                r.push(Assignment::Task(safe));
            }
            proof {
                assert(r@ =~= plan(goal, members as nat, safe as int, ranking_of(goal, tasks@), rows_of(gains)));
            }
            r
        },
        Some(g) => {
            let cands = rank_candidates(goal, tasks);
            let start = wanted_budget(g, safe);
            let ghost b0 = start as int;
            let mut budget = start;
            let mut w: usize = 0;
            while w < g.len()
                invariant
                    w <= g.len(),
                    r.len() == w,
                    g.len() == members,
                    table_fits(g@, members as nat, tasks.len() as nat),
                    safe < tasks.len(),
                    is_ranking(goal, tasks@, cands@),
                    -(g.len() as int) * 2147483648 <= b0 <= g.len() as int * 2147483648,
                    -(g.len() as int + 2 * w) * 2147483648 <= budget <= (g.len() as int + 2 * w) * 2147483648,
                    (r@, budget as int) == greedy(b0, g@, safe as int, cands@, w as nat),
                decreases g.len() - w,
            {
                let row = &g[w];
                proof {
                    assert(-BUDGET_LIMIT <= budget <= BUDGET_LIMIT);
                    assert(row@.len() == tasks.len());
                    assert forall|i: int| 0 <= i < cands.len() implies #[trigger] cands@[i] < row.len() by {
                        assert(cands@[i] < tasks.len());
                    }
                }
                let (choice, next) = upgrade_step(budget, row, safe, &cands);
                match choice {
                    Some(t) => r.push(Assignment::Task(t)),
                    None => r.push(Assignment::Task(safe)),
                }
                budget = next;
                w = w + 1;
            }
            proof {
                assert(b0 == baseline_budget(g@, safe as int, g.len() as nat));
                assert(r@ == plan(goal, members as nat, safe as int, cands@, rows_of(gains)));
            }
            r
        },
    }
}

/// The game's name of the territory warfare task.
pub open spec fn territory_task_name() -> Seq<char> {
    "Territory Warfare"@
}

/// The name of the task a member is to be set to.
pub fn task_name(a: Assignment, tasks: &Vec<TaskStats>) -> (r: String)
    requires
        a matches Assignment::Task(t) ==> t < tasks.len(),
    ensures
        a is TerritoryWarfare ==> r@ == territory_task_name(),
        a matches Assignment::Task(t) ==> r@ == tasks@[t as int].name@,
{
    match a {
        Assignment::TerritoryWarfare => "Territory Warfare".to_owned(),
        Assignment::Task(t) => tasks[t].name.clone(),
    }
}

/// A candidate found by `first_fit` is one of the candidates, and fits.
pub proof fn lemma_first_fit_in(budget: int, row: Seq<i32>, safe: int, cands: Seq<usize>)
    ensures
        first_fit(budget, row, safe, cands) matches Some(t)
            ==> cands.contains(t) && fits(budget, row, safe, t as int),
    decreases cands.len(),
{
    if cands.len() > 0 && !fits(budget, row, safe, cands[0] as int) {
        lemma_first_fit_in(budget, row, safe, cands.drop_first());
        if let Some(t) = first_fit(budget, row, safe, cands) {
            let i = choose|i: int| 0 <= i < cands.drop_first().len() && cands.drop_first()[i] == t;
            assert(cands[i + 1] == t);
        }
    }
    if cands.len() > 0 && fits(budget, row, safe, cands[0] as int) {
        assert(cands[0] == cands[0]);
    }
}

/// With no candidate fitting, `first_fit` finds nothing.
proof fn lemma_first_fit_none(budget: int, row: Seq<i32>, safe: int, cands: Seq<usize>)
    requires
        forall|i: int| 0 <= i < cands.len() ==> !fits(budget, row, safe, #[trigger] cands[i] as int),
    ensures
        first_fit(budget, row, safe, cands) is None,
    decreases cands.len(),
{
    if cands.len() > 0 {
        assert(!fits(budget, row, safe, cands[0] as int));
        assert forall|i: int| 0 <= i < cands.drop_first().len()
            implies !fits(budget, row, safe, #[trigger] cands.drop_first()[i] as int) by {
            assert(cands.drop_first()[i] == cands[i + 1]);
        }
        lemma_first_fit_none(budget, row, safe, cands.drop_first());
    }
}

/// The greedy pass gives one task per member, each member's chosen from the
/// budget left by those before it.
pub proof fn lemma_greedy_shape(budget: int, gains: Seq<Vec<i32>>, safe: int, cands: Seq<usize>, k: nat)
    ensures
        greedy(budget, gains, safe, cands, k).0.len() == k,
        forall|w: int| 0 <= w < k ==> #[trigger] greedy(budget, gains, safe, cands, k).0[w]
            == pick(greedy(budget, gains, safe, cands, w as nat).1, gains[w]@, safe, cands),
    decreases k,
{
    if k > 0 {
        lemma_greedy_shape(budget, gains, safe, cands, (k - 1) as nat);
        let prev = greedy(budget, gains, safe, cands, (k - 1) as nat);
        assert forall|w: int| 0 <= w < k implies #[trigger] greedy(budget, gains, safe, cands, k).0[w]
            == pick(greedy(budget, gains, safe, cands, w as nat).1, gains[w]@, safe, cands) by {
            if w < k - 1 {
                assert(greedy(budget, gains, safe, cands, k).0[w] == prev.0[w]);
            }
        }
    }
}

/// A member's pick is the safe task or one of the candidates.
proof fn lemma_pick_in(budget: int, row: Seq<i32>, safe: int, cands: Seq<usize>)
    ensures
        pick(budget, row, safe, cands) matches Assignment::Task(t)
            && (t == safe as usize || cands.contains(t)),
{
    lemma_first_fit_in(budget, row, safe, cands);
}

/// Every member ends the tick with exactly one task: the plan has one entry
/// per member, territory warfare under that mode and a listed task otherwise.
pub proof fn lemma_one_task_each(goal: GangMode, members: nat, tasks: Seq<TaskStats>, safe: int, cands: Seq<usize>, gains: Option<Seq<Vec<i32>>>)
    requires
        is_safe_task(tasks, safe),
        goal is Territory || gains is None || is_ranking(goal, tasks, cands),
        gains matches Some(g) ==> table_fits(g, members, tasks.len()),
    ensures
        plan(goal, members, safe, cands, gains).len() == members,
        forall|w: int| 0 <= w < members ==> {
            let a = #[trigger] plan(goal, members, safe, cands, gains)[w];
            if goal is Territory {
                a == Assignment::TerritoryWarfare
            } else {
                a matches Assignment::Task(t) && t < tasks.len()
            }
        },
{
    if let Some(g) = gains {
        if !(goal is Territory) {
            let b0 = baseline_budget(g, safe, g.len());
            lemma_greedy_shape(b0, g, safe, cands, g.len());
            assert forall|w: int| 0 <= w < members implies
                (#[trigger] plan(goal, members, safe, cands, gains)[w] matches Assignment::Task(t)
                    && t < tasks.len()) by {
                let b = greedy(b0, g, safe, cands, w as nat).1;
                lemma_pick_in(b, g[w]@, safe, cands);
                if let Assignment::Task(t) = pick(b, g[w]@, safe, cands) {
                    if t != safe as usize {
                        let i = choose|i: int| 0 <= i < cands.len() && cands[i] == t;
                        assert(cands[i] < tasks.len());
                    }
                }
            }
        }
    }
}

/// Each upgrade is taken only where the running budget plus the upgrade's
/// extra wanted gain stays positive.
pub proof fn lemma_upgrades_fit(budget: int, gains: Seq<Vec<i32>>, safe: int, cands: Seq<usize>, k: nat)
    ensures
        forall|w: int| 0 <= w < k ==> (first_fit(#[trigger] greedy(budget, gains, safe, cands, w as nat).1, gains[w]@, safe, cands)
            matches Some(t) ==> fits(greedy(budget, gains, safe, cands, w as nat).1, gains[w]@, safe, t as int)),
{
    assert forall|w: int| 0 <= w < k implies (first_fit(#[trigger] greedy(budget, gains, safe, cands, w as nat).1, gains[w]@, safe, cands)
        matches Some(t) ==> fits(greedy(budget, gains, safe, cands, w as nat).1, gains[w]@, safe, t as int)) by {
        lemma_first_fit_in(greedy(budget, gains, safe, cands, w as nat).1, gains[w]@, safe, cands);
    }
}

/// The wanted gain of the first `k` members on the tasks `given` them.
pub open spec fn load(gains: Seq<Vec<i32>>, given: Seq<Assignment>, k: nat) -> int
    decreases k,
{
    if k == 0 {
        0
    } else {
        load(gains, given, (k - 1) as nat) + match given[k - 1] {
            Assignment::Task(t) => gains[k - 1]@[t as int] as int,
            Assignment::TerritoryWarfare => 0int,
        }
    }
}

/// Where no candidate lowers any member's wanted gain below the safe task's,
/// the wanted gain of the members on their assigned tasks, summed again after
/// the greedy pass, is at least the baseline budget: never negative when the
/// baseline was not.
pub proof fn lemma_recomputed_budget_kept(gains: Seq<Vec<i32>>, safe: usize, cands: Seq<usize>)
    requires
        forall|w: int, i: int| 0 <= w < gains.len() && 0 <= i < cands.len()
            ==> gains[w]@[#[trigger] cands[i] as int] >= (#[trigger] gains[w])@[safe as int],
    ensures
        load(gains, greedy(baseline_budget(gains, safe as int, gains.len()), gains, safe as int, cands, gains.len()).0, gains.len())
            >= baseline_budget(gains, safe as int, gains.len()),
        baseline_budget(gains, safe as int, gains.len()) >= 0 ==> load(gains,
            greedy(baseline_budget(gains, safe as int, gains.len()), gains, safe as int, cands, gains.len()).0, gains.len()) >= 0,
{
    let b0 = baseline_budget(gains, safe as int, gains.len());
    let given = greedy(b0, gains, safe as int, cands, gains.len()).0;
    lemma_greedy_shape(b0, gains, safe as int, cands, gains.len());
    lemma_load_at_least_baseline(gains, given, safe, cands, b0, gains.len());
}

proof fn lemma_load_at_least_baseline(gains: Seq<Vec<i32>>, given: Seq<Assignment>, safe: usize, cands: Seq<usize>, b0: int, k: nat)
    requires
        k <= gains.len(),
        given == greedy(b0, gains, safe as int, cands, gains.len()).0,
        forall|w: int| 0 <= w < gains.len() ==> #[trigger] greedy(b0, gains, safe as int, cands, gains.len()).0[w]
            == pick(greedy(b0, gains, safe as int, cands, w as nat).1, gains[w]@, safe as int, cands),
        forall|w: int, i: int| 0 <= w < gains.len() && 0 <= i < cands.len()
            ==> gains[w]@[#[trigger] cands[i] as int] >= (#[trigger] gains[w])@[safe as int],
    ensures
        load(gains, given, k) >= baseline_budget(gains, safe as int, k),
    decreases k,
{
    if k > 0 {
        lemma_load_at_least_baseline(gains, given, safe, cands, b0, (k - 1) as nat);
        let w = k - 1;
        let b = greedy(b0, gains, safe as int, cands, w as nat).1;
        assert(given[w] == pick(b, gains[w]@, safe as int, cands));
        lemma_pick_in(b, gains[w]@, safe as int, cands);
        if let Assignment::Task(t) = given[w] {
            if t != safe as usize {
                let i = choose|i: int| 0 <= i < cands.len() && cands[i] == t;
                assert(gains[w]@[cands[i] as int] >= gains[w]@[safe as int]);
            }
        }
    }
}

/// A greedy pass where no candidate fits in the budget for any member changes
/// nothing: every member stays on the safe task and the budget is untouched.
pub proof fn lemma_no_fit_no_change(budget: int, gains: Seq<Vec<i32>>, safe: int, cands: Seq<usize>, k: nat)
    requires
        k <= gains.len(),
        forall|w: int, i: int| 0 <= w < k && 0 <= i < cands.len()
            ==> !fits(budget, #[trigger] gains[w]@, safe, #[trigger] cands[i] as int),
    ensures
        greedy(budget, gains, safe, cands, k).0 == Seq::new(k, |_i: int| Assignment::Task(safe as usize)),
        greedy(budget, gains, safe, cands, k).1 == budget,
    decreases k,
{
    if k > 0 {
        lemma_no_fit_no_change(budget, gains, safe, cands, (k - 1) as nat);
        let row = gains[k - 1]@;
        assert forall|i: int| 0 <= i < cands.len() implies !fits(budget, row, safe, #[trigger] cands[i] as int) by {
            assert(!fits(budget, gains[k - 1]@, safe, cands[i] as int));
        }
        lemma_first_fit_none(budget, row, safe, cands);
        assert(greedy(budget, gains, safe, cands, k).0 =~= Seq::new(k, |_i: int| Assignment::Task(safe as usize)));
    }
}

/// Allocating again when no candidate improves any member within the baseline
/// budget leaves every member's task as the baseline set it.
pub proof fn lemma_settled_allocation_unchanged(goal: GangMode, members: nat, safe: int, cands: Seq<usize>, gains: Seq<Vec<i32>>)
    requires
        gains.len() == members,
        forall|w: int, i: int| 0 <= w < members && 0 <= i < cands.len()
            ==> !fits(baseline_budget(gains, safe, members), #[trigger] gains[w]@, safe, #[trigger] cands[i] as int),
    ensures
        plan(goal, members, safe, cands, Some(gains)) == plan(goal, members, safe, cands, None),
{
    lemma_no_fit_no_change(baseline_budget(gains, safe, members), gains, safe, cands, members);
}

} // verus!
