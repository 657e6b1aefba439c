use vstd::prelude::*;
use crate::mode::GangMode;

verus! {

/// What one task yields per member, in fixed point (the unit is set by the caller).
#[derive(Debug)]
pub struct TaskStats {
    pub name: String,
    pub base_respect: i64,
    pub base_money: i64,
    pub base_wanted: i64,
}

/// `i` is the safe task: the lowest base wanted gain, the first such on a tie.
pub open spec fn is_safe_task(tasks: Seq<TaskStats>, i: int) -> bool {
    &&& 0 <= i < tasks.len()
    &&& forall|j: int| 0 <= j < tasks.len() ==> tasks[i].base_wanted <= #[trigger] tasks[j].base_wanted
    &&& forall|j: int| 0 <= j < i ==> tasks[i].base_wanted < #[trigger] tasks[j].base_wanted
}

/// The yield that `goal` ranks tasks by: respect, or money.
pub open spec fn gain_for(goal: GangMode, t: TaskStats) -> int {
    match goal {
        GangMode::Money => t.base_money as int,
        _ => t.base_respect as int,
    }
}

/// Task `a` is ranked before task `b`: it yields more, or as much and comes first.
pub open spec fn ranked_before(goal: GangMode, tasks: Seq<TaskStats>, a: int, b: int) -> bool {
    gain_for(goal, tasks[a]) > gain_for(goal, tasks[b])
        || (gain_for(goal, tasks[a]) == gain_for(goal, tasks[b]) && a < b)
}

/// `order` lists exactly the tasks with a positive yield for `goal`, best first.
pub open spec fn is_ranking(goal: GangMode, tasks: Seq<TaskStats>, order: Seq<usize>) -> bool {
    &&& forall|i: int| 0 <= i < order.len() ==> #[trigger] order[i] < tasks.len()
    &&& forall|k: int| 0 <= k < tasks.len()
            ==> (gain_for(goal, #[trigger] tasks[k]) > 0 <==> order.contains(k as usize))
    &&& forall|i: int, j: int| 0 <= i < j < order.len()
            ==> ranked_before(goal, tasks, #[trigger] order[i] as int, #[trigger] order[j] as int)
}

/// The safe task of a non-empty task list.
pub open spec fn safe_of(tasks: Seq<TaskStats>) -> int {
    choose|i: int| is_safe_task(tasks, i)
}

/// The ranked candidates for `goal`.
pub open spec fn ranking_of(goal: GangMode, tasks: Seq<TaskStats>) -> Seq<usize> {
    choose|order: Seq<usize>| is_ranking(goal, tasks, order)
}

/// There is one safe task only.
pub proof fn lemma_safe_task_unique(tasks: Seq<TaskStats>, i: int, j: int)
    requires
        is_safe_task(tasks, i),
        is_safe_task(tasks, j),
    ensures
        i == j,
{
    if i < j {
        assert(tasks[j].base_wanted < tasks[i].base_wanted);
    } else if j < i {
        assert(tasks[i].base_wanted < tasks[j].base_wanted);
    }
}

/// There is one ranking only.
pub proof fn lemma_ranking_unique(goal: GangMode, tasks: Seq<TaskStats>, a: Seq<usize>, b: Seq<usize>)
    requires
        is_ranking(goal, tasks, a),
        is_ranking(goal, tasks, b),
    ensures
        a == b,
{
    assert forall|x: usize| a.contains(x) <==> b.contains(x) by {
        if a.contains(x) {
            let i = choose|i: int| 0 <= i < a.len() && a[i] == x;
            assert(a[i] < tasks.len());
            assert(gain_for(goal, tasks[x as int]) > 0);
        }
        if b.contains(x) {
            let i = choose|i: int| 0 <= i < b.len() && b[i] == x;
            assert(b[i] < tasks.len());
            assert(gain_for(goal, tasks[x as int]) > 0);
        }
    }
    lemma_sorted_unique(goal, tasks, a, b);
}

/// Two sequences, each strictly in ranked order, that hold the same tasks are equal.
proof fn lemma_sorted_unique(goal: GangMode, tasks: Seq<TaskStats>, a: Seq<usize>, b: Seq<usize>)
    requires
        forall|i: int, j: int| 0 <= i < j < a.len()
            ==> ranked_before(goal, tasks, #[trigger] a[i] as int, #[trigger] a[j] as int),
        forall|i: int, j: int| 0 <= i < j < b.len()
            ==> ranked_before(goal, tasks, #[trigger] b[i] as int, #[trigger] b[j] as int),
        forall|x: usize| a.contains(x) <==> b.contains(x),
    ensures
        a == b,
    decreases a.len(),
{
    if a.len() == 0 {
        if b.len() > 0 {
            assert(b.contains(b[0]));
        }
        assert(a =~= b);
    } else {
        assert(a.contains(a[0]));
        assert(b.len() > 0);
        assert(b.contains(b[0]));
        if a[0] != b[0] {
            let j = choose|j: int| 0 <= j < b.len() && b[j] == a[0];
            let i = choose|i: int| 0 <= i < a.len() && a[i] == b[0];
            assert(ranked_before(goal, tasks, b[0] as int, b[j] as int));
            assert(ranked_before(goal, tasks, a[0] as int, a[i] as int));
        }
        let a1 = a.drop_first();
        let b1 = b.drop_first();
        assert forall|x: usize| a1.contains(x) <==> b1.contains(x) by {
            if a1.contains(x) {
                let i = choose|i: int| 0 <= i < a1.len() && a1[i] == x;
                assert(a[i + 1] == x);
                assert(ranked_before(goal, tasks, a[0] as int, a[i + 1] as int));
                assert(a.contains(x));
                let j = choose|j: int| 0 <= j < b.len() && b[j] == x;
                assert(j != 0);
                assert(b1[j - 1] == x);
            }
            if b1.contains(x) {
                let i = choose|i: int| 0 <= i < b1.len() && b1[i] == x;
                assert(b[i + 1] == x);
                assert(ranked_before(goal, tasks, b[0] as int, b[i + 1] as int));
                assert(b.contains(x));
                let j = choose|j: int| 0 <= j < a.len() && a[j] == x;
                assert(j != 0);
                assert(a1[j - 1] == x);
            }
        }
        assert forall|i: int, j: int| 0 <= i < j < a1.len()
            implies ranked_before(goal, tasks, #[trigger] a1[i] as int, #[trigger] a1[j] as int) by {
            assert(a1[i] == a[i + 1] && a1[j] == a[j + 1]);
        }
        assert forall|i: int, j: int| 0 <= i < j < b1.len()
            implies ranked_before(goal, tasks, #[trigger] b1[i] as int, #[trigger] b1[j] as int) by {
            assert(b1[i] == b[i + 1] && b1[j] == b[j + 1]);
        }
        lemma_sorted_unique(goal, tasks, a1, b1);
        assert(a =~= b) by {
            assert forall|i: int| 0 <= i < a.len() implies a[i] == b[i] by {
                if i > 0 {
                    assert(a1[i - 1] == b1[i - 1]);
                }
            }
        }
    }
}

/// The index of the safe task.
pub fn safe_task(tasks: &Vec<TaskStats>) -> (r: usize)
    requires
        tasks.len() > 0,
    ensures
        is_safe_task(tasks@, r as int),
        r as int == safe_of(tasks@),
{
    let mut best: usize = 0;
    let mut k: usize = 1;
    while k < tasks.len()
        invariant
            1 <= k <= tasks.len(),
            best < k,
            forall|j: int| 0 <= j < k ==> tasks@[best as int].base_wanted <= #[trigger] tasks@[j].base_wanted,
            forall|j: int| 0 <= j < best ==> tasks@[best as int].base_wanted < #[trigger] tasks@[j].base_wanted,
        decreases tasks.len() - k,
    {
        if tasks[k].base_wanted < tasks[best].base_wanted {
            best = k;
        }
        k = k + 1;
    }
    proof {
        assert(is_safe_task(tasks@, best as int));
        lemma_safe_task_unique(tasks@, best as int, safe_of(tasks@));
    }
    best
}

fn gain_of(goal: GangMode, t: &TaskStats) -> (r: i64)
    ensures
        r as int == gain_for(goal, *t),
{
    match goal {
        GangMode::Money => t.base_money,
        _ => t.base_respect,
    }
}

/// The tasks worth upgrading to under `goal`, best first.
pub fn rank_candidates(goal: GangMode, tasks: &Vec<TaskStats>) -> (order: Vec<usize>)
    requires
        !(goal is Territory),
    ensures
        is_ranking(goal, tasks@, order@),
        order@ == ranking_of(goal, tasks@),
{
    let mut order: Vec<usize> = Vec::new();
    let mut k: usize = 0;
    while k < tasks.len()
        invariant
            k <= tasks.len(),
            forall|i: int| 0 <= i < order.len() ==> #[trigger] order@[i] < k,
            forall|x: int| 0 <= x < k ==> (gain_for(goal, #[trigger] tasks@[x]) > 0 <==> order@.contains(x as usize)),
            forall|i: int, j: int| 0 <= i < j < order.len()
                ==> ranked_before(goal, tasks@, #[trigger] order@[i] as int, #[trigger] order@[j] as int),
        decreases tasks.len() - k,
    {
        let g = gain_of(goal, &tasks[k]);
        if g > 0 {
            let mut p: usize = 0;
            while p < order.len() && gain_of(goal, &tasks[order[p]]) >= g
                invariant
                    p <= order.len(),
                    k < tasks.len(),
                    forall|i: int| 0 <= i < order.len() ==> #[trigger] order@[i] < k,
                    g as int == gain_for(goal, tasks@[k as int]),
                    forall|i: int| 0 <= i < p ==> ranked_before(goal, tasks@, #[trigger] order@[i] as int, k as int),
                decreases order.len() - p,
            {
                p = p + 1;
            }
            let ghost before = order@;
            order.insert(p, k);
            proof {
                assert forall|i: int, j: int| 0 <= i < j < order.len()
                    implies ranked_before(goal, tasks@, #[trigger] order@[i] as int, #[trigger] order@[j] as int) by {
                    if j == p {
                        assert(order@[i] == before[i]);
                    } else if i == p {
                        assert(order@[j] == before[j - 1]);
                        assert(ranked_before(goal, tasks@, k as int, before[p as int] as int));
                        if j - 1 > p {
                            assert(ranked_before(goal, tasks@, before[p as int] as int, before[j - 1] as int));
                        }
                    } else if i < p && j < p {
                        assert(order@[i] == before[i] && order@[j] == before[j]);
                    } else if i < p {
                        assert(order@[i] == before[i] && order@[j] == before[j - 1]);
                    } else {
                        assert(order@[i] == before[i - 1] && order@[j] == before[j - 1]);
                    }
                }
                assert forall|x: int| 0 <= x < k + 1
                    implies (gain_for(goal, #[trigger] tasks@[x]) > 0 <==> order@.contains(x as usize)) by {
                    if before.contains(x as usize) {
                        let i = choose|i: int| 0 <= i < before.len() && before[i] == x as usize;
                        if i < p {
                            assert(order@[i] == before[i]);
                        } else {
                            assert(order@[i + 1] == before[i]);
                        }
                    }
                    if order@.contains(x as usize) && x < k {
                        let i = choose|i: int| 0 <= i < order@.len() && order@[i] == x as usize;
                        if i < p {
                            assert(before[i] == order@[i]);
                        } else if i > p {
                            assert(before[i - 1] == order@[i]);
                        }
                    }
                    if x == k {
                        assert(order@[p as int] == k);
                    }
                }
                assert forall|i: int| 0 <= i < order.len() implies #[trigger] order@[i] < k + 1 by {
                    if i < p {
                        assert(order@[i] == before[i]);
                    } else if i > p {
                        assert(order@[i] == before[i - 1]);
                    }
                }
            }
        }
        k = k + 1;
    }
    proof {
        assert(is_ranking(goal, tasks@, order@));
        lemma_ranking_unique(goal, tasks@, order@, ranking_of(goal, tasks@));
    }
    order
}

} // verus!
