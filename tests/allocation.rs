use gang_ai::allocate::{allocate, task_name, upgrade_step, wanted_budget, Assignment};
use gang_ai::mode::GangMode;
use gang_ai::tasks::{rank_candidates, safe_task, TaskStats};

fn task(name: &str, respect: i64, money: i64, wanted: i64) -> TaskStats {
    TaskStats { name: name.to_string(), base_respect: respect, base_money: money, base_wanted: wanted }
}

/// Safe task at index 0, then three respect tasks ranked T1 > T2 > T3.
fn growth_tasks() -> Vec<TaskStats> {
    vec![
        task("Vigilante Justice", 0, 0, 1),
        task("T3", 10, 0, 5),
        task("T1", 30, 5, 9),
        task("T2", 20, 0, 7),
    ]
}

#[test]
fn safe_task_is_first_lowest_wanted() {
    let tasks = vec![task("A", 1, 1, 4), task("B", 1, 1, 2), task("C", 1, 1, 2), task("D", 1, 1, 3)];
    assert_eq!(safe_task(&tasks), 1);
    assert_eq!(safe_task(&vec![task("Only", 0, 0, 9)]), 0);
}

#[test]
fn candidates_ranked_by_goal() {
    let tasks = growth_tasks();
    assert_eq!(rank_candidates(GangMode::Respect, &tasks), vec![2, 3, 1]);
    assert_eq!(rank_candidates(GangMode::Money, &tasks), vec![2]);
    let ties = vec![task("A", 5, 0, 1), task("B", 0, 0, 1), task("C", 5, 0, 1), task("D", 9, 0, 1)];
    assert_eq!(rank_candidates(GangMode::Respect, &ties), vec![3, 0, 2]);
    assert_eq!(rank_candidates(GangMode::Money, &ties), Vec::<usize>::new());
}

#[test]
fn territory_mode_sends_everyone_to_war() {
    let tasks = growth_tasks();
    let r = allocate(GangMode::Territory { rival: 0 }, 13, &tasks, None);
    assert_eq!(r, vec![Assignment::TerritoryWarfare; 13]);
    assert_eq!(task_name(r[0], &tasks), "Territory Warfare");
}

#[test]
fn economy_without_formulas_keeps_safe_task() {
    let tasks = vec![
        task("Mug People", 1, 3, 4),
        task("Ethical Hacking", 0, 0, 2),
        task("Human Trafficking", 2, 9, 8),
    ];
    let r = allocate(GangMode::Money, 15, &tasks, None);
    assert_eq!(r.len(), 15);
    assert_eq!(r, vec![Assignment::Task(1); 15]);
    assert_eq!(task_name(r[14], &tasks), "Ethical Hacking");
}

#[test]
fn baseline_budget_sums_safe_gains() {
    let gains = vec![vec![3, 10], vec![-1, 4], vec![2, 2]];
    assert_eq!(wanted_budget(&gains, 0), 4);
    assert_eq!(wanted_budget(&gains, 1), 16);
    assert_eq!(wanted_budget(&Vec::new(), 0), 0);
}

#[test]
fn growth_first_worker_takes_best_fit() {
    // Fixed point: 1000 per unit. Each of 20 members gains 0.25 on the safe
    // task, so the baseline budget is 5.0.
    let tasks = growth_tasks();
    let mut gains: Vec<Vec<i32>> = Vec::new();
    for _ in 0..20 {
        gains.push(vec![250, 250 - 9000, 250 + 2000, 250 - 100]);
    }
    let budget = wanted_budget(&gains, 0);
    assert_eq!(budget, 5000);
    let cands = rank_candidates(GangMode::Respect, &tasks);
    assert_eq!(cands, vec![2, 3, 1]);

    // First member: delta to T1 is 2.0, and 5.0 + 2.0 > 0.
    let (choice, left) = upgrade_step(budget, &gains[0], 0, &cands);
    assert_eq!(choice, Some(2));
    assert_eq!(left, 3000);

    // The pass goes on greedily: the budget falls by 2.0 per upgrade, to 1.0,
    // -1.0 and -3.0; at -3.0 no candidate fits any more.
    let r = allocate(GangMode::Respect, 20, &tasks, Some(&gains));
    let mut expect = vec![Assignment::Task(2); 4];
    expect.extend(vec![Assignment::Task(0); 16]);
    assert_eq!(r, expect);
    let mut b = budget;
    for w in 0..20 {
        let (c, next) = upgrade_step(b, &gains[w], 0, &cands);
        assert_eq!(r[w], Assignment::Task(c.unwrap_or(0)));
        b = next;
    }
    assert_eq!(b, -3000);
}

#[test]
fn no_fitting_candidate_keeps_safe_task() {
    let cands = vec![2, 3, 1];
    let row = vec![250, -9000, 2000, -100];
    // Budget 0: deltas are -9250, +1750, -350; only T1 fits.
    assert_eq!(upgrade_step(0, &row, 0, &cands), (Some(2), -1750));
    // Budget -2000: nothing fits.
    assert_eq!(upgrade_step(-2000, &row, 0, &cands), (None, -2000));
}

#[test]
fn cheaper_candidate_raises_budget() {
    // The candidate's gain is below the safe task's: the budget grows.
    let cands = vec![1];
    let row = vec![100, 40];
    assert_eq!(upgrade_step(500, &row, 0, &cands), (Some(1), 560));
}

#[test]
fn upgrades_always_fit_the_running_budget() {
    let tasks = growth_tasks();
    let cands = rank_candidates(GangMode::Respect, &tasks);
    let gains = vec![
        vec![10, 50, 400, 30],
        vec![-20, 0, 900, 15],
        vec![5, 5, 5, 5],
        vec![0, -300, 100, 60],
    ];
    let r = allocate(GangMode::Respect, 4, &tasks, Some(&gains));
    let mut b = wanted_budget(&gains, 0) as i64;
    assert_eq!(b, -5);
    for w in 0..4 {
        if let Assignment::Task(t) = r[w] {
            if cands.contains(&t) && r[w] != Assignment::Task(0) {
                let delta = gains[w][t] as i64 - gains[w][0] as i64;
                assert!(b + delta > 0);
                b -= delta;
            }
        }
    }
}

#[test]
fn settled_allocation_is_unchanged() {
    let tasks = growth_tasks();
    // Baseline budget -40; every candidate's delta is at most 0.
    let gains = vec![vec![-10, -10, -20, -15]; 4];
    let with = allocate(GangMode::Respect, 4, &tasks, Some(&gains));
    let without = allocate(GangMode::Respect, 4, &tasks, None);
    assert_eq!(with, without);
    assert_eq!(with, vec![Assignment::Task(0); 4]);
    assert_eq!(allocate(GangMode::Respect, 4, &tasks, Some(&gains)), with);
}

#[test]
fn empty_gang_gets_nothing() {
    let tasks = growth_tasks();
    assert_eq!(allocate(GangMode::Respect, 0, &tasks, Some(&Vec::new())), Vec::new());
    assert_eq!(allocate(GangMode::Money, 0, &tasks, None), Vec::new());
}

#[test]
fn every_member_gets_one_listed_task() {
    let tasks = growth_tasks();
    let gains = vec![vec![1, 2, 3, 4]; 7];
    for goal in [GangMode::Respect, GangMode::Money, GangMode::Territory { rival: 3 }] {
        let r = allocate(goal, 7, &tasks, Some(&gains));
        assert_eq!(r.len(), 7);
        for a in r {
            match a {
                Assignment::Task(t) => assert!(t < tasks.len()),
                Assignment::TerritoryWarfare => assert_eq!(goal, GangMode::Territory { rival: 3 }),
            }
        }
    }
}
