use blocks_world::methods::{BlockGoals, BlockMethod, BlockTask, Decomposition, Status};
use blocks_world::operators::{BlockOperator, BlockPos, BlockState};
use BlockOperator::{PickUp, PutDown, Stack, Unstack};

/// Depth-first decomposition: the first alternative of each method is tried
/// first, and a failing branch backtracks to the next one. A state met again
/// at a top-level expansion on the current path ends that branch.
fn search(
    state: &BlockState,
    goal: &BlockGoals,
    tasks: &[BlockTask],
    plan: &mut Vec<BlockOperator>,
    path: &mut Vec<BlockState>,
) -> bool {
    match tasks.split_first() {
        None => goal.accepts(state),
        Some((BlockTask::Operator(op), rest)) => {
            let mut next = state.clone();
            if op.attempt_update(&mut next) {
                plan.push(*op);
                if search(&next, goal, rest, plan, path) {
                    return true;
                }
                plan.pop();
            }
            false
        }
        Some((BlockTask::Method(m), rest)) => {
            let top_level = *m == BlockMethod::MoveBlocks;
            if top_level {
                if path.contains(state) {
                    return false;
                }
                path.push(state.clone());
            }
            let found = match m.apply(state, goal) {
                Decomposition::Failure => goal.accepts(state) && search(state, goal, rest, plan, path),
                Decomposition::TaskLists(alternatives) => {
                    let mut found = false;
                    for alternative in alternatives {
                        let mut expanded = alternative.clone();
                        expanded.extend_from_slice(rest);
                        if search(state, goal, &expanded, plan, path) {
                            found = true;
                            break;
                        }
                    }
                    found
                }
            };
            if top_level {
                path.pop();
            }
            found
        }
    }
}

fn find_first_plan(
    start: &BlockState,
    goal: &BlockGoals,
    tasks: &Vec<BlockTask>,
) -> Option<Vec<BlockOperator>> {
    let mut plan = Vec::new();
    let mut path = Vec::new();
    if search(start, goal, tasks, &mut plan, &mut path) {
        Some(plan)
    } else {
        None
    }
}

fn big_test_states() -> (BlockState, BlockGoals) {
    (
        BlockState::from(
            vec![1, 5, 12, 14],
            vec![
                (2, 1),
                (15, 2),
                (16, 15),
                (17, 16),
                (18, 17),
                (6, 5),
                (7, 6),
                (8, 7),
                (11, 12),
                (0, 11),
                (13, 14),
                (3, 13),
                (4, 3),
                (9, 4),
                (10, 9),
            ],
        )
        .unwrap(),
        BlockGoals::new(vec![
            (14, 12),
            (12, 7),
            (7, 8),
            (8, 3),
            (11, 1),
            (1, 2),
            (2, 15),
            (15, 10),
            (10, 6),
            (6, 5),
        ]),
    )
}

#[test]
fn test1() {
    let start = BlockState::from(vec![1, 2], vec![(0, 1)]).unwrap();
    let goal = BlockGoals::new(vec![(0, 1), (1, 2)]);
    let plan = find_first_plan(&start, &goal, &vec![BlockTask::Method(BlockMethod::MoveBlocks)])
        .unwrap();
    println!("{:?}", plan);
    assert_eq!(
        plan,
        vec![Unstack(0, 1), PutDown(0), PickUp(1), Stack(1, 2), PickUp(0), Stack(0, 1)]
    );
    assert!(goal.plan_valid(&start, &plan));
}

#[test]
fn test2() {
    let start = BlockState::from(vec![2, 3], vec![(0, 2), (1, 3)]).unwrap();
    let goal = BlockGoals::new(vec![(1, 2), (0, 3)]);
    let plan = find_first_plan(&start, &goal, &vec![BlockTask::Method(BlockMethod::MoveBlocks)])
        .unwrap();
    println!("{:?}", plan);
    assert!(goal.plan_valid(&start, &plan));
}

#[test]
fn test3() {
    let (start, goal) = big_test_states();
    let plan = find_first_plan(&start, &goal, &vec![BlockTask::Method(BlockMethod::MoveBlocks)])
        .unwrap();
    println!("{:?}", plan);
    assert!(goal.plan_valid(&start, &plan));
}

#[test]
fn starting_tasks_move_every_block() {
    let goal = BlockGoals::new(vec![(0, 1)]);
    assert_eq!(goal.starting_tasks(), vec![BlockTask::Method(BlockMethod::MoveBlocks)]);
}

#[test]
fn plan_from_starting_tasks_validates() {
    let (start, goal) = big_test_states();
    let plan = find_first_plan(&start, &goal, &goal.starting_tasks()).unwrap();
    assert!(!plan.is_empty());
    assert!(goal.plan_valid(&start, &plan));
}

#[test]
fn move_branch_lowers_distance_each_time() {
    let (start, goal) = big_test_states();
    let mut state = start.clone();
    let mut fired = 0;
    for _ in 0..200 {
        let before = goal.distance_from(&state);
        let alternatives = match BlockMethod::MoveBlocks.apply(&state, &goal) {
            Decomposition::TaskLists(alternatives) => alternatives,
            Decomposition::Failure => break,
        };
        let (block, pos) = match alternatives[0][0] {
            BlockTask::Method(BlockMethod::MoveOne(block, pos)) => (block, pos),
            other => panic!("unexpected task {:?}", other),
        };
        let was_move = matches!(Status::new(block, &state, &goal), Status::Move(_, _));
        for step in [BlockMethod::Get(block), BlockMethod::Put(pos)] {
            match step.apply(&state, &goal) {
                Decomposition::TaskLists(lists) => match lists[0][0] {
                    BlockTask::Operator(op) => assert!(op.attempt_update(&mut state)),
                    other => panic!("unexpected task {:?}", other),
                },
                Decomposition::Failure => panic!("{:?} failed", step),
            }
        }
        if was_move {
            assert_eq!(alternatives.len(), 1);
            assert!(goal.distance_from(&state) < before);
            fired += 1;
        }
    }
    assert!(fired > 0);
}

#[test]
fn move_decomposition_reaches_goal_with_distance_falling() {
    let start = BlockState::from(vec![1, 2], vec![(0, 1)]).unwrap();
    let goal = BlockGoals::new(vec![(0, 1), (1, 2)]);
    let mut state = start.clone();
    assert_eq!(goal.distance_from(&state), 2);
    // No block can move straight to its place: one waiting alternative.
    match BlockMethod::MoveBlocks.apply(&state, &goal) {
        Decomposition::TaskLists(lists) => assert_eq!(
            lists,
            vec![vec![
                BlockTask::Method(BlockMethod::MoveOne(0, BlockPos::Table)),
                BlockTask::Method(BlockMethod::MoveBlocks)
            ]]
        ),
        Decomposition::Failure => panic!("expected alternatives"),
    }
    assert!(state.unstack(0, 1));
    assert!(state.put_down(0));
    assert_eq!(goal.distance_from(&state), 2);
    // Each firing of the move branch lowers the distance.
    let mut last = goal.distance_from(&state);
    for (block, support) in [(1, 2), (0, 1)] {
        match BlockMethod::MoveBlocks.apply(&state, &goal) {
            Decomposition::TaskLists(lists) => assert_eq!(
                lists,
                vec![vec![
                    BlockTask::Method(BlockMethod::MoveOne(block, BlockPos::On(support))),
                    BlockTask::Method(BlockMethod::MoveBlocks)
                ]]
            ),
            Decomposition::Failure => panic!("expected a move"),
        }
        assert!(state.pick_up(block));
        assert!(state.stack(block, support));
        let now = goal.distance_from(&state);
        assert!(now < last);
        last = now;
    }
    assert_eq!(last, 0);
    assert!(goal.accepts(&state));
    assert_eq!(BlockMethod::MoveBlocks.apply(&state, &goal), Decomposition::Failure);
}
