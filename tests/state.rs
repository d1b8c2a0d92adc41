use blocks_world::methods::{is_done, BlockGoals, BlockMethod, BlockTask, Decomposition, Status};
use blocks_world::operators::{BlockOperator, BlockPos, BlockState};
use BlockOperator::{PickUp, PutDown, Stack, Unstack};

/// Each listed block is in exactly one place, and is clear exactly when
/// nothing rests on it and it is not held.
fn check_invariant(state: &BlockState, blocks: &[usize]) {
    let placed = state.all_blocks();
    for &b in blocks {
        let held = state.get_holding() == Some(b);
        let listed = placed.contains(&b);
        assert!(held != listed, "block {} held={} listed={}", b, held, listed);
        let covered = blocks.iter().any(|&a| state.get_pos(a) == BlockPos::On(b) && a != b
            && state.get_holding() != Some(a));
        assert_eq!(state.clear(b), !covered && !held, "block {}", b);
    }
    assert_eq!(placed.len() + state.get_holding().map_or(0, |_| 1), blocks.len());
}

#[test]
fn new_puts_every_block_on_the_table() {
    let state = BlockState::new(vec![3, 1, 2]);
    assert_eq!(state.all_blocks(), vec![1, 2, 3]);
    for b in [1, 2, 3] {
        assert_eq!(state.get_pos(b), BlockPos::Table);
        assert!(state.clear(b));
    }
    assert_eq!(state.get_holding(), None);
    check_invariant(&state, &[1, 2, 3]);
}

#[test]
fn empty_state_has_no_blocks() {
    let state = BlockState::new(vec![]);
    assert!(state.all_blocks().is_empty());
    assert_eq!(state.get_holding(), None);
    let goal = BlockGoals::new(vec![]);
    assert!(goal.accepts(&state));
    assert_eq!(goal.distance_from(&state), 0);
}

#[test]
fn from_reads_back_the_pairs() {
    let state = BlockState::from(vec![1, 5], vec![(2, 1), (3, 2), (6, 5)]).unwrap();
    assert_eq!(state.get_pos(2), BlockPos::On(1));
    assert_eq!(state.get_pos(3), BlockPos::On(2));
    assert_eq!(state.get_pos(6), BlockPos::On(5));
    assert_eq!(state.get_pos(1), BlockPos::Table);
    assert_eq!(state.get_pos(5), BlockPos::Table);
    assert!(state.clear(3) && state.clear(6));
    assert!(!state.clear(1) && !state.clear(2) && !state.clear(5));
    check_invariant(&state, &[1, 2, 3, 5, 6]);
}

#[test]
fn from_lists_table_blocks_then_stacked_blocks() {
    let state = BlockState::from(vec![9, 4], vec![(7, 9), (0, 4)]).unwrap();
    assert_eq!(state.all_blocks(), vec![4, 9, 0, 7]);
}

#[test]
fn from_rejects_pairs_given_top_first() {
    assert_eq!(BlockState::from(vec![3], vec![(1, 2), (2, 0), (0, 3)]), None);
}

#[test]
fn from_rejects_a_block_placed_twice() {
    assert_eq!(BlockState::from(vec![1, 2], vec![(0, 1), (0, 2)]), None);
}

#[test]
fn from_rejects_two_blocks_on_one() {
    assert_eq!(BlockState::from(vec![1], vec![(0, 1), (2, 1)]), None);
}

#[test]
fn from_rejects_unknown_support_and_self_support() {
    assert_eq!(BlockState::from(vec![1], vec![(0, 7)]), None);
    assert_eq!(BlockState::from(vec![1], vec![(1, 1)]), None);
}

#[test]
fn operators_keep_the_invariant() {
    let blocks = [0, 1, 2, 3];
    let mut state = BlockState::from(vec![1, 3], vec![(0, 1), (2, 0)]).unwrap();
    check_invariant(&state, &blocks);
    assert!(state.unstack(2, 0));
    check_invariant(&state, &blocks);
    assert_eq!(state.get_holding(), Some(2));
    assert!(state.clear(0));
    assert!(state.stack(2, 3));
    check_invariant(&state, &blocks);
    assert_eq!(state.get_pos(2), BlockPos::On(3));
    assert!(!state.clear(3));
    assert!(state.unstack(0, 1));
    check_invariant(&state, &blocks);
    assert!(state.put_down(0));
    check_invariant(&state, &blocks);
    assert!(state.pick_up(1));
    check_invariant(&state, &blocks);
    assert!(state.stack(1, 2));
    check_invariant(&state, &blocks);
    assert_eq!(state.get_pos(1), BlockPos::On(2));
    assert_eq!(state.all_blocks(), vec![0, 3, 1, 2]);
}

#[test]
fn failed_operators_change_nothing() {
    let start = BlockState::from(vec![1, 3], vec![(0, 1)]).unwrap();
    let mut state = start.clone();
    assert!(!state.pick_up(1));
    assert!(!state.pick_up(0));
    assert!(!state.put_down(3));
    assert!(!state.stack(3, 0));
    assert!(!state.unstack(0, 3));
    assert!(!state.unstack(1, 0));
    assert_eq!(state, start);
    assert!(state.pick_up(3));
    let holding = state.clone();
    assert!(!state.pick_up(0));
    assert!(!state.unstack(0, 1));
    assert!(!state.put_down(0));
    assert!(!state.stack(3, 1));
    assert!(!state.stack(0, 3));
    assert_eq!(state, holding);
}

#[test]
fn attempt_update_dispatches_each_operator() {
    let mut state = BlockState::from(vec![1, 2], vec![(0, 1)]).unwrap();
    assert!(BlockOperator::Unstack(0, 1).attempt_update(&mut state));
    assert!(BlockOperator::PutDown(0).attempt_update(&mut state));
    assert!(BlockOperator::PickUp(1).attempt_update(&mut state));
    assert!(BlockOperator::Stack(1, 2).attempt_update(&mut state));
    assert_eq!(state.get_pos(1), BlockPos::On(2));
    let before = state.clone();
    assert!(!BlockOperator::PickUp(2).attempt_update(&mut state));
    assert_eq!(state, before);
    let goal = BlockGoals::new(vec![]);
    assert_eq!(BlockOperator::PickUp(0).cost(&state, &goal), 1);
    assert_eq!(BlockOperator::zero_cost(), 0);
}

#[test]
fn goal_positions_and_later_pairs_win() {
    let goal = BlockGoals::new(vec![(0, 1), (2, 3), (0, 4)]);
    assert_eq!(goal.get_pos(0), BlockPos::On(4));
    assert_eq!(goal.get_pos(2), BlockPos::On(3));
    assert_eq!(goal.get_pos(1), BlockPos::Table);
}

#[test]
fn accepts_needs_every_pair() {
    let state = BlockState::from(vec![1, 2], vec![(0, 1)]).unwrap();
    assert!(BlockGoals::new(vec![(0, 1)]).accepts(&state));
    assert!(!BlockGoals::new(vec![(0, 1), (1, 2)]).accepts(&state));
    assert!(!BlockGoals::new(vec![(0, 2)]).accepts(&state));
    assert!(!BlockGoals::new(vec![(5, 1)]).accepts(&state));
}

#[test]
fn is_done_follows_the_tower_down() {
    let state = BlockState::from(vec![2], vec![(1, 2), (0, 1)]).unwrap();
    let good = BlockGoals::new(vec![(0, 1), (1, 2)]);
    assert!(is_done(0, &state, &good));
    assert!(is_done(2, &state, &good));
    let base_wrong = BlockGoals::new(vec![(0, 1), (2, 5)]);
    assert!(!is_done(0, &state, &base_wrong));
    assert!(!is_done(1, &state, &base_wrong));
    assert!(!is_done(2, &state, &base_wrong));
}

#[test]
fn status_of_each_kind() {
    let state = BlockState::from(vec![1, 2, 4], vec![(0, 1), (3, 4)]).unwrap();
    let goal = BlockGoals::new(vec![(0, 1), (1, 2), (3, 2), (4, 0)]);
    assert_eq!(Status::new(2, &state, &goal), Status::Done(2));
    assert_eq!(Status::new(1, &state, &goal), Status::Inaccessible(1));
    assert_eq!(Status::new(3, &state, &goal), Status::Move(3, BlockPos::On(2)));
    assert_eq!(Status::new(0, &state, &goal), Status::Waiting(0));
    let loose = BlockGoals::new(vec![]);
    assert_eq!(Status::new(3, &state, &BlockGoals::new(vec![(1, 2)])), Status::Move(3, BlockPos::Table));
    assert_eq!(Status::new(3, &state, &loose), Status::Move(3, BlockPos::Table));
}

#[test]
fn distance_counts_blocks_not_done() {
    let state = BlockState::from(vec![1, 2, 4], vec![(0, 1), (3, 4)]).unwrap();
    let goal = BlockGoals::new(vec![(0, 1), (1, 2), (3, 2), (4, 0)]);
    // Done: 2 only.
    assert_eq!(goal.distance_from(&state), 4);
    assert_eq!(BlockGoals::new(vec![(0, 1), (3, 4)]).distance_from(&state), 0);
}

#[test]
fn move_blocks_takes_the_first_ready_block() {
    let state = BlockState::new(vec![0, 1, 2, 3]);
    let goal = BlockGoals::new(vec![(3, 0), (1, 2)]);
    assert_eq!(
        BlockMethod::MoveBlocks.apply(&state, &goal),
        Decomposition::TaskLists(vec![vec![
            BlockTask::Method(BlockMethod::MoveOne(1, BlockPos::On(2))),
            BlockTask::Method(BlockMethod::MoveBlocks)
        ]])
    );
}

#[test]
fn move_blocks_offers_each_waiting_block() {
    let state = BlockState::from(vec![2, 3], vec![(0, 2), (1, 3)]).unwrap();
    let goal = BlockGoals::new(vec![(1, 2), (0, 3)]);
    assert_eq!(
        BlockMethod::MoveBlocks.apply(&state, &goal),
        Decomposition::TaskLists(vec![
            vec![
                BlockTask::Method(BlockMethod::MoveOne(0, BlockPos::Table)),
                BlockTask::Method(BlockMethod::MoveBlocks)
            ],
            vec![
                BlockTask::Method(BlockMethod::MoveOne(1, BlockPos::Table)),
                BlockTask::Method(BlockMethod::MoveBlocks)
            ],
        ])
    );
}

#[test]
fn move_blocks_fails_when_everything_is_done() {
    let state = BlockState::from(vec![1], vec![(0, 1)]).unwrap();
    let goal = BlockGoals::new(vec![(0, 1)]);
    assert_eq!(BlockMethod::MoveBlocks.apply(&state, &goal), Decomposition::Failure);
}

#[test]
fn sub_methods_emit_one_action_or_fail() {
    let mut state = BlockState::from(vec![1, 2], vec![(0, 1)]).unwrap();
    let goal = BlockGoals::new(vec![]);
    assert_eq!(
        BlockMethod::MoveOne(0, BlockPos::On(2)).apply(&state, &goal),
        Decomposition::TaskLists(vec![vec![
            BlockTask::Method(BlockMethod::Get(0)),
            BlockTask::Method(BlockMethod::Put(BlockPos::On(2)))
        ]])
    );
    assert_eq!(
        BlockMethod::Get(0).apply(&state, &goal),
        Decomposition::TaskLists(vec![vec![BlockTask::Operator(BlockOperator::Unstack(0, 1))]])
    );
    assert_eq!(
        BlockMethod::Get(2).apply(&state, &goal),
        Decomposition::TaskLists(vec![vec![BlockTask::Operator(BlockOperator::PickUp(2))]])
    );
    assert_eq!(BlockMethod::Get(1).apply(&state, &goal), Decomposition::Failure);
    assert_eq!(BlockMethod::Put(BlockPos::Table).apply(&state, &goal), Decomposition::Failure);
    assert!(state.pick_up(2));
    assert_eq!(
        BlockMethod::Put(BlockPos::Table).apply(&state, &goal),
        Decomposition::TaskLists(vec![vec![BlockTask::Operator(BlockOperator::PutDown(2))]])
    );
    assert_eq!(
        BlockMethod::Put(BlockPos::On(0)).apply(&state, &goal),
        Decomposition::TaskLists(vec![vec![BlockTask::Operator(BlockOperator::Stack(2, 0))]])
    );
}

#[test]
fn plan_valid_rejects_bad_plans() {
    let start = BlockState::from(vec![1, 2], vec![(0, 1)]).unwrap();
    let goal = BlockGoals::new(vec![(0, 2)]);
    assert!(goal.plan_valid(&start, &vec![Unstack(0, 1), Stack(0, 2)]));
    assert!(!goal.plan_valid(&start, &vec![PickUp(0), Stack(0, 2)]));
    assert!(!goal.plan_valid(&start, &vec![Unstack(0, 1), PutDown(0)]));
    assert!(!goal.plan_valid(&start, &vec![]));
    assert!(BlockGoals::new(vec![(0, 1)]).plan_valid(&start, &vec![]));
}
