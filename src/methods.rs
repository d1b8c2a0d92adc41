use std::collections::BTreeMap;
use vstd::prelude::*;
use vstd::std_specs::iter::IteratorSpec;

use crate::operators::{
    block_order, grounded, lemma_pick_up_wf, lemma_put_down_wf, lemma_stack_wf, lemma_unstack_wf,
    BlockOperator, BlockPos, BlockState, BlockStateView,
};

verus! {

broadcast use {vstd::std_specs::btree::group_btree_axioms, vstd::laws_cmp::group_laws_cmp};

/// Where the goal wants `b`: on its desired support, or (unconstrained) the table.
pub open spec fn goal_pos(g: Map<usize, usize>, b: usize) -> BlockPos {
    if g.contains_key(b) {
        BlockPos::On(g[b])
    } else {
        BlockPos::Table
    }
}

/// `b` and every block beneath it, down to the table, sit where the goal wants
/// them, in a tower of at most `fuel` blocks below `b`.
pub open spec fn done_within(v: BlockStateView, g: Map<usize, usize>, b: usize, fuel: nat) -> bool
    decreases fuel,
{
    v.pos(b) == goal_pos(g, b) && match v.pos(b) {
        BlockPos::On(c) => fuel > 0 && done_within(v, g, c, (fuel - 1) as nat),
        BlockPos::Table => true,
    }
}

/// `b` and everything beneath it is where the goal wants it.
pub open spec fn block_done(v: BlockStateView, g: Map<usize, usize>, b: usize) -> bool {
    exists|f: nat| done_within(v, g, b, f)
}

/// A block is done exactly when it sits where the goal wants it and, if that
/// is on another block, that block is done.
pub proof fn lemma_done_unfold(v: BlockStateView, g: Map<usize, usize>, b: usize)
    ensures
        block_done(v, g, b) == (v.pos(b) == goal_pos(g, b) && match v.pos(b) {
            BlockPos::On(c) => block_done(v, g, c),
            BlockPos::Table => true,
        }),
{
    if block_done(v, g, b) {
        let f = choose|f: nat| done_within(v, g, b, f);
        if let BlockPos::On(c) = v.pos(b) {
            assert(done_within(v, g, c, (f - 1) as nat));
        }
    }
    if v.pos(b) == goal_pos(g, b) {
        match v.pos(b) {
            BlockPos::On(c) => {
                if block_done(v, g, c) {
                    let f = choose|f: nat| done_within(v, g, c, f);
                    assert(done_within(v, g, b, f + 1));
                }
            },
            BlockPos::Table => {
                assert(done_within(v, g, b, 0));
            },
        }
    }
}

fn is_done_within(b1: usize, state: &BlockState, goal: &BlockGoals, Ghost(fuel): Ghost<nat>) -> (r:
    bool)
    requires
        state@.wf(),
        grounded(state@.stacks, b1, fuel),
    ensures
        r == block_done(state@, goal@, b1),
    decreases fuel,
{
    let pos = state.get_pos(b1);
    proof {
        lemma_done_unfold(state@, goal@, b1);
    }
    pos == goal.get_pos(b1) && match pos {
        BlockPos::On(b2) => is_done_within(b2, state, goal, Ghost((fuel - 1) as nat)),
        BlockPos::Table => true,
    }
}

/// Whether `b1` and every block beneath it sit where the goal wants them.
pub fn is_done(b1: usize, state: &BlockState, goal: &BlockGoals) -> (r: bool)
    requires
        state@.wf(),
    ensures
        r == block_done(state@, goal@, b1),
{
    let ghost fuel: nat = if state@.stacks.contains_key(b1) {
        choose|f: nat| grounded(state@.stacks, b1, f)
    } else {
        0
    };
    is_done_within(b1, state, goal, Ghost(fuel))
}

/// How a block stands with respect to the goal.
#[derive(Copy, Clone, PartialOrd, PartialEq, Ord, Eq, Debug, Structural)]
pub enum Status {
    /// It and everything beneath it are in place.
    Done(usize),
    /// Something rests on it.
    Inaccessible(usize),
    /// It is clear and can go straight to its goal position.
    Move(usize, BlockPos),
    /// It is clear, but the block it should go on is not ready.
    Waiting(usize),
}

pub open spec fn status_of(v: BlockStateView, g: Map<usize, usize>, b: usize) -> Status {
    if block_done(v, g, b) {
        Status::Done(b)
    } else if !v.clear.contains(b) {
        Status::Inaccessible(b)
    } else {
        match goal_pos(g, b) {
            BlockPos::Table => Status::Move(b, BlockPos::Table),
            BlockPos::On(b2) => if block_done(v, g, b2) && v.clear.contains(b2) {
                Status::Move(b, BlockPos::On(b2))
            } else {
                Status::Waiting(b)
            },
        }
    }
}

/// The status of every placed block, in `block_order`.
pub open spec fn statuses(v: BlockStateView, g: Map<usize, usize>) -> Seq<Status> {
    block_order(v).map_values(|b: usize| status_of(v, g, b))
}

impl Status {
    pub fn new(b: usize, state: &BlockState, goal: &BlockGoals) -> (r: Self)
        requires
            state@.wf(),
        ensures
            r == status_of(state@, goal@, b),
    {
        if is_done(b, state, goal) {
            Status::Done(b)
        } else if !state.clear(b) {
            Status::Inaccessible(b)
        } else {
            match goal.get_pos(b) {
                BlockPos::Table => Status::Move(b, BlockPos::Table),
                BlockPos::On(b2) => if is_done(b2, state, goal) && state.clear(b2) {
                    Status::Move(b, BlockPos::On(b2))
                } else {
                    Status::Waiting(b)
                },
            }
        }
    }
}

fn get_status(state: &BlockState, goal: &BlockGoals) -> (r: Vec<Status>)
    requires
        state@.wf(),
    ensures
        r@ == statuses(state@, goal@),
{
    let blocks = state.all_blocks();
    let mut result: Vec<Status> = Vec::new();
    for i in 0..blocks.len()
        invariant
            blocks@ == block_order(state@),
            state@.wf(),
            result@ == blocks@.take(i as int).map_values(|b: usize| status_of(state@, goal@, b)),
    {
        result.push(Status::new(blocks[i], state, goal));
        assert(blocks@.take(i + 1).map_values(|b: usize| status_of(state@, goal@, b))
            == blocks@.take(i as int).map_values(|b: usize| status_of(state@, goal@, b)).push(
            status_of(state@, goal@, blocks@[i as int]),
        ));
    }
    assert(blocks@.take(blocks.len() as int) == blocks@);
    result
}

/// The goal map built from "top rests on bottom" pairs; a later pair for the
/// same top replaces an earlier one.
pub open spec fn goal_map(p: Seq<(usize, usize)>) -> Map<usize, usize>
    decreases p.len(),
{
    if p.len() == 0 {
        Map::empty()
    } else {
        goal_map(p.drop_last()).insert(p.last().0, p.last().1)
    }
}

/// Every constrained block rests exactly on its desired support.
pub open spec fn goal_accepts(g: Map<usize, usize>, v: BlockStateView) -> bool {
    forall|a: usize| #[trigger] g.contains_key(a) ==> v.pos(a) == BlockPos::On(g[a])
}

/// The number of placed blocks that are not done.
pub open spec fn distance(v: BlockStateView, g: Map<usize, usize>) -> nat {
    v.placed().filter(|b: usize| !block_done(v, g, b)).len()
}

/// The state reached by carrying out `plan` from `v` in order, or `None` if
/// some action's precondition fails on the way.
pub open spec fn replay(v: BlockStateView, plan: Seq<BlockOperator>) -> Option<BlockStateView>
    decreases plan.len(),
{
    if plan.len() == 0 {
        Some(v)
    } else {
        match plan[0].outcome(v) {
            Some(w) => replay(w, plan.drop_first()),
            None => None,
        }
    }
}

/// `plan` runs from `start` to a state that the goal accepts.
pub open spec fn plan_succeeds(
    g: Map<usize, usize>,
    start: BlockStateView,
    plan: Seq<BlockOperator>,
) -> bool {
    match replay(start, plan) {
        Some(w) => goal_accepts(g, w),
        None => false,
    }
}

/// A named way of decomposing work.
#[derive(Copy, Clone, PartialOrd, PartialEq, Ord, Eq, Debug, Structural)]
pub enum BlockMethod {
    /// Bring every block to its goal position.
    MoveBlocks,
    /// Bring one block to the given position.
    MoveOne(usize, BlockPos),
    /// Take the given block into the gripper.
    Get(usize),
    /// Set the held block at the given position.
    Put(BlockPos),
}

/// One step of a task list: a primitive action or a method to decompose.
#[derive(Copy, Clone, PartialEq, Eq, Debug, Structural)]
pub enum BlockTask {
    Operator(BlockOperator),
    Method(BlockMethod),
}

/// What decomposing a method offers: one or more alternative task lists (the
/// search tries them in order), or `Failure` when the method has no
/// decomposition in the current state. `TaskLists` is never empty.
#[derive(Clone, PartialEq, Eq, Debug)]
pub enum Decomposition {
    TaskLists(Vec<Vec<BlockTask>>),
    Failure,
}

impl View for Decomposition {
    type V = Option<Seq<Seq<BlockTask>>>;

    open spec fn view(&self) -> Option<Seq<Seq<BlockTask>>> {
        match self {
            Decomposition::TaskLists(lists) => Some(lists@.map_values(|l: Vec<BlockTask>| l@)),
            Decomposition::Failure => None,
        }
    }
}

/// Move `b` to `pos`, then go on with the remaining blocks.
pub open spec fn relocate_then_continue(b: usize, pos: BlockPos) -> Seq<BlockTask> {
    seq![BlockTask::Method(BlockMethod::MoveOne(b, pos)), BlockTask::Method(BlockMethod::MoveBlocks)]
}

/// Index of the first `Move` status.
pub open spec fn first_move(st: Seq<Status>) -> int {
    choose|i: int| 0 <= i < st.len() && st[i] is Move && forall|j: int| 0 <= j < i ==> !(st[j] is Move)
}

pub open spec fn waiting_choice(s: Status) -> Option<Seq<BlockTask>> {
    match s {
        Status::Waiting(b) => Some(relocate_then_continue(b, BlockPos::Table)),
        _ => None,
    }
}

/// One alternative per waiting block, in order: set it on the table, then go on.
pub open spec fn waiting_alternatives(st: Seq<Status>) -> Seq<Seq<BlockTask>> {
    st.filter_map(|s: Status| waiting_choice(s))
}

/// The top-level decomposition: move the first block that can go straight to
/// its goal position; failing that, offer to set each waiting block on the
/// table; with neither, fail.
pub open spec fn decompose_all(v: BlockStateView, g: Map<usize, usize>) -> Option<Seq<Seq<BlockTask>>> {
    let st = statuses(v, g);
    if exists|i: int| 0 <= i < st.len() && st[i] is Move {
        let s = st[first_move(st)];
        Some(seq![relocate_then_continue(s->Move_0, s->Move_1)])
    } else if waiting_alternatives(st).len() == 0 {
        None
    } else {
        Some(waiting_alternatives(st))
    }
}

/// The action that lifts `b` from where it rests.
pub open spec fn acquire_op(v: BlockStateView, b: usize) -> BlockOperator {
    match v.pos(b) {
        BlockPos::Table => BlockOperator::PickUp(b),
        BlockPos::On(c) => BlockOperator::Unstack(b, c),
    }
}

/// The action that sets held block `b` at `pos`.
pub open spec fn place_op(b: usize, pos: BlockPos) -> BlockOperator {
    match pos {
        BlockPos::Table => BlockOperator::PutDown(b),
        BlockPos::On(c) => BlockOperator::Stack(b, c),
    }
}

impl BlockMethod {
    /// What decomposing this method offers in state `v` under goal `g`.
    pub open spec fn decompose(self, v: BlockStateView, g: Map<usize, usize>) -> Option<Seq<Seq<BlockTask>>> {
        match self {
            BlockMethod::MoveBlocks => decompose_all(v, g),
            BlockMethod::MoveOne(b, pos) => Some(
                seq![seq![BlockTask::Method(BlockMethod::Get(b)), BlockTask::Method(BlockMethod::Put(pos))]],
            ),
            BlockMethod::Get(b) => if v.clear.contains(b) {
                Some(seq![seq![BlockTask::Operator(acquire_op(v, b))]])
            } else {
                None
            },
            BlockMethod::Put(pos) => match v.holding {
                Some(b) => Some(seq![seq![BlockTask::Operator(place_op(b, pos))]]),
                None => None,
            },
        }
    }

    pub fn apply(&self, state: &BlockState, goal: &BlockGoals) -> (r: Decomposition)
        requires
            state@.wf(),
        ensures
            r@ == self.decompose(state@, goal@),
    {
        match self {
            BlockMethod::MoveBlocks => move_blocks(state, goal),
            BlockMethod::MoveOne(block, pos) => move_one(*block, *pos),
            BlockMethod::Get(block) => get(state, *block),
            BlockMethod::Put(pos) => put(state, *pos),
        }
    }
}

fn single_list(tasks: Vec<BlockTask>) -> (r: Decomposition)
    ensures
        r@ == Some(seq![tasks@]),
{
    let mut lists: Vec<Vec<BlockTask>> = Vec::new();
    lists.push(tasks);
    assert(lists@.map_values(|l: Vec<BlockTask>| l@) =~= seq![tasks@]);
    Decomposition::TaskLists(lists)
}

fn relocation(b: usize, pos: BlockPos) -> (r: Vec<BlockTask>)
    ensures
        r@ == relocate_then_continue(b, pos),
{
    let mut tasks: Vec<BlockTask> = Vec::new();
    tasks.push(BlockTask::Method(BlockMethod::MoveOne(b, pos)));
    tasks.push(BlockTask::Method(BlockMethod::MoveBlocks));
    assert(tasks@ =~= relocate_then_continue(b, pos));
    tasks
}

fn move_blocks(state: &BlockState, goal: &BlockGoals) -> (r: Decomposition)
    requires
        state@.wf(),
    ensures
        r@ == decompose_all(state@, goal@),
{
    let status = get_status(state, goal);
    let ghost st = status@;
    let mut i: usize = 0;
    while i < status.len()
        invariant
            st == status@,
            st == statuses(state@, goal@),
            i <= status.len(),
            forall|j: int| 0 <= j < i ==> !(st[j] is Move),
        decreases status.len() - i,
    {
        if let Status::Move(b, pos) = status[i] {
            proof {
                let k = first_move(st);
                assert(0 <= k < st.len() && st[k] is Move && forall|j: int| 0 <= j < k ==> !(st[j] is Move));
                assert(k == i as int) by {
                    if k > i {
                        assert(st[i as int] is Move);
                    }
                }
            }
            return single_list(relocation(b, pos));
        }
        i += 1;
    }
    let mut waiting: Vec<Vec<BlockTask>> = Vec::new();
    for k in 0..status.len()
        invariant
            st == status@,
            waiting@.map_values(|l: Vec<BlockTask>| l@) == waiting_alternatives(st.take(k as int)),
    {
        proof {
            st.lemma_filter_map_take_succ(|s: Status| waiting_choice(s), k as int);
        }
        if let Status::Waiting(b) = status[k] {
            let ghost before = waiting@;
            waiting.push(relocation(b, BlockPos::Table));
            assert(waiting@.map_values(|l: Vec<BlockTask>| l@)
                =~= before.map_values(|l: Vec<BlockTask>| l@).push(relocate_then_continue(b, BlockPos::Table)));
        }
        assert(waiting@.map_values(|l: Vec<BlockTask>| l@) =~= waiting_alternatives(st.take(k + 1)));
    }
    assert(st.take(st.len() as int) == st);
    if waiting.len() == 0 {
        Decomposition::Failure
    } else {
        Decomposition::TaskLists(waiting)
    }
}

fn move_one(block: usize, pos: BlockPos) -> (r: Decomposition)
    ensures
        r@ == Some(seq![seq![BlockTask::Method(BlockMethod::Get(block)), BlockTask::Method(BlockMethod::Put(pos))]]),
{
    let mut tasks: Vec<BlockTask> = Vec::new();
    tasks.push(BlockTask::Method(BlockMethod::Get(block)));
    tasks.push(BlockTask::Method(BlockMethod::Put(pos)));
    assert(tasks@ =~= seq![BlockTask::Method(BlockMethod::Get(block)), BlockTask::Method(BlockMethod::Put(pos))]);
    single_list(tasks)
}

fn get(state: &BlockState, block: usize) -> (r: Decomposition)
    ensures
        r@ == BlockMethod::Get(block).decompose(state@, Map::empty()),
{
    if state.clear(block) {
        let op = match state.get_pos(block) {
            BlockPos::Table => BlockOperator::PickUp(block),
            BlockPos::On(block2) => BlockOperator::Unstack(block, block2),
        };
        let mut tasks: Vec<BlockTask> = Vec::new();
        tasks.push(BlockTask::Operator(op));
        assert(tasks@ =~= seq![BlockTask::Operator(acquire_op(state@, block))]);
        single_list(tasks)
    } else {
        Decomposition::Failure
    }
}

fn put(state: &BlockState, pos: BlockPos) -> (r: Decomposition)
    ensures
        r@ == BlockMethod::Put(pos).decompose(state@, Map::empty()),
{
    if let Some(b) = state.get_holding() {
        let op = match pos {
            BlockPos::Table => BlockOperator::PutDown(b),
            BlockPos::On(b2) => BlockOperator::Stack(b, b2),
        };
        let mut tasks: Vec<BlockTask> = Vec::new();
        tasks.push(BlockTask::Operator(op));
        assert(tasks@ =~= seq![BlockTask::Operator(place_op(b, pos))]);
        single_list(tasks)
    } else {
        Decomposition::Failure
    }
}

/// The target arrangement: for each constrained block, the block it should
/// rest on.
#[derive(Clone, PartialOrd, PartialEq, Ord, Eq, Debug)]
pub struct BlockGoals {
    stacks: BTreeMap<usize, usize>,
}

impl View for BlockGoals {
    type V = Map<usize, usize>;

    closed spec fn view(&self) -> Map<usize, usize> {
        self.stacks@
    }
}

impl BlockGoals {
    pub fn new(goals: Vec<(usize, usize)>) -> (r: Self)
        ensures
            r@ == goal_map(goals@),
    {
        let mut result = BlockGoals { stacks: BTreeMap::new() };
        for i in 0..goals.len()
            invariant
                result@ == goal_map(goals@.take(i as int)),
        {
            let (top, bottom) = goals[i];
            result.stacks.insert(top, bottom);
            assert(goals@.take(i + 1).drop_last() == goals@.take(i as int));
        }
        assert(goals@.take(goals.len() as int) == goals@);
        result
    }

    pub fn get_pos(&self, block: usize) -> (r: BlockPos)
        ensures
            r == goal_pos(self@, block),
    {
        match self.stacks.get(&block) {
            Some(other) => BlockPos::On(*other),
            None => BlockPos::Table,
        }
    }

    /// Planning starts from the single task of moving every block.
    pub fn starting_tasks(&self) -> (r: Vec<BlockTask>)
        ensures
            r@ == seq![BlockTask::Method(BlockMethod::MoveBlocks)],
    {
        let mut tasks: Vec<BlockTask> = Vec::new();
        tasks.push(BlockTask::Method(BlockMethod::MoveBlocks));
        assert(tasks@ =~= seq![BlockTask::Method(BlockMethod::MoveBlocks)]);
        tasks
    }

    /// Whether every constrained block rests exactly on its desired support.
    pub fn accepts(&self, state: &BlockState) -> (r: bool)
        ensures
            r == goal_accepts(self@, state@),
    {
        proof {
            assert(vstd::laws_cmp::obeys_cmp::<usize>());
            assert(vstd::std_specs::btree::key_obeys_cmp_spec::<usize>());
        }
        let iter = self.stacks.iter();
        let ghost pairs = iter.remaining();
        let mut ok = true;
        for entry in it: iter
            invariant
                it.seq() == pairs,
                pairs == vstd::std_specs::btree::spec_btree_map_iter(&self.stacks).remaining(),
                ok == forall|i: int|
                    0 <= i < it.index() ==> state@.pos(*pairs[i].0) == BlockPos::On(*pairs[i].1),
        {
            let (top, bottom) = entry;
            if !(state.get_pos(*top) == BlockPos::On(*bottom)) {
                ok = false;
            }
        }
        proof {
            if ok {
                assert forall|a: usize| #[trigger] self@.contains_key(a) implies state@.pos(a)
                    == BlockPos::On(self@[a]) by {
                    assert(pairs.contains((&a, &self@[a])));
                    let i = choose|i: int| 0 <= i < pairs.len() && pairs[i] == (&a, &self@[a]);
                    assert(state@.pos(*pairs[i].0) == BlockPos::On(*pairs[i].1));
                }
            } else {
                let i = choose|i: int|
                    0 <= i < pairs.len() && !(state@.pos(*pairs[i].0) == BlockPos::On(*pairs[i].1));
                assert(self@.contains_key(*pairs[i].0) && self@[*pairs[i].0] == *pairs[i].1);
            }
        }
        ok
    }

    /// The number of placed blocks that are not done: zero once the goal is
    /// reached, and lower is closer.
    pub fn distance_from(&self, state: &BlockState) -> (r: usize)
        requires
            state@.wf(),
        ensures
            r == distance(state@, self@),
    {
        let blocks = state.all_blocks();
        let ghost v = state@;
        let ghost undone = |b: usize| !block_done(v, self@, b);
        let mut count: usize = 0;
        assert(blocks@.take(0).to_set().filter(undone) =~= Set::<usize>::empty());
        for i in 0..blocks.len()
            invariant
                v == state@,
                v.wf(),
                undone == (|b: usize| !block_done(v, self@, b)),
                blocks@.no_duplicates(),
                count == blocks@.take(i as int).to_set().filter(undone).len(),
                count <= i,
        {
            let b = blocks[i];
            let ghost seen = blocks@.take(i as int).to_set();
            proof {
                assert(blocks@.take(i + 1) == blocks@.take(i as int).push(b));
                blocks@.take(i as int).lemma_push_to_set_commute(b);
                vstd::seq_lib::seq_to_set_is_finite(blocks@.take(i as int));
                assert(!seen.contains(b)) by {
                    if seen.contains(b) {
                        let k = choose|k: int| 0 <= k < i && blocks@.take(i as int)[k] == b;
                        assert(blocks@[k] == blocks@[i as int]);
                    }
                }
            }
            if !is_done(b, state, self) {
                assert(seen.insert(b).filter(undone) =~= seen.filter(undone).insert(b));
                count += 1;
            } else {
                assert(seen.insert(b).filter(undone) =~= seen.filter(undone));
            }
        }
        assert(blocks@.take(blocks.len() as int) == blocks@);
        assert(blocks@.to_set().filter(undone) =~= v.placed().filter(|b: usize| !block_done(v, self@, b)));
        count
    }

    /// Whether carrying out `plan` from `start`, each action in turn, succeeds
    /// at every step and ends in a state this goal accepts.
    pub fn plan_valid(&self, start: &BlockState, plan: &Vec<BlockOperator>) -> (r: bool)
        ensures
            r == plan_succeeds(self@, start@, plan@),
    {
        let mut state = start.snapshot();
        assert(plan@.skip(0) == plan@);
        for i in 0..plan.len()
            invariant
                replay(start@, plan@) == replay(state@, plan@.skip(i as int)),
        {
            assert(plan@.skip(i as int).drop_first() == plan@.skip(i + 1));
            if !plan[i].attempt_update(&mut state) {
                return false;
            }
        }
        assert(plan@.skip(plan.len() as int).len() == 0);
        self.accepts(&state)
    }
}

/// A plan that the search carried out action by action, each action
/// succeeding on the state the previous one left, and that ended in a state
/// the goal accepts, is reported valid when replayed from the start state.
pub proof fn lemma_plan_sound(
    g: Map<usize, usize>,
    start: BlockStateView,
    plan: Seq<BlockOperator>,
    trace: Seq<BlockStateView>,
)
    requires
        trace.len() == plan.len() + 1,
        trace[0] == start,
        forall|i: int| 0 <= i < plan.len() ==> #[trigger] plan[i].outcome(trace[i]) == Some(trace[i + 1]),
        goal_accepts(g, trace.last()),
    ensures
        plan_succeeds(g, start, plan),
    decreases plan.len(),
{
    if plan.len() > 0 {
        let rest = trace.drop_first();
        assert forall|i: int| 0 <= i < plan.drop_first().len() implies #[trigger] plan.drop_first()[i].outcome(rest[i])
            == Some(rest[i + 1]) by {
            assert(plan[i + 1].outcome(trace[i + 1]) == Some(trace[i + 2]));
        }
        assert(plan[0].outcome(trace[0]) == Some(trace[1]));
        assert(rest.last() == trace.last());
        lemma_plan_sound(g, trace[1], plan.drop_first(), rest);
    }
}

/// Moving one block leaves done every block that was done, provided the moved
/// block was not done.
pub proof fn lemma_done_kept(
    v: BlockStateView,
    w: BlockStateView,
    g: Map<usize, usize>,
    b: usize,
    x: usize,
    f: nat,
)
    requires
        !block_done(v, g, b),
        forall|y: usize| y != b ==> #[trigger] w.pos(y) == v.pos(y),
        done_within(v, g, x, f),
    ensures
        done_within(w, g, x, f),
    decreases f,
{
    assert(x != b);
    assert(w.pos(x) == v.pos(x));
    if let BlockPos::On(c) = v.pos(x) {
        lemma_done_kept(v, w, g, b, c, (f - 1) as nat);
    }
}

/// When the top-level decomposition finds block `b` ready to move to `pos`,
/// the action that `Get(b)` emits succeeds, the action that `Put(pos)` then
/// emits succeeds, and the resulting well-formed state with an empty gripper
/// is strictly closer to the goal.
pub proof fn lemma_move_progress(v: BlockStateView, g: Map<usize, usize>, b: usize, pos: BlockPos)
    requires
        v.wf(),
        v.holding is None,
        v.placed().contains(b),
        status_of(v, g, b) == Status::Move(b, pos),
    ensures
        BlockMethod::Get(b).decompose(v, g) == Some(seq![seq![BlockTask::Operator(acquire_op(v, b))]]),
        acquire_op(v, b).outcome(v) matches Some(v1) && {
            &&& BlockMethod::Put(pos).decompose(v1, g) == Some(
                seq![seq![BlockTask::Operator(place_op(b, pos))]],
            )
            &&& place_op(b, pos).outcome(v1) matches Some(v2) && {
                &&& v2.wf()
                &&& v2.holding is None
                &&& distance(v2, g) < distance(v, g)
            }
        },
{
    let v1 = match v.pos(b) {
        BlockPos::Table => {
            assert(v.can_pick_up(b));
            lemma_pick_up_wf(v, b);
            v.after_pick_up(b)
        },
        BlockPos::On(c0) => {
            assert(v.can_unstack(b, c0));
            lemma_unstack_wf(v, b, c0);
            v.after_unstack(b, c0)
        },
    };
    assert(acquire_op(v, b).outcome(v) == Some(v1));
    assert(v1.holding == Some(b));
    let v2 = match pos {
        BlockPos::Table => {
            lemma_put_down_wf(v1, b);
            v1.after_put_down(b)
        },
        BlockPos::On(c) => {
            assert(block_done(v, g, c) && v.clear.contains(c));
            assert(c != b);
            assert(v1.clear.contains(c));
            lemma_stack_wf(v1, b, c);
            v1.after_stack(b, c)
        },
    };
    assert(place_op(b, pos).outcome(v1) == Some(v2));
    assert forall|y: usize| y != b implies #[trigger] v2.pos(y) == v.pos(y) by {}
    assert(v2.pos(b) == goal_pos(g, b));

    let undone_v = |x: usize| !block_done(v, g, x);
    let undone_w = |x: usize| !block_done(v2, g, x);
    assert forall|x: usize| block_done(v, g, x) implies block_done(v2, g, x) by {
        let f = choose|f: nat| done_within(v, g, x, f);
        lemma_done_kept(v, v2, g, b, x, f);
    }
    assert(block_done(v2, g, b)) by {
        lemma_done_unfold(v2, g, b);
    }
    assert(v2.placed() =~= v.placed());
    let before = v.placed().filter(undone_v);
    let after = v2.placed().filter(undone_w);
    assert(after.subset_of(before.remove(b)));
    assert(before.contains(b));
    vstd::set_lib::lemma_len_subset(after, before.remove(b));
}

} // verus!
