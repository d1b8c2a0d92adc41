use std::collections::{BTreeMap, BTreeSet};
use vstd::prelude::*;
use vstd::std_specs::cmp::OrdSpec;
use vstd::std_specs::iter::IteratorSpec;

use crate::methods::BlockGoals;

verus! {

broadcast use {vstd::std_specs::btree::group_btree_axioms, vstd::laws_cmp::group_laws_cmp};

/// Where a block rests: on top of another block, or on the table.
#[derive(Copy, Clone, PartialOrd, PartialEq, Ord, Eq, Debug, Structural)]
pub enum BlockPos {
    On(usize),
    Table,
}

/// Strictly increasing sequence of block identifiers.
pub open spec fn increasing(s: Seq<usize>) -> bool {
    forall|i: int, j: int| 0 <= i < j < s.len() ==> s[i] < s[j]
}

/// Following `m` down from `b` reaches a block that rests on nothing in `m`
/// within `fuel` steps.
pub open spec fn grounded(m: Map<usize, usize>, b: usize, fuel: nat) -> bool
    decreases fuel,
{
    if !m.contains_key(b) {
        true
    } else if fuel == 0 {
        false
    } else {
        grounded(m, m[b], (fuel - 1) as nat)
    }
}

/// The mathematical content of a `BlockState`.
pub struct BlockStateView {
    pub stacks: Map<usize, usize>,
    pub table: Set<usize>,
    pub clear: Set<usize>,
    pub holding: Option<usize>,
}

impl BlockStateView {
    pub open spec fn pos(self, b: usize) -> BlockPos {
        if self.stacks.contains_key(b) {
            BlockPos::On(self.stacks[b])
        } else {
            BlockPos::Table
        }
    }

    /// Blocks that rest somewhere: on the table or on another block.
    pub open spec fn placed(self) -> Set<usize> {
        self.table + self.stacks.dom()
    }

    /// Every block of the state, the held one included.
    pub open spec fn blocks(self) -> Set<usize> {
        match self.holding {
            Some(h) => self.placed().insert(h),
            None => self.placed(),
        }
    }

    pub open spec fn has_on_top(self, b: usize) -> bool {
        exists|a: usize| #[trigger] self.stacks.contains_key(a) && self.stacks[a] == b
    }

    /// The structural invariant: each block is in exactly one of the table, the
    /// gripper, or on another block; supports are placed blocks carrying one
    /// block each; towers end on the table; `clear` holds exactly the placed
    /// blocks with nothing on them.
    pub open spec fn wf(self) -> bool {
        &&& self.stacks.dom().finite()
        &&& self.table.finite()
        &&& self.table.disjoint(self.stacks.dom())
        &&& (self.holding matches Some(h) ==> !self.table.contains(h) && !self.stacks.contains_key(h))
        &&& forall|a: usize| #[trigger]
            self.stacks.contains_key(a) ==> self.placed().contains(self.stacks[a])
        &&& forall|a1: usize, a2: usize|
            #[trigger] self.stacks.contains_key(a1) && #[trigger] self.stacks.contains_key(a2)
                && self.stacks[a1] == self.stacks[a2] ==> a1 == a2
        &&& forall|b: usize| #[trigger]
            self.clear.contains(b) <==> (self.placed().contains(b) && !self.has_on_top(b))
        &&& forall|b: usize| #[trigger]
            self.stacks.contains_key(b) ==> exists|f: nat| grounded(self.stacks, b, f)
    }

    pub open spec fn can_pick_up(self, b: usize) -> bool {
        self.holding is None && self.table.contains(b) && self.clear.contains(b)
    }

    pub open spec fn after_pick_up(self, b: usize) -> BlockStateView {
        BlockStateView {
            holding: Some(b),
            table: self.table.remove(b),
            clear: self.clear.remove(b),
            ..self
        }
    }

    pub open spec fn can_put_down(self, b: usize) -> bool {
        self.holding == Some(b)
    }

    pub open spec fn after_put_down(self, b: usize) -> BlockStateView {
        BlockStateView {
            holding: None,
            table: self.table.insert(b),
            clear: self.clear.insert(b),
            ..self
        }
    }

    pub open spec fn can_unstack(self, a: usize, b: usize) -> bool {
        self.holding is None && self.pos(a) == BlockPos::On(b) && self.clear.contains(a)
    }

    pub open spec fn after_unstack(self, a: usize, b: usize) -> BlockStateView {
        BlockStateView {
            holding: Some(a),
            clear: self.clear.insert(b).remove(a),
            stacks: self.stacks.remove(a),
            ..self
        }
    }

    pub open spec fn can_stack(self, a: usize, b: usize) -> bool {
        self.holding == Some(a) && self.clear.contains(b)
    }

    pub open spec fn after_stack(self, a: usize, b: usize) -> BlockStateView {
        BlockStateView {
            holding: None,
            clear: self.clear.remove(b).insert(a),
            stacks: self.stacks.insert(a, b),
            ..self
        }
    }
}

pub proof fn lemma_grounded_remove(m: Map<usize, usize>, a: usize, c: usize, f: nat)
    requires
        grounded(m, c, f),
    ensures
        grounded(m.remove(a), c, f),
    decreases f,
{
    if m.contains_key(c) && f > 0 {
        lemma_grounded_remove(m, a, m[c], (f - 1) as nat);
    }
}

pub proof fn lemma_grounded_insert(m: Map<usize, usize>, a: usize, b: usize, c: usize, f: nat)
    requires
        grounded(m, c, f),
        c != a,
        forall|k: usize| #[trigger] m.contains_key(k) ==> m[k] != a,
    ensures
        grounded(m.insert(a, b), c, f),
    decreases f,
{
    if m.contains_key(c) && f > 0 {
        lemma_grounded_insert(m, a, b, m[c], (f - 1) as nat);
    }
}

/// In a well-formed state every block is in exactly one place (on the table,
/// in the gripper, or on another block), and a block is clear exactly when no
/// block rests on it and it is not held.
pub proof fn lemma_state_invariant(v: BlockStateView)
    requires
        v.wf(),
    ensures
        forall|b: usize| #[trigger] v.blocks().contains(b) ==> {
            let on_table = v.table.contains(b);
            let held = v.holding == Some(b);
            let stacked = v.stacks.contains_key(b);
            &&& on_table || held || stacked
            &&& !(on_table && held) && !(on_table && stacked) && !(held && stacked)
        },
        forall|b: usize| #[trigger] v.blocks().contains(b) ==> (v.clear.contains(b) <==> (
            !(exists|a: usize| #[trigger] v.pos(a) == BlockPos::On(b)) && v.holding != Some(b))),
{
    assert forall|b: usize| #[trigger] v.blocks().contains(b) implies (v.clear.contains(b) <==> (
        !(exists|a: usize| #[trigger] v.pos(a) == BlockPos::On(b)) && v.holding != Some(b))) by {
        if exists|a: usize| #[trigger] v.pos(a) == BlockPos::On(b) {
            let a = choose|a: usize| #[trigger] v.pos(a) == BlockPos::On(b);
            assert(v.stacks.contains_key(a) && v.stacks[a] == b);
        }
        if v.has_on_top(b) {
            let a = choose|a: usize| #[trigger] v.stacks.contains_key(a) && v.stacks[a] == b;
            assert(v.pos(a) == BlockPos::On(b));
        }
    }
}

/// Lifting a clear block off the table keeps the invariant.
pub proof fn lemma_pick_up_wf(v: BlockStateView, b: usize)
    requires
        v.wf(),
        v.can_pick_up(b),
    ensures
        v.after_pick_up(b).wf(),
{
    let w = v.after_pick_up(b);
    assert forall|x: usize| w.clear.contains(x) <==> (w.placed().contains(x) && !w.has_on_top(x)) by {
        assert(v.clear.contains(x) <==> (v.placed().contains(x) && !v.has_on_top(x)));
    }
    assert forall|x: usize| #[trigger] w.stacks.contains_key(x) implies w.placed().contains(w.stacks[x]) by {
        assert(v.placed().contains(v.stacks[x]));
        if v.stacks[x] == b {
            assert(v.has_on_top(b));
        }
    }
}

/// Setting the held block on the table keeps the invariant.
pub proof fn lemma_put_down_wf(v: BlockStateView, b: usize)
    requires
        v.wf(),
        v.can_put_down(b),
    ensures
        v.after_put_down(b).wf(),
{
    let w = v.after_put_down(b);
    assert forall|x: usize| w.clear.contains(x) <==> (w.placed().contains(x) && !w.has_on_top(x)) by {
        assert(v.clear.contains(x) <==> (v.placed().contains(x) && !v.has_on_top(x)));
        if x == b && w.has_on_top(x) {
            let a = choose|a: usize| #[trigger] w.stacks.contains_key(a) && w.stacks[a] == x;
            assert(v.placed().contains(v.stacks[a]));
        }
    }
}

/// Lifting the top block of a tower keeps the invariant.
pub proof fn lemma_unstack_wf(v: BlockStateView, a: usize, b: usize)
    requires
        v.wf(),
        v.can_unstack(a, b),
    ensures
        v.after_unstack(a, b).wf(),
{
    let w = v.after_unstack(a, b);
    assert forall|x: usize| w.clear.contains(x) <==> (w.placed().contains(x) && !w.has_on_top(x)) by {
        assert(v.clear.contains(x) <==> (v.placed().contains(x) && !v.has_on_top(x)));
        if w.has_on_top(x) {
            let c = choose|c: usize| #[trigger] w.stacks.contains_key(c) && w.stacks[c] == x;
            assert(v.stacks.contains_key(c) && v.stacks[c] == x);
            if x == b {
                assert(v.stacks.contains_key(a));
            }
        }
        if v.has_on_top(x) && x != b {
            let c = choose|c: usize| #[trigger] v.stacks.contains_key(c) && v.stacks[c] == x;
            assert(w.stacks.contains_key(c));
        }
    }
    assert forall|x: usize| #[trigger] w.stacks.contains_key(x) implies w.placed().contains(w.stacks[x]) by {
        assert(v.placed().contains(v.stacks[x]));
        if v.stacks[x] == a {
            assert(v.has_on_top(a));
        }
    }
    assert forall|x: usize| #[trigger] w.stacks.contains_key(x) implies exists|f: nat| grounded(w.stacks, x, f) by {
        let f = choose|f: nat| grounded(v.stacks, x, f);
        lemma_grounded_remove(v.stacks, a, x, f);
    }
}

/// Setting the held block on a clear block keeps the invariant.
pub proof fn lemma_stack_wf(v: BlockStateView, a: usize, b: usize)
    requires
        v.wf(),
        v.can_stack(a, b),
    ensures
        v.after_stack(a, b).wf(),
{
    let w = v.after_stack(a, b);
    assert(b != a);
    assert forall|k: usize| #[trigger] v.stacks.contains_key(k) implies v.stacks[k] != a by {
        assert(v.placed().contains(v.stacks[k]));
    }
    assert forall|x: usize| w.clear.contains(x) <==> (w.placed().contains(x) && !w.has_on_top(x)) by {
        assert(v.clear.contains(x) <==> (v.placed().contains(x) && !v.has_on_top(x)));
        if w.has_on_top(x) && x != b {
            let c = choose|c: usize| #[trigger] w.stacks.contains_key(c) && w.stacks[c] == x;
            assert(v.stacks.contains_key(c) && v.stacks[c] == x);
        }
        if v.has_on_top(x) {
            let c = choose|c: usize| #[trigger] v.stacks.contains_key(c) && v.stacks[c] == x;
            assert(w.stacks.contains_key(c));
        }
        if x == b {
            assert(w.stacks.contains_key(a));
        }
    }
    assert forall|a1: usize, a2: usize|
        #[trigger] w.stacks.contains_key(a1) && #[trigger] w.stacks.contains_key(a2)
            && w.stacks[a1] == w.stacks[a2] implies a1 == a2 by {
        if a1 == a && a2 != a {
            assert(v.has_on_top(b));
        }
        if a2 == a && a1 != a {
            assert(v.has_on_top(b));
        }
    }
    assert forall|x: usize| #[trigger] w.stacks.contains_key(x) implies exists|f: nat| grounded(w.stacks, x, f) by {
        if x == a {
            let fb: nat = if v.stacks.contains_key(b) {
                choose|f: nat| grounded(v.stacks, b, f)
            } else {
                0
            };
            lemma_grounded_insert(v.stacks, a, b, b, fb);
            assert(grounded(w.stacks, a, fb + 1));
        } else {
            let f = choose|f: nat| grounded(v.stacks, x, f);
            lemma_grounded_insert(v.stacks, a, b, x, f);
        }
    }
}

/// The world: which block is on which, which are on the table, which are
/// clear, and which one (if any) the gripper holds.
#[derive(Clone, PartialOrd, PartialEq, Ord, Eq, Debug)]
pub struct BlockState {
    stacks: BTreeMap<usize, usize>,
    table: BTreeSet<usize>,
    clear: BTreeSet<usize>,
    holding: Option<usize>,
}

impl View for BlockState {
    type V = BlockStateView;

    closed spec fn view(&self) -> BlockStateView {
        BlockStateView {
            stacks: self.stacks@,
            table: self.table@,
            clear: self.clear@,
            holding: self.holding,
        }
    }
}

/// Identifiers of a sequence of pairs' first components.
pub open spec fn firsts(p: Seq<(usize, usize)>) -> Set<usize> {
    p.map_values(|x: (usize, usize)| x.0).to_set()
}

/// Identifiers of a sequence of pairs' second components.
pub open spec fn seconds(p: Seq<(usize, usize)>) -> Set<usize> {
    p.map_values(|x: (usize, usize)| x.1).to_set()
}

/// The `i`-th "top rests on bottom" pair can be carried out by a pick-up and a
/// stack once the earlier pairs have been: its top is still on the table and
/// clear, and its bottom is another block that is still clear.
pub open spec fn pair_placeable(table: Seq<usize>, pairs: Seq<(usize, usize)>, i: int) -> bool {
    let top = pairs[i].0;
    let bottom = pairs[i].1;
    &&& top != bottom
    &&& (table.contains(bottom) || firsts(pairs).contains(bottom))
    &&& forall|j: int|
        0 <= j < i ==> pairs[j].0 != top && pairs[j].1 != top && pairs[j].1 != bottom
}

/// Every pair, taken in order, can be placed.
pub open spec fn layout_valid(table: Seq<usize>, pairs: Seq<(usize, usize)>) -> bool {
    forall|i: int| 0 <= i < pairs.len() ==> pair_placeable(table, pairs, i)
}

/// The state reached after placing the first `n` pairs on the blocks of
/// `table` and `pairs`, all of which start on the table.
pub open spec fn partial_layout(
    v: BlockStateView,
    table: Seq<usize>,
    pairs: Seq<(usize, usize)>,
    n: int,
) -> bool {
    let blocks = table.to_set() + firsts(pairs);
    &&& v.stacks.dom() == firsts(pairs.take(n))
    &&& (forall|j: int| 0 <= j < n ==> #[trigger] v.stacks[pairs[j].0] == pairs[j].1)
    &&& v.table == blocks - firsts(pairs.take(n))
    &&& v.clear == blocks - seconds(pairs.take(n))
    &&& v.holding is None
}

/// The elements of `s` in increasing order.
pub open spec fn sorted_elems(s: Set<usize>) -> Seq<usize> {
    choose|q: Seq<usize>| increasing(q) && q.to_set() == s
}

/// The order in which blocks are examined: table blocks by increasing
/// identifier, then stacked blocks by increasing identifier.
pub open spec fn block_order(v: BlockStateView) -> Seq<usize> {
    sorted_elems(v.table) + sorted_elems(v.stacks.dom())
}

/// Two increasing sequences with the same elements are equal.
pub proof fn lemma_increasing_unique(q1: Seq<usize>, q2: Seq<usize>)
    requires
        increasing(q1),
        increasing(q2),
        q1.to_set() == q2.to_set(),
    ensures
        q1 == q2,
    decreases q1.len(),
{
    if q1.len() == 0 {
        if q2.len() > 0 {
            assert(q2.to_set().contains(q2[0]));
        }
        assert(q1 =~= q2);
    } else {
        assert(q1.to_set().contains(q1[0]));
        assert(q2.len() > 0);
        assert(q2.to_set().contains(q2[0]));
        let k1 = choose|k: int| 0 <= k < q2.len() && q2[k] == q1[0];
        let k2 = choose|k: int| 0 <= k < q1.len() && q1[k] == q2[0];
        assert(q1[0] == q2[0]) by {
            if k1 > 0 {
                assert(q2[0] < q2[k1]);
            }
            if k2 > 0 {
                assert(q1[0] < q1[k2]);
            }
        }
        let r1 = q1.drop_first();
        let r2 = q2.drop_first();
        assert forall|x: usize| r1.to_set().contains(x) <==> r2.to_set().contains(x) by {
            if r1.to_set().contains(x) {
                let k = choose|k: int| 0 <= k < r1.len() && r1[k] == x;
                assert(q1[k + 1] == x && x != q1[0]);
                assert(q2.to_set().contains(x));
                let m = choose|m: int| 0 <= m < q2.len() && q2[m] == x;
                assert(m > 0);
                assert(r2[m - 1] == x);
            }
            if r2.to_set().contains(x) {
                let k = choose|k: int| 0 <= k < r2.len() && r2[k] == x;
                assert(q2[k + 1] == x && x != q2[0]);
                assert(q1.to_set().contains(x));
                let m = choose|m: int| 0 <= m < q1.len() && q1[m] == x;
                assert(m > 0);
                assert(r1[m - 1] == x);
            }
        }
        assert(r1.to_set() =~= r2.to_set());
        lemma_increasing_unique(r1, r2);
        assert forall|i: int| 0 <= i < q1.len() implies q1[i] == q2[i] by {
            if i > 0 {
                assert(q1[i] == r1[i - 1]);
                assert(q2[i] == r2[i - 1]);
            }
        }
        assert(q1 =~= q2);
    }
}

/// An increasing enumeration of `s` is the one `sorted_elems` names.
pub proof fn lemma_sorted_elems(q: Seq<usize>, s: Set<usize>)
    requires
        increasing(q),
        q.to_set() == s,
    ensures
        sorted_elems(s) == q,
{
    let c = sorted_elems(s);
    assert(increasing(c) && c.to_set() == s);
    lemma_increasing_unique(c, q);
}

pub proof fn lemma_firsts_take(p: Seq<(usize, usize)>, n: int, x: usize)
    requires
        0 <= n <= p.len(),
    ensures
        firsts(p.take(n)).contains(x) <==> exists|j: int| 0 <= j < n && #[trigger] p[j].0 == x,
{
    let q = p.take(n).map_values(|y: (usize, usize)| y.0);
    if firsts(p.take(n)).contains(x) {
        let k = choose|k: int| 0 <= k < q.len() && #[trigger] q[k] == x;
        assert(p[k].0 == x);
    }
    if exists|j: int| 0 <= j < n && #[trigger] p[j].0 == x {
        let j = choose|j: int| 0 <= j < n && #[trigger] p[j].0 == x;
        assert(q[j] == x);
    }
}

pub proof fn lemma_seconds_take(p: Seq<(usize, usize)>, n: int, x: usize)
    requires
        0 <= n <= p.len(),
    ensures
        seconds(p.take(n)).contains(x) <==> exists|j: int| 0 <= j < n && #[trigger] p[j].1 == x,
{
    let q = p.take(n).map_values(|y: (usize, usize)| y.1);
    if seconds(p.take(n)).contains(x) {
        let k = choose|k: int| 0 <= k < q.len() && #[trigger] q[k] == x;
        assert(p[k].1 == x);
    }
    if exists|j: int| 0 <= j < n && #[trigger] p[j].1 == x {
        let j = choose|j: int| 0 <= j < n && #[trigger] p[j].1 == x;
        assert(q[j] == x);
    }
}

impl BlockState {
    /// Every block starts on the table and clear; nothing is held.
    pub fn new(blocks: Vec<usize>) -> (r: Self)
        ensures
            r@.stacks == Map::<usize, usize>::empty(),
            r@.table == blocks@.to_set(),
            r@.clear == blocks@.to_set(),
            r@.holding is None,
            r@.wf(),
    {
        let mut state = BlockState {
            stacks: BTreeMap::new(),
            table: BTreeSet::new(),
            clear: BTreeSet::new(),
            holding: None,
        };
        for i in 0..blocks.len()
            invariant
                state@.stacks == Map::<usize, usize>::empty(),
                state@.table == blocks@.take(i as int).to_set(),
                state@.clear == blocks@.take(i as int).to_set(),
                state@.holding is None,
        {
            let block = blocks[i];
            state.table.insert(block);
            state.clear.insert(block);
            assert(blocks@.take(i + 1) == blocks@.take(i as int).push(block));
            proof {
                blocks@.take(i as int).lemma_push_to_set_commute(block);
            }
        }
        assert(blocks@.take(blocks.len() as int) == blocks@);
        proof {
            vstd::seq_lib::seq_to_set_is_finite(blocks@);
        }
        state
    }

    /// Builds a state from the blocks on the table and "top rests on bottom"
    /// pairs, given bottom of each tower first. Fails when a pair cannot be
    /// placed on what the earlier ones built.
    pub fn from(table: Vec<usize>, block_piles: Vec<(usize, usize)>) -> (r: Option<Self>)
        ensures
            r is Some <==> layout_valid(table@, block_piles@),
            r matches Some(s) ==> {
                &&& s@.wf()
                &&& partial_layout(s@, table@, block_piles@, block_piles@.len() as int)
            },
            r matches Some(s) ==> forall|j: int|
                0 <= j < block_piles@.len() ==> s@.pos(#[trigger] block_piles@[j].0) == BlockPos::On(
                    block_piles@[j].1,
                ),
            r matches Some(s) ==> forall|b: usize|
                #[trigger] table@.contains(b) && !firsts(block_piles@).contains(b) ==> s@.pos(b)
                    == BlockPos::Table,
    {
        let ghost pairs = block_piles@;
        let mut all_blocks = table.clone();
        for i in 0..block_piles.len()
            invariant
                all_blocks@ == table@ + pairs.take(i as int).map_values(|x: (usize, usize)| x.0),
                pairs == block_piles@,
        {
            all_blocks.push(block_piles[i].0);
            assert(pairs.take(i + 1).map_values(|x: (usize, usize)| x.0)
                == pairs.take(i as int).map_values(|x: (usize, usize)| x.0).push(pairs[i as int].0));
        }
        let ghost blocks = table@.to_set() + firsts(pairs);
        proof {
            assert(pairs.take(pairs.len() as int) == pairs);
            assert(all_blocks@.to_set() == blocks) by {
                assert forall|x: usize| all_blocks@.to_set().contains(x) <==> blocks.contains(x) by {
                    let t = table@;
                    let f = pairs.map_values(|x: (usize, usize)| x.0);
                    assert(all_blocks@ == t + f);
                    if all_blocks@.contains(x) {
                        let k = choose|k: int| 0 <= k < all_blocks@.len() && all_blocks@[k] == x;
                        if k < t.len() {
                            assert(t[k] == x);
                        } else {
                            assert(f[k - t.len()] == x);
                        }
                    }
                    if t.contains(x) {
                        let k = choose|k: int| 0 <= k < t.len() && t[k] == x;
                        assert(all_blocks@[k] == x);
                    }
                    if f.contains(x) {
                        let k = choose|k: int| 0 <= k < f.len() && f[k] == x;
                        assert(all_blocks@[t.len() + k] == x);
                    }
                }
            }
            assert(pairs.take(0) =~= Seq::<(usize, usize)>::empty());
            assert(firsts(pairs.take(0)) =~= Set::<usize>::empty());
            assert(seconds(pairs.take(0)) =~= Set::<usize>::empty());
        }
        let mut result = BlockState::new(all_blocks);
        proof {
            assert(result@.stacks.dom() =~= firsts(pairs.take(0)));
            assert(result@.table =~= blocks - firsts(pairs.take(0)));
            assert(result@.clear =~= blocks - seconds(pairs.take(0)));
        }
        for i in 0..block_piles.len()
            invariant
                pairs == block_piles@,
                blocks == table@.to_set() + firsts(pairs),
                result@.wf(),
                partial_layout(result@, table@, pairs, i as int),
                forall|j: int| 0 <= j < i ==> pair_placeable(table@, pairs, j),
        {
            let (top, bottom) = block_piles[i];
            let ghost before = result@;
            let ghost prefix = pairs.take(i as int);
            proof {
                assert(pairs.take(i + 1) == prefix.push((top, bottom)));
                assert(firsts(pairs).contains(top)) by {
                    assert(pairs.map_values(|x: (usize, usize)| x.0)[i as int] == top);
                }
                lemma_firsts_take(pairs, i as int, top);
                lemma_seconds_take(pairs, i as int, top);
                lemma_seconds_take(pairs, i as int, bottom);
                assert(blocks.contains(bottom) <==> (table@.contains(bottom) || firsts(pairs).contains(bottom))) by {
                    assert(table@.to_set().contains(bottom) <==> table@.contains(bottom));
                }
            }
            if !result.pick_up(top) {
                assert(!pair_placeable(table@, pairs, i as int));
                return None;
            }
            if !result.stack(top, bottom) {
                assert(!pair_placeable(table@, pairs, i as int));
                return None;
            }
            proof {
                let next = pairs.take(i + 1);
                assert(next.map_values(|x: (usize, usize)| x.0)
                    == prefix.map_values(|x: (usize, usize)| x.0).push(top));
                assert(next.map_values(|x: (usize, usize)| x.1)
                    == prefix.map_values(|x: (usize, usize)| x.1).push(bottom));
                prefix.map_values(|x: (usize, usize)| x.0).lemma_push_to_set_commute(top);
                prefix.map_values(|x: (usize, usize)| x.1).lemma_push_to_set_commute(bottom);
                assert(result@.stacks.dom() =~= firsts(next));
                assert(result@.table =~= blocks - firsts(next));
                assert(result@.clear =~= blocks - seconds(next));
                assert(pair_placeable(table@, pairs, i as int));
            }
        }
        proof {
            assert(pairs.take(pairs.len() as int) == pairs);
            assert forall|j: int| 0 <= j < pairs.len() implies result@.pos(#[trigger] pairs[j].0)
                == BlockPos::On(pairs[j].1) by {
                lemma_firsts_take(pairs, pairs.len() as int, pairs[j].0);
            }
        }
        Some(result)
    }

    /// Table blocks by increasing identifier, then stacked blocks by
    /// increasing identifier. The held block is not listed.
    pub fn all_blocks(&self) -> (r: Vec<usize>)
        ensures
            r@ == block_order(self@),
            r@.to_set() == self@.placed(),
            self@.wf() ==> r@.no_duplicates(),
    {
        proof {
            assert(vstd::laws_cmp::obeys_cmp::<usize>());
            assert(vstd::std_specs::btree::key_obeys_cmp_spec::<usize>());
            assert(vstd::laws_cmp::obeys_cmp::<&usize>());
        }
        let mut result: Vec<usize> = Vec::new();

        let table_iter = self.table.iter();
        let ghost table_keys = table_iter.remaining().unref();
        proof {
            vstd::std_specs::btree::axiom_increasing_seq_meaning(table_iter.remaining());
            assert forall|i: int, j: int| 0 <= i < j < table_keys.len() implies table_keys[i] < table_keys[j] by {
                assert(<&usize as OrdSpec>::cmp_spec(&table_iter.remaining()[i], &table_iter.remaining()[j]) is Less);
            }
            lemma_sorted_elems(table_keys, self.table@);
        }
        for b in it: table_iter
            invariant
                it.seq().unref() == table_keys,
                result@ == table_keys.take(it.index() as int),
        {
            result.push(*b);
        }
        assert(result@ =~= table_keys);

        let stack_iter = self.stacks.keys();
        let ghost stack_keys = stack_iter.remaining().unref();
        proof {
            vstd::std_specs::btree::axiom_increasing_seq_meaning(stack_iter.remaining());
            assert forall|i: int, j: int| 0 <= i < j < stack_keys.len() implies stack_keys[i] < stack_keys[j] by {
                assert(<&usize as OrdSpec>::cmp_spec(&stack_iter.remaining()[i], &stack_iter.remaining()[j]) is Less);
            }
            lemma_sorted_elems(stack_keys, self.stacks@.dom());
        }
        for b in it: stack_iter
            invariant
                it.seq().unref() == stack_keys,
                result@ == table_keys + stack_keys.take(it.index() as int),
        {
            result.push(*b);
        }
        assert(stack_keys.take(stack_keys.len() as int) == stack_keys);
        proof {
            assert(result@ == table_keys + stack_keys);
            vstd::seq_lib::seq_to_set_distributes_over_add(table_keys, stack_keys);
            if self@.wf() {
                assert forall|i: int, j: int| 0 <= i < j < result@.len() implies result@[i] != result@[j] by {
                    let t = table_keys.len() as int;
                    if j < t {
                        assert(table_keys[i] < table_keys[j]);
                    } else if i >= t {
                        assert(stack_keys[i - t] < stack_keys[j - t]);
                    } else {
                        assert(self@.table.contains(table_keys[i]));
                        assert(stack_keys.to_set().contains(stack_keys[j - t]));
                    }
                }
            }
        }
        result
    }

    /// A copy of this state with the same content.
    pub(crate) fn snapshot(&self) -> (r: Self)
        ensures
            r@ == self@,
    {
        BlockState {
            stacks: self.stacks.clone(),
            table: self.table.clone(),
            clear: self.clear.clone(),
            holding: self.holding,
        }
    }

    pub fn get_pos(&self, block: usize) -> (r: BlockPos)
        ensures
            r == self@.pos(block),
    {
        match self.stacks.get(&block) {
            Some(on) => BlockPos::On(*on),
            None => BlockPos::Table,
        }
    }

    pub fn get_holding(&self) -> (r: Option<usize>)
        ensures
            r == self@.holding,
    {
        self.holding
    }

    /// Whether nothing rests on `block` and it is not held.
    pub fn clear(&self, block: usize) -> (r: bool)
        ensures
            r == self@.clear.contains(block),
    {
        self.clear.contains(&block)
    }

    /// Lifts a clear block off the table into the empty gripper; on failure
    /// nothing changes.
    pub fn pick_up(&mut self, block: usize) -> (r: bool)
        ensures
            r == old(self)@.can_pick_up(block),
            r ==> final(self)@ == old(self)@.after_pick_up(block),
            !r ==> final(self)@ == old(self)@,
            old(self)@.wf() ==> final(self)@.wf(),
    {
        if self.holding.is_none() && self.table.contains(&block) && self.clear.contains(&block) {
            self.holding = Some(block);
            self.table.remove(&block);
            self.clear.remove(&block);
            proof {
                if old(self)@.wf() {
                    lemma_pick_up_wf(old(self)@, block);
                }
            }
            assert(self@ == old(self)@.after_pick_up(block));
            true
        } else {
            false
        }
    }

    /// Sets the held block on the table; on failure nothing changes.
    pub fn put_down(&mut self, block: usize) -> (r: bool)
        ensures
            r == old(self)@.can_put_down(block),
            r ==> final(self)@ == old(self)@.after_put_down(block),
            !r ==> final(self)@ == old(self)@,
            old(self)@.wf() ==> final(self)@.wf(),
    {
        if self.holding == Some(block) {
            self.clear.insert(block);
            self.table.insert(block);
            self.holding = None;
            proof {
                if old(self)@.wf() {
                    lemma_put_down_wf(old(self)@, block);
                }
            }
            assert(self@ == old(self)@.after_put_down(block));
            true
        } else {
            false
        }
    }

    /// Lifts clear block `a` off block `b` into the empty gripper; on failure
    /// nothing changes.
    pub fn unstack(&mut self, a: usize, b: usize) -> (r: bool)
        ensures
            r == old(self)@.can_unstack(a, b),
            r ==> final(self)@ == old(self)@.after_unstack(a, b),
            !r ==> final(self)@ == old(self)@,
            old(self)@.wf() ==> final(self)@.wf(),
    {
        if self.holding.is_none() && self.get_pos(a) == BlockPos::On(b) && self.clear.contains(&a) {
            self.holding = Some(a);
            self.clear.insert(b);
            self.clear.remove(&a);
            self.stacks.remove(&a);
            proof {
                if old(self)@.wf() {
                    lemma_unstack_wf(old(self)@, a, b);
                }
            }
            assert(self@ == old(self)@.after_unstack(a, b));
            true
        } else {
            false
        }
    }

    /// Sets held block `a` on clear block `b`; on failure nothing changes.
    pub fn stack(&mut self, a: usize, b: usize) -> (r: bool)
        ensures
            r == old(self)@.can_stack(a, b),
            r ==> final(self)@ == old(self)@.after_stack(a, b),
            !r ==> final(self)@ == old(self)@,
            old(self)@.wf() ==> final(self)@.wf(),
    {
        if self.holding == Some(a) && self.clear.contains(&b) {
            self.holding = None;
            self.clear.remove(&b);
            self.clear.insert(a);
            self.stacks.insert(a, b);
            proof {
                if old(self)@.wf() {
                    lemma_stack_wf(old(self)@, a, b);
                }
            }
            assert(self@ == old(self)@.after_stack(a, b));
            true
        } else {
            false
        }
    }
}

/// A primitive action on the world.
#[derive(Copy, Clone, Debug, Ord, PartialOrd, Eq, PartialEq, Structural)]
pub enum BlockOperator {
    PickUp(usize),
    PutDown(usize),
    Stack(usize, usize),
    Unstack(usize, usize),
}

impl BlockOperator {
    /// The state this action leads to from `v`, or `None` where its
    /// precondition fails.
    pub open spec fn outcome(self, v: BlockStateView) -> Option<BlockStateView> {
        match self {
            BlockOperator::PickUp(b) => if v.can_pick_up(b) {
                Some(v.after_pick_up(b))
            } else {
                None
            },
            BlockOperator::PutDown(b) => if v.can_put_down(b) {
                Some(v.after_put_down(b))
            } else {
                None
            },
            BlockOperator::Stack(a, b) => if v.can_stack(a, b) {
                Some(v.after_stack(a, b))
            } else {
                None
            },
            BlockOperator::Unstack(a, b) => if v.can_unstack(a, b) {
                Some(v.after_unstack(a, b))
            } else {
                None
            },
        }
    }

    /// Every action costs one step.
    pub fn cost(&self, _state: &BlockState, _goal: &BlockGoals) -> (r: usize)
        ensures
            r == 1,
    {
        1
    }

    pub fn zero_cost() -> (r: usize)
        ensures
            r == 0,
    {
        0
    }

    /// Performs the action; on failure the state is left as it was.
    pub fn attempt_update(&self, state: &mut BlockState) -> (r: bool)
        ensures
            r == self.outcome(old(state)@) is Some,
            r ==> final(state)@ == self.outcome(old(state)@)->0,
            !r ==> final(state)@ == old(state)@,
            old(state)@.wf() ==> final(state)@.wf(),
    {
        match self {
            BlockOperator::PickUp(block) => state.pick_up(*block),
            BlockOperator::PutDown(block) => state.put_down(*block),
            BlockOperator::Stack(b1, b2) => state.stack(*b1, *b2),
            BlockOperator::Unstack(b1, b2) => state.unstack(*b1, *b2),
        }
    }
}

} // verus!
