use vstd::prelude::*;
use vstd::string::StringExecFns;

use crate::methods::{goal_map, BlockGoals};
use crate::operators::{layout_valid, partial_layout, BlockState};

verus! {

/// A predicate of a parsed problem: its name and its arguments, in order.
#[derive(Clone, PartialEq, Eq, Debug)]
pub struct Fact {
    pub tag: String,
    pub args: Vec<String>,
}

/// Why a parsed problem does not describe a blocks problem.
#[derive(Clone, PartialEq, Eq, Debug)]
pub enum ProblemError {
    /// A predicate names an object that was not declared.
    UnknownObject(String),
    /// A predicate (named here) has too few arguments.
    MissingArgument(String),
    /// The initial `on` predicates cannot be stacked in the order given.
    InvalidLayout,
}

/// The content of a `ProblemError`.
pub enum ProblemFault {
    UnknownObject(Seq<char>),
    MissingArgument(Seq<char>),
    InvalidLayout,
}

impl View for ProblemError {
    type V = ProblemFault;

    open spec fn view(&self) -> ProblemFault {
        match self {
            ProblemError::UnknownObject(name) => ProblemFault::UnknownObject(name@),
            ProblemError::MissingArgument(tag) => ProblemFault::MissingArgument(tag@),
            ProblemError::InvalidLayout => ProblemFault::InvalidLayout,
        }
    }
}

pub open spec fn names_of(v: Seq<String>) -> Seq<Seq<char>> {
    v.map_values(|s: String| s@)
}

/// The names of `s` without repeats, in order of first appearance; a name's
/// position here is its block identifier.
pub open spec fn distinct_names(s: Seq<Seq<char>>) -> Seq<Seq<char>>
    decreases s.len(),
{
    if s.len() == 0 {
        Seq::empty()
    } else {
        let d = distinct_names(s.drop_last());
        if d.contains(s.last()) {
            d
        } else {
            d.push(s.last())
        }
    }
}

pub proof fn lemma_distinct_names(s: Seq<Seq<char>>)
    ensures
        distinct_names(s).no_duplicates(),
        forall|x: Seq<char>| distinct_names(s).contains(x) <==> s.contains(x),
    decreases s.len(),
{
    if s.len() > 0 {
        lemma_distinct_names(s.drop_last());
        let d = distinct_names(s.drop_last());
        assert forall|x: Seq<char>| distinct_names(s).contains(x) <==> s.contains(x) by {
            if s.drop_last().contains(x) {
                let k = choose|k: int| 0 <= k < s.drop_last().len() && s.drop_last()[k] == x;
                assert(s[k] == x);
            }
            if s.contains(x) && x != s.last() {
                let k = choose|k: int| 0 <= k < s.len() && s[k] == x;
                assert(s.drop_last()[k] == x);
            }
            if !d.contains(s.last()) {
                assert(d.push(s.last())[d.len() as int] == s.last());
                if d.push(s.last()).contains(x) && x != s.last() {
                    let k = choose|k: int| 0 <= k < d.len() + 1 && d.push(s.last())[k] == x;
                    assert(d[k] == x);
                }
                if d.contains(x) {
                    let k = choose|k: int| 0 <= k < d.len() && d[k] == x;
                    assert(d.push(s.last())[k] == x);
                }
            }
        }
    }
}

/// The identifier that argument `i` of `f` names, or why it names none.
pub open spec fn arg_id(names: Seq<Seq<char>>, f: Fact, i: int) -> Result<usize, ProblemFault> {
    if i >= f.args.len() {
        Err(ProblemFault::MissingArgument(f.tag@))
    } else if !names.contains(f.args[i]@) {
        Err(ProblemFault::UnknownObject(f.args[i]@))
    } else {
        Ok(names.index_of(f.args[i]@) as usize)
    }
}

/// The "top rests on bottom" pair that `f`'s first two arguments name.
pub open spec fn on_pair(names: Seq<Seq<char>>, f: Fact) -> Result<(usize, usize), ProblemFault> {
    match arg_id(names, f, 0) {
        Err(e) => Err(e),
        Ok(top) => match arg_id(names, f, 1) {
            Err(e) => Err(e),
            Ok(bottom) => Ok((top, bottom)),
        },
    }
}

/// The table blocks (from `ontable`) and stacked pairs (from `on`) of the
/// initial facts, in order; other predicates are ignored. The first fact that
/// cannot be decoded gives the error.
pub open spec fn initial_layout(names: Seq<Seq<char>>, facts: Seq<Fact>) -> Result<
    (Seq<usize>, Seq<(usize, usize)>),
    ProblemFault,
>
    decreases facts.len(),
{
    if facts.len() == 0 {
        Ok((Seq::empty(), Seq::empty()))
    } else {
        match initial_layout(names, facts.drop_last()) {
            Err(e) => Err(e),
            Ok((table, pairs)) => {
                let f = facts.last();
                if f.tag@ == "ontable"@ {
                    match arg_id(names, f, 0) {
                        Err(e) => Err(e),
                        Ok(b) => Ok((table.push(b), pairs)),
                    }
                } else if f.tag@ == "on"@ {
                    match on_pair(names, f) {
                        Err(e) => Err(e),
                        Ok(p) => Ok((table, pairs.push(p))),
                    }
                } else {
                    Ok((table, pairs))
                }
            },
        }
    }
}

/// The "top rests on bottom" pairs of the goal facts, in order.
pub open spec fn goal_pairs(names: Seq<Seq<char>>, facts: Seq<Fact>) -> Result<
    Seq<(usize, usize)>,
    ProblemFault,
>
    decreases facts.len(),
{
    if facts.len() == 0 {
        Ok(Seq::empty())
    } else {
        match goal_pairs(names, facts.drop_last()) {
            Err(e) => Err(e),
            Ok(pairs) => match on_pair(names, facts.last()) {
                Err(e) => Err(e),
                Ok(p) => Ok(pairs.push(p)),
            },
        }
    }
}

fn enumerate_objects(declared: &Vec<String>) -> (r: Vec<String>)
    ensures
        names_of(r@) == distinct_names(names_of(declared@)),
{
    let mut objects: Vec<String> = Vec::new();
    for i in 0..declared.len()
        invariant
            names_of(objects@) == distinct_names(names_of(declared@.take(i as int))),
    {
        let name = &declared[i];
        let mut seen = false;
        for k in 0..objects.len()
            invariant
                name@ == declared@[i as int]@,
                seen == exists|j: int| 0 <= j < k && objects@[j]@ == name@,
        {
            if objects[k] == *name {
                seen = true;
            }
        }
        proof {
            let prev = names_of(declared@.take(i as int));
            assert(names_of(declared@.take(i + 1)).drop_last() == prev);
            assert(names_of(declared@.take(i + 1)).last() == name@);
            if seen {
                let j = choose|j: int| 0 <= j < objects.len() && objects@[j]@ == name@;
                assert(names_of(objects@)[j] == name@);
            } else {
                if names_of(objects@).contains(name@) {
                    let j = choose|j: int| 0 <= j < objects.len() && names_of(objects@)[j] == name@;
                    assert(objects@[j]@ == name@);
                }
            }
        }
        if !seen {
            objects.push(name.clone());
            assert(names_of(objects@) =~= distinct_names(names_of(declared@.take(i as int))).push(name@));
        }
    }
    assert(declared@.take(declared.len() as int) == declared@);
    objects
}

fn obj_get(p: &Fact, objects: &Vec<String>, i: usize) -> (r: Result<usize, ProblemError>)
    requires
        names_of(objects@).no_duplicates(),
    ensures
        r matches Ok(id) ==> arg_id(names_of(objects@), *p, i as int) == Ok::<usize, ProblemFault>(id),
        r matches Err(e) ==> arg_id(names_of(objects@), *p, i as int) == Err::<usize, ProblemFault>(e@),
{
    if i >= p.args.len() {
        return Err(ProblemError::MissingArgument(p.tag.clone()));
    }
    let arg = &p.args[i];
    let ghost names = names_of(objects@);
    for k in 0..objects.len()
        invariant
            names == names_of(objects@),
            names.no_duplicates(),
            i < p.args.len(),
            arg@ == p.args@[i as int]@,
            forall|j: int| 0 <= j < k ==> objects@[j]@ != arg@,
    {
        if objects[k] == *arg {
            proof {
                assert(names[k as int] == arg@);
                let c = names.index_of(arg@);
                assert(names.contains(arg@));
                assert(0 <= c < names.len() && names[c] == arg@);
                assert(c == k as int);
                assert(p.args[i as int]@ == arg@);
            }
            return Ok(k);
        }
    }
    proof {
        if names.contains(arg@) {
            let j = choose|j: int| 0 <= j < names.len() && names[j] == arg@;
            assert(objects@[j]@ == arg@);
        }
    }
    Err(ProblemError::UnknownObject(arg.clone()))
}

fn decode_on(p: &Fact, objects: &Vec<String>) -> (r: Result<(usize, usize), ProblemError>)
    requires
        names_of(objects@).no_duplicates(),
    ensures
        r matches Ok(pair) ==> on_pair(names_of(objects@), *p) == Ok::<(usize, usize), ProblemFault>(pair),
        r matches Err(e) ==> on_pair(names_of(objects@), *p) == Err::<(usize, usize), ProblemFault>(e@),
{
    let top = match obj_get(p, objects, 0) {
        Ok(id) => id,
        Err(e) => return Err(e),
    };
    let bottom = match obj_get(p, objects, 1) {
        Ok(id) => id,
        Err(e) => return Err(e),
    };
    Ok((top, bottom))
}

fn extract_state(facts: &Vec<Fact>, objects: &Vec<String>) -> (r: Result<
    (Vec<usize>, Vec<(usize, usize)>),
    ProblemError,
>)
    requires
        names_of(objects@).no_duplicates(),
    ensures
        r matches Ok((table, pairs)) ==> initial_layout(names_of(objects@), facts@) == Ok::<
            (Seq<usize>, Seq<(usize, usize)>),
            ProblemFault,
        >((table@, pairs@)),
        r matches Err(e) ==> initial_layout(names_of(objects@), facts@) == Err::<
            (Seq<usize>, Seq<(usize, usize)>),
            ProblemFault,
        >(e@),
{
    let ghost names = names_of(objects@);
    let ontable = String::from_str("ontable");
    let on = String::from_str("on");
    let mut table: Vec<usize> = Vec::new();
    let mut stacks: Vec<(usize, usize)> = Vec::new();
    for i in 0..facts.len()
        invariant
            names == names_of(objects@),
            names.no_duplicates(),
            ontable@ == "ontable"@,
            on@ == "on"@,
            initial_layout(names, facts@.take(i as int)) == Ok::<
                (Seq<usize>, Seq<(usize, usize)>),
                ProblemFault,
            >((table@, stacks@)),
    {
        let pred = &facts[i];
        assert(facts@.take(i + 1).drop_last() == facts@.take(i as int));
        assert(facts@.take(i + 1).last() == *pred);
        if pred.tag == ontable {
            match obj_get(pred, objects, 0) {
                Ok(b) => table.push(b),
                Err(e) => {
                    proof {
                        lemma_initial_layout_err(names, facts@, i + 1);
                    }
                    return Err(e);
                },
            }
        } else if pred.tag == on {
            match decode_on(pred, objects) {
                Ok(pair) => stacks.push(pair),
                Err(e) => {
                    proof {
                        lemma_initial_layout_err(names, facts@, i + 1);
                    }
                    return Err(e);
                },
            }
        }
    }
    assert(facts@.take(facts.len() as int) == facts@);
    Ok((table, stacks))
}

/// Once decoding a prefix of the facts fails, decoding them all fails the same way.
pub proof fn lemma_initial_layout_err(names: Seq<Seq<char>>, facts: Seq<Fact>, n: int)
    requires
        0 <= n <= facts.len(),
        initial_layout(names, facts.take(n)) is Err,
    ensures
        initial_layout(names, facts) == initial_layout(names, facts.take(n)),
    decreases facts.len() - n,
{
    if n < facts.len() {
        assert(facts.take(n + 1).drop_last() == facts.take(n));
        lemma_initial_layout_err(names, facts, n + 1);
    } else {
        assert(facts.take(n) == facts);
    }
}

/// Once decoding a prefix of the goal facts fails, decoding them all fails the same way.
pub proof fn lemma_goal_pairs_err(names: Seq<Seq<char>>, facts: Seq<Fact>, n: int)
    requires
        0 <= n <= facts.len(),
        goal_pairs(names, facts.take(n)) is Err,
    ensures
        goal_pairs(names, facts) == goal_pairs(names, facts.take(n)),
    decreases facts.len() - n,
{
    if n < facts.len() {
        assert(facts.take(n + 1).drop_last() == facts.take(n));
        lemma_goal_pairs_err(names, facts, n + 1);
    } else {
        assert(facts.take(n) == facts);
    }
}

fn extract_goals(goals: &Vec<Fact>, objects: &Vec<String>) -> (r: Result<
    Vec<(usize, usize)>,
    ProblemError,
>)
    requires
        names_of(objects@).no_duplicates(),
    ensures
        r matches Ok(pairs) ==> goal_pairs(names_of(objects@), goals@) == Ok::<
            Seq<(usize, usize)>,
            ProblemFault,
        >(pairs@),
        r matches Err(e) ==> goal_pairs(names_of(objects@), goals@) == Err::<
            Seq<(usize, usize)>,
            ProblemFault,
        >(e@),
{
    let ghost names = names_of(objects@);
    let mut result: Vec<(usize, usize)> = Vec::new();
    for i in 0..goals.len()
        invariant
            names == names_of(objects@),
            names.no_duplicates(),
            goal_pairs(names, goals@.take(i as int)) == Ok::<Seq<(usize, usize)>, ProblemFault>(
                result@,
            ),
    {
        assert(goals@.take(i + 1).drop_last() == goals@.take(i as int));
        assert(goals@.take(i + 1).last() == goals@[i as int]);
        match decode_on(&goals[i], objects) {
            Ok(pair) => result.push(pair),
            Err(e) => {
                proof {
                    lemma_goal_pairs_err(names, goals@, i + 1);
                }
                return Err(e);
            },
        }
    }
    assert(goals@.take(goals.len() as int) == goals@);
    Ok(result)
}

/// Builds the start state and the goal of a parsed problem: `declared` holds
/// the declared object names (a name's first appearance gives its identifier),
/// `initial` the initial predicates (`ontable(x)` and `on(x, y)` are read,
/// others ignored) and `goals` the goal predicates, each read as `on(x, y)`.
pub fn make_block_problem(declared: &Vec<String>, initial: &Vec<Fact>, goals: &Vec<Fact>) -> (r:
    Result<(BlockState, BlockGoals), ProblemError>)
    ensures
        ({
            let names = distinct_names(names_of(declared@));
            match (initial_layout(names, initial@), goal_pairs(names, goals@)) {
                (Err(e), _) => r matches Err(err) && err@ == e,
                (Ok(_), Err(e)) => r matches Err(err) && err@ == e,
                (Ok((table, pairs)), Ok(goal)) => if layout_valid(table, pairs) {
                    r matches Ok((state, g)) && state@.wf() && partial_layout(
                        state@,
                        table,
                        pairs,
                        pairs.len() as int,
                    ) && g@ == goal_map(goal)
                } else {
                    r matches Err(err) && err@ == ProblemFault::InvalidLayout
                },
            }
        }),
{
    let objects = enumerate_objects(declared);
    proof {
        lemma_distinct_names(names_of(declared@));
    }
    let (table, stacks) = match extract_state(initial, &objects) {
        Ok(layout) => layout,
        Err(e) => return Err(e),
    };
    let goal_list = match extract_goals(goals, &objects) {
        Ok(pairs) => pairs,
        Err(e) => return Err(e),
    };
    match BlockState::from(table, stacks) {
        Some(state) => Ok((state, BlockGoals::new(goal_list))),
        None => Err(ProblemError::InvalidLayout),
    }
}

} // verus!
