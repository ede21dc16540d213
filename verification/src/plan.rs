//! The serializable intermediate representation of a dataflow computation,
//! and the arity discipline its expressions must respect.

use vstd::prelude::*;
use crate::Datum;

verus! {

/// A recursive description of a computation producing a collection of `V`
/// tuples. Plans are pure values: they carry no runtime handles, so one
/// plan can be reused, serialized, or compared structurally.
pub enum Plan<V: Datum> {
    /// Reads a named input or arrangement.
    Read {
        /// The registered name to resolve at install time.
        name: String,
    },
    /// Derives one output tuple per input tuple; each expression yields one
    /// output column, and multiplicities pass through unchanged.
    Derive {
        /// The sub-plan supplying input tuples.
        input: Box<Plan<V>>,
        /// One deriving expression per output column.
        exprs: Vec<V::Expression>,
    },
    /// Equi-joins two sub-plans on key expressions, emitting the
    /// concatenation of matched tuples with the product of multiplicities.
    Join {
        /// The left sub-plan.
        left: Box<Plan<V>>,
        /// The right sub-plan.
        right: Box<Plan<V>>,
        /// Key expressions over left tuples.
        left_key: Vec<V::Expression>,
        /// Key expressions over right tuples, matched pairwise with the left.
        right_key: Vec<V::Expression>,
    },
    /// Adds the multiplicities of two sub-plans.
    Union {
        /// The left sub-plan.
        left: Box<Plan<V>>,
        /// The right sub-plan.
        right: Box<Plan<V>>,
    },
    /// Subtracts the right sub-plan's multiplicities from the left's;
    /// the result may carry negative multiplicities.
    Difference {
        /// The collection subtracted from.
        left: Box<Plan<V>>,
        /// The collection subtracted.
        right: Box<Plan<V>>,
    },
    /// Iterates `body` to a fixpoint; inside `body`, reading `name` refers
    /// to the node's own output, whose tuples have width `arity`.
    Fix {
        /// The self-referential name bound inside the body.
        name: String,
        /// The declared width of the recursive collection's tuples.
        arity: usize,
        /// The plan applied repeatedly until the output stabilizes.
        body: Box<Plan<V>>,
    },
}

/// The tuple width a plan produces under an environment that gives the
/// width of every named collection, or `None` where a name is unresolved,
/// widths disagree, or an expression reads a column out of range.
pub open spec fn plan_arity<V: Datum>(p: Plan<V>, env: Map<Seq<char>, int>) -> Option<int>
    decreases p,
{
    match p {
        Plan::Read { name } => {
            if env.contains_key(name@) {
                Some(env[name@])
            } else {
                None
            }
        },
        Plan::Derive { input, exprs } => {
            match plan_arity(*input, env) {
                Option::None => None,
                Option::Some(a) => {
                    if forall|i: int|
                        0 <= i < exprs@.len() ==> #[trigger] V::expr_valid(exprs@[i], a) {
                        Some(exprs@.len() as int)
                    } else {
                        None
                    }
                },
            }
        },
        Plan::Join { left, right, left_key, right_key } => {
            match (plan_arity(*left, env), plan_arity(*right, env)) {
                (Option::Some(la), Option::Some(ra)) => {
                    if left_key@.len() == right_key@.len()
                        && (forall|i: int|
                            0 <= i < left_key@.len() ==> #[trigger] V::expr_valid(
                                left_key@[i],
                                la,
                            ))
                        && (forall|i: int|
                            0 <= i < right_key@.len() ==> #[trigger] V::expr_valid(
                                right_key@[i],
                                ra,
                            )) && la + ra <= usize::MAX {
                        Some(la + ra)
                    } else {
                        None
                    }
                },
                _ => None,
            }
        },
        Plan::Union { left, right } => {
            match (plan_arity(*left, env), plan_arity(*right, env)) {
                (Option::Some(la), Option::Some(ra)) => {
                    if la == ra {
                        Some(la)
                    } else {
                        None
                    }
                },
                _ => None,
            }
        },
        Plan::Difference { left, right } => {
            match (plan_arity(*left, env), plan_arity(*right, env)) {
                (Option::Some(la), Option::Some(ra)) => {
                    if la == ra {
                        Some(la)
                    } else {
                        None
                    }
                },
                _ => None,
            }
        },
        Plan::Fix { name, arity, body } => {
            if plan_arity(*body, env.insert(name@, arity as int)) == Some(arity as int) {
                Some(arity as int)
            } else {
                None
            }
        },
    }
}

/// An arity environment: a stack of name-to-width bindings in which a
/// later binding for the same name shadows an earlier one.
pub open spec fn env_view(entries: Seq<(String, usize)>) -> Map<Seq<char>, int>
    decreases entries.len(),
{
    if entries.len() == 0 {
        Map::empty()
    } else {
        env_view(entries.drop_last()).insert(
            entries.last().0@,
            entries.last().1 as int,
        )
    }
}

/// Looks a name up in an arity environment, scanning newest binding first.
pub fn env_lookup(entries: &Vec<(String, usize)>, name: &String) -> (r: Option<usize>)
    ensures
        match r {
            Option::Some(a) => env_view(entries@).contains_key(name@) && env_view(entries@)[name@]
                == a as int,
            Option::None => !env_view(entries@).contains_key(name@),
        },
{
    let mut i: usize = entries.len();
    while i > 0
        invariant
            i <= entries@.len(),
            forall|j: int|
                i <= j < entries@.len() ==> entries@[j].0@ != name@,
        decreases i,
    {
        i = i - 1;
        if string_eq(&entries[i].0, name) {
            proof {
                lemma_env_view_found(entries@, i as int);
            }
            return Some(entries[i].1);
        }
    }
    proof {
        lemma_env_view_absent(entries@, name@);
    }
    None
}

/// If every entry from `i + 1` on binds another name, the environment's
/// value for entry `i`'s name is entry `i`'s width.
proof fn lemma_env_view_found(entries: Seq<(String, usize)>, i: int)
    requires
        0 <= i < entries.len(),
        forall|j: int| i < j < entries.len() ==> entries[j].0@ != entries[i].0@,
    ensures
        env_view(entries).contains_key(entries[i].0@),
        env_view(entries)[entries[i].0@] == entries[i].1 as int,
    decreases entries.len(),
{
    if i == entries.len() - 1 {
    } else {
        lemma_env_view_found(entries.drop_last(), i);
    }
}

/// A name no entry binds is absent from the environment.
proof fn lemma_env_view_absent(entries: Seq<(String, usize)>, name: Seq<char>)
    requires
        forall|j: int| 0 <= j < entries.len() ==> entries[j].0@ != name,
    ensures
        !env_view(entries).contains_key(name),
    decreases entries.len(),
{
    if entries.len() > 0 {
        lemma_env_view_absent(entries.drop_last(), name);
    }
}

impl<V: Datum> Plan<V> {
    /// Computes the tuple width this plan produces under the given
    /// environment, exactly as `plan_arity` does; `None` reports an
    /// unresolved name, disagreeing widths, or an out-of-range expression.
    #[verifier::loop_isolation(false)]
    pub fn check_arity(&self, env: &mut Vec<(String, usize)>) -> (r: Option<usize>)
        ensures
            final(env)@ == old(env)@,
            match r {
                Option::Some(a) => plan_arity(*self, env_view(old(env)@)) == Some(a as int),
                Option::None => plan_arity(*self, env_view(old(env)@)) is None,
            },
        decreases *self,
    {
        match self {
            Plan::Read { name } => env_lookup(env, name),
            Plan::Derive { input, exprs } => {
                match input.check_arity(env) {
                    Option::None => None,
                    Option::Some(a) => {
                        let mut i: usize = 0;
                        while i < exprs.len()
                            invariant
                                env@ == old(env)@,
                                i <= exprs@.len(),
                                forall|j: int| 0 <= j < i ==> #[trigger] V::expr_valid(exprs@[j], a as int),
                            decreases exprs@.len() - i,
                        {
                            if !V::expr_check(&exprs[i], a) {
                                proof {
                                    assert(plan_arity(**input, env_view(env@)) == Some(
                                        a as int,
                                    ));
                                    assert(!V::expr_valid(exprs@[i as int], a as int));
                                    assert(!(forall|j: int|
                                        0 <= j < exprs@.len() ==> #[trigger] V::expr_valid(
                                            exprs@[j],
                                            a as int,
                                        )));
                                    assert(plan_arity(*self, env_view(env@)) == (
                                    match plan_arity(**input, env_view(env@)) {
                                        Option::None => None::<int>,
                                        Option::Some(aa) => {
                                            if forall|j: int|
                                                0 <= j < exprs@.len()
                                                    ==> #[trigger] V::expr_valid(
                                                    exprs@[j],
                                                    aa,
                                                ) {
                                                Some(exprs@.len() as int)
                                            } else {
                                                None
                                            }
                                        },
                                    }));
                                }
                                return None;
                            }
                            i = i + 1;
                        }
                        Some(exprs.len())
                    },
                }
            },
            Plan::Join { left, right, left_key, right_key } => {
                let la: usize = match left.check_arity(env) {
                    Option::Some(a) => a,
                    Option::None => {
                        return None;
                    },
                };
                let ra: usize = match right.check_arity(env) {
                    Option::Some(a) => a,
                    Option::None => {
                        return None;
                    },
                };
                if left_key.len() != right_key.len() {
                    return None;
                }
                let mut i: usize = 0;
                while i < left_key.len()
                    invariant
                        env@ == old(env)@,
                        i <= left_key@.len(),
                        forall|j: int| 0 <= j < i ==> #[trigger] V::expr_valid(left_key@[j], la as int),
                    decreases left_key@.len() - i,
                {
                    if !V::expr_check(&left_key[i], la) {
                        return None;
                    }
                    i = i + 1;
                }
                let mut i: usize = 0;
                while i < right_key.len()
                    invariant
                        env@ == old(env)@,
                        i <= right_key@.len(),
                        forall|j: int| 0 <= j < i ==> #[trigger] V::expr_valid(right_key@[j], ra as int),
                    decreases right_key@.len() - i,
                {
                    if !V::expr_check(&right_key[i], ra) {
                        return None;
                    }
                    i = i + 1;
                }
                if la <= usize::MAX - ra {
                    Some(la + ra)
                } else {
                    None
                }
            },
            Plan::Union { left, right } => {
                match (left.check_arity(env), right.check_arity(env)) {
                    (Option::Some(la), Option::Some(ra)) => {
                        if la == ra {
                            Some(la)
                        } else {
                            None
                        }
                    },
                    _ => None,
                }
            },
            Plan::Difference { left, right } => {
                match (left.check_arity(env), right.check_arity(env)) {
                    (Option::Some(la), Option::Some(ra)) => {
                        if la == ra {
                            Some(la)
                        } else {
                            None
                        }
                    },
                    _ => None,
                }
            },
            Plan::Fix { name, arity, body } => {
                let cloned = clone_string(name);
                let ghost env0 = env@;
                env.push((cloned, *arity));
                proof {
                    assert(env@.drop_last() == env0);
                    assert(env_view(env@) == env_view(env0).insert(name@, *arity as int));
                }
                let r = body.check_arity(env);
                env.pop();
                proof {
                    assert(env@ == env0);
                }
                match r {
                    Option::Some(a) => {
                        if a == *arity {
                            Some(a)
                        } else {
                            None
                        }
                    },
                    Option::None => None,
                }
            },
        }
    }
}

/// Copies a string, keeping its characters.
pub fn clone_string(s: &String) -> (r: String)
    ensures
        r@ == s@,
{
    s.clone()
}

/// Decides whether two strings hold the same characters.
pub fn string_eq(a: &String, b: &String) -> (r: bool)
    ensures
        r == (a@ == b@),
{
    a.eq(b)
}


/// The name a read node resolves, where the plan is one.
pub open spec fn read_name<V: Datum>(p: Plan<V>) -> Option<Seq<char>> {
    match p {
        Plan::Read { name } => Some(name@),
        _ => None,
    }
}
} // verus!
