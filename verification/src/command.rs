//! The administrative protocol envelope carried between client and engine,
//! and the validation and installation of the queries it carries.

use vstd::prelude::*;
use crate::{Datum, Error, Time, Manager};
use crate::query::{Query, Rule};
use crate::plan::{Plan, plan_arity, read_name, env_view, env_lookup, clone_string, string_eq};
use crate::eval::{Collection, col_view, bind_view, sem, eval_plan, lookup_binding, clone_collection};
use crate::manager::{trace_idx, lemma_trace_idx, lemma_trace_idx_unchanged_names, Arrangement, InputSession};

verus! {

/// A control operation for the running engine. Installing a query is the
/// one operation the protocol carries today; the envelope leaves room for
/// further administrative variants.
pub enum Command<V: Datum> {
    /// Installs a bundle of rules, imports, and publishes.
    Query(Query<V>),
}

/// Whether every rule name in a query occurs once.
pub open spec fn rule_names_unique<V: Datum>(q: Query<V>) -> bool {
    forall|i: int, j: int|
        0 <= i < j < q.rules@.len() ==> q.rules@[i].name@ != q.rules@[j].name@
}

/// An environment built by inserting width bindings in order, a later
/// binding shadowing an earlier one of the same name.
pub open spec fn map_of_widths(entries: Seq<(Seq<char>, int)>) -> Map<Seq<char>, int>
    decreases entries.len(),
{
    if entries.len() == 0 {
        Map::empty()
    } else {
        map_of_widths(entries.drop_last()).insert(entries.last().0, entries.last().1)
    }
}

/// An environment built by inserting collection bindings in order, a
/// later binding shadowing an earlier one of the same name.
pub open spec fn map_of_collections<V: Datum>(
    entries: Seq<(Seq<char>, Seq<(Seq<V>, int)>)>,
) -> Map<Seq<char>, Seq<(Seq<V>, int)>>
    decreases entries.len(),
{
    if entries.len() == 0 {
        Map::empty()
    } else {
        map_of_collections(entries.drop_last()).insert(entries.last().0, entries.last().1)
    }
}

/// The width bindings the manager's names offer, in order: inputs first,
/// arrangements after.
pub open spec fn width_entries<V: Datum>(m: Manager<V>) -> Seq<(Seq<char>, int)> {
    m.inputs.entries@.map(|i: int, e: (String, InputSession<V>)| (e.0@, e.1.arity as int))
        + m.traces.entries@.map(|i: int, e: (String, Arrangement<V>)| (e.0@, e.1.arity as int))
}

/// The collection bindings the manager's names present at `as_of`, in
/// order: input snapshots first, arrangement contents after.
pub open spec fn collection_entries<V: Datum>(m: Manager<V>, as_of: Time) -> Seq<
    (Seq<char>, Seq<(Seq<V>, int)>),
> {
    m.inputs.entries@.map(
        |i: int, e: (String, InputSession<V>)| (e.0@, crate::manager::visible_at(e.1.updates@, as_of)),
    ) + m.traces.entries@.map(
        |i: int, e: (String, Arrangement<V>)| (e.0@, col_view(e.1.content@)),
    )
}

/// The widths the manager's names offer, an arrangement shadowing an
/// input of the same name.
pub open spec fn base_env<V: Datum>(m: Manager<V>) -> Map<Seq<char>, int> {
    map_of_widths(width_entries(m))
}

/// The collections the manager's names present at `as_of`, same
/// shadowing.
pub open spec fn base_bindings<V: Datum>(m: Manager<V>, as_of: Time) -> Map<
    Seq<char>,
    Seq<(Seq<V>, int)>,
> {
    map_of_collections(collection_entries(m, as_of))
}

/// Validation of the rules in order: each rule's plan must have a width
/// under the names bound so far, and binds its own name for later rules.
pub open spec fn check_rules<V: Datum>(rules: Seq<Rule<V>>, env: Map<Seq<char>, int>) -> Result<
    Map<Seq<char>, int>,
    Error,
>
    decreases rules.len(),
{
    if rules.len() == 0 {
        Ok(env)
    } else {
        match plan_arity(rules[0].plan, env) {
            Option::None => Err(Error::Unresolved),
            Option::Some(a) => check_rules(rules.drop_first(), env.insert(rules[0].name@, a)),
        }
    }
}

/// Validation of the imports in order: each must read a registered
/// arrangement.
pub open spec fn check_imports<V: Datum>(
    imports: Seq<(Plan<V>, Vec<usize>)>,
    traces: Seq<(String, Arrangement<V>)>,
) -> Result<(), Error>
    decreases imports.len(),
{
    if imports.len() == 0 {
        Ok(())
    } else {
        match read_name(imports[0].0) {
            Option::None => Err(Error::Unresolved),
            Option::Some(nm) => {
                if trace_idx(traces, nm) is Some {
                    check_imports(imports.drop_first(), traces)
                } else {
                    Err(Error::Unresolved)
                }
            },
        }
    }
}

/// Validation of the publishes in order: each must read a bound name,
/// with every key column below that name's width.
pub open spec fn check_publishes<V: Datum>(
    publish: Seq<(Plan<V>, Vec<usize>)>,
    env: Map<Seq<char>, int>,
) -> Result<(), Error>
    decreases publish.len(),
{
    if publish.len() == 0 {
        Ok(())
    } else {
        match read_name(publish[0].0) {
            Option::None => Err(Error::Unresolved),
            Option::Some(nm) => {
                if !env.contains_key(nm) {
                    Err(Error::Unresolved)
                } else if !(forall|j: int|
                    0 <= j < publish[0].1@.len() ==> #[trigger] publish[0].1@[j] < env[nm]) {
                    Err(Error::OutOfRange)
                } else {
                    check_publishes(publish.drop_first(), env)
                }
            },
        }
    }
}

/// Evaluation of the rules in order: each rule's plan is evaluated under
/// the collections bound so far, and binds its own result for later
/// rules.
pub open spec fn eval_rules<V: Datum>(
    rules: Seq<Rule<V>>,
    binds: Map<Seq<char>, Seq<(Seq<V>, int)>>,
    rounds: nat,
) -> Result<Map<Seq<char>, Seq<(Seq<V>, int)>>, Error>
    decreases rules.len(),
{
    if rules.len() == 0 {
        Ok(binds)
    } else {
        match sem(rules[0].plan, binds, rounds) {
            Result::Err(e) => Err(e),
            Result::Ok(c) => eval_rules(rules.drop_first(), binds.insert(rules[0].name@, c), rounds),
        }
    }
}

/// What installing a query against a manager decides: the exact error in
/// the order the engine checks — rule-name collisions, then rule
/// resolution and widths, then imports, then publishes and their keys,
/// then evaluation faults — or, on success, the width and collection
/// environments the rules established.
pub open spec fn install_outcome<V: Datum>(
    q: Query<V>,
    m: Manager<V>,
    as_of: Time,
    rounds: nat,
) -> Result<(Map<Seq<char>, int>, Map<Seq<char>, Seq<(Seq<V>, int)>>), Error> {
    if !rule_names_unique(q) {
        Err(Error::NameCollision)
    } else {
        match check_rules(q.rules@, base_env(m)) {
            Result::Err(e) => Err(e),
            Result::Ok(env2) => {
                match check_imports(q.imports@, m.traces.entries@) {
                    Result::Err(e) => Err(e),
                    Result::Ok(()) => {
                        match check_publishes(q.publish@, env2) {
                            Result::Err(e) => Err(e),
                            Result::Ok(()) => {
                                match eval_rules(q.rules@, base_bindings(m, as_of), rounds) {
                                    Result::Err(e) => Err(e),
                                    Result::Ok(binds2) => Ok((env2, binds2)),
                                }
                            },
                        }
                    },
                }
            },
        }
    }
}

/// Whether publish `k` of the query names an arrangement that neither the
/// manager held before installation nor an earlier publish created.
pub open spec fn fresh_publish<V: Datum>(q: Query<V>, m: Manager<V>, k: int) -> bool {
    read_name(q.publish@[k].0) matches Some(nm) && trace_idx(m.traces.entries@, nm) is None && (
    forall|k2: int| 0 <= k2 < k ==> read_name(#[trigger] q.publish@[k2].0) != Some(nm))
}

/// A name present among arrangement entries stays present, at the same
/// first index, when an entry is appended.
pub proof fn lemma_trace_idx_extend<V: Datum>(
    s: Seq<(String, Arrangement<V>)>,
    e: (String, Arrangement<V>),
    name: Seq<char>,
)
    requires
        trace_idx(s, name) is Some,
    ensures
        trace_idx(s.push(e), name) == trace_idx(s, name),
    decreases s.len(),
{
    if s.len() > 0 {
        assert(s.push(e)[0] == s[0]);
        if s[0].0@ != name {
            assert(s.push(e).drop_first() =~= s.drop_first().push(e));
            lemma_trace_idx_extend(s.drop_first(), e, name);
        }
    }
}

/// A name found after an append was already present or is the appended
/// entry's name.
pub proof fn lemma_trace_idx_push_cases<V: Datum>(
    s: Seq<(String, Arrangement<V>)>,
    e: (String, Arrangement<V>),
    name: Seq<char>,
)
    requires
        trace_idx(s.push(e), name) is Some,
    ensures
        trace_idx(s, name) is Some || e.0@ == name,
    decreases s.len(),
{
    if s.len() == 0 {
        assert(s.push(e)[0] == e);
        assert(s.push(e).drop_first() =~= Seq::<(String, Arrangement<V>)>::empty());
        assert(trace_idx(Seq::<(String, Arrangement<V>)>::empty(), name) is None);
    } else {
        assert(s.push(e)[0] == s[0]);
        if s[0].0@ != name {
            assert(s.push(e).drop_first() =~= s.drop_first().push(e));
            lemma_trace_idx_push_cases(s.drop_first(), e, name);
        }
    }
}

/// Folding width and collection bindings over the same names yields
/// environments with the same domain.
pub proof fn lemma_fold_doms<V: Datum>(
    aw: Seq<(Seq<char>, int)>,
    ab: Seq<(Seq<char>, Seq<(Seq<V>, int)>)>,
)
    requires
        aw.len() == ab.len(),
        forall|i: int| 0 <= i < aw.len() ==> (#[trigger] aw[i]).0 == ab[i].0,
    ensures
        map_of_widths(aw).dom() == map_of_collections(ab).dom(),
    decreases aw.len(),
{
    if aw.len() == 0 {
        assert(map_of_widths(aw).dom() =~= map_of_collections(ab).dom());
    } else {
        lemma_fold_doms(aw.drop_last(), ab.drop_last());
        assert(aw.last() == aw[aw.len() - 1]);
        assert(map_of_widths(aw).dom() =~= map_of_collections(ab).dom());
    }
}

/// Validating and evaluating the same rules over environments with equal
/// domains keeps the domains equal.
pub proof fn lemma_rules_doms<V: Datum>(
    rules: Seq<Rule<V>>,
    env: Map<Seq<char>, int>,
    binds: Map<Seq<char>, Seq<(Seq<V>, int)>>,
    rounds: nat,
    env2: Map<Seq<char>, int>,
    binds2: Map<Seq<char>, Seq<(Seq<V>, int)>>,
)
    requires
        env.dom() == binds.dom(),
        check_rules(rules, env) == Ok::<_, Error>(env2),
        eval_rules(rules, binds, rounds) == Ok::<_, Error>(binds2),
    ensures
        env2.dom() == binds2.dom(),
    decreases rules.len(),
{
    if rules.len() > 0 {
        match plan_arity(rules[0].plan, env) {
            Option::None => {
                assert(false);
            },
            Option::Some(a) => {
                match sem(rules[0].plan, binds, rounds) {
                    Result::Err(_) => {
                        assert(false);
                    },
                    Result::Ok(c) => {
                        assert(env.insert(rules[0].name@, a).dom() =~= binds.insert(
                            rules[0].name@,
                            c,
                        ).dom());
                        lemma_rules_doms(
                            rules.drop_first(),
                            env.insert(rules[0].name@, a),
                            binds.insert(rules[0].name@, c),
                            rounds,
                            env2,
                            binds2,
                        );
                    },
                }
            },
        }
    }
}

/// A name present among arrangement entries stays present after a change
/// that either keeps every name in place or appends one entry.
pub proof fn lemma_presence_preserved<V: Datum>(
    s0: Seq<(String, Arrangement<V>)>,
    s1: Seq<(String, Arrangement<V>)>,
    name: Seq<char>,
)
    requires
        trace_idx(s0, name) is Some,
        (s1.len() == s0.len() && forall|j: int| 0 <= j < s0.len() ==> s1[j].0@ == s0[j].0@)
            || (s1.len() == s0.len() + 1 && s1.drop_last() == s0),
    ensures
        trace_idx(s1, name) == trace_idx(s0, name),
{
    if s1.len() == s0.len() {
        lemma_trace_idx_unchanged_names(s0, s1, name);
    } else {
        assert(s1 =~= s0.push(s1.last()));
        lemma_trace_idx_extend(s0, s1.last(), name);
    }
}


/// Whether an arrangement entry survived unchanged but for a reference
/// count that may only have grown.
pub open spec fn entry_preserved<V: Datum>(
    a: (String, Arrangement<V>),
    b: (String, Arrangement<V>),
) -> bool {
    &&& b.0 == a.0
    &&& b.1.keys == a.1.keys
    &&& b.1.arity == a.1.arity
    &&& b.1.content == a.1.content
    &&& b.1.refcount >= a.1.refcount
}

/// What a successful installation did to the manager: inputs untouched;
/// every prior arrangement in place, its references only grown; every
/// import resolved to its prior handle with one more reference taken;
/// every publish registered, a fresh name carrying the published key
/// columns, width, and the collection its rule evaluated to; and every
/// new entry the result of some publish.
pub open spec fn installed<V: Datum>(
    q: Query<V>,
    m0: Manager<V>,
    m1: Manager<V>,
    env2: Map<Seq<char>, int>,
    binds2: Map<Seq<char>, Seq<(Seq<V>, int)>>,
) -> bool {
    let s0 = m0.traces.entries@;
    let s1 = m1.traces.entries@;
    &&& m1.inputs == m0.inputs
    &&& s0.len() <= s1.len()
    &&& forall|j: int| 0 <= j < s0.len() ==> entry_preserved(s0[j], #[trigger] s1[j])
    &&& forall|k: int|
        0 <= k < q.imports@.len() ==> (read_name(#[trigger] q.imports@[k].0) matches Some(nm)
            && trace_idx(s0, nm) matches Some(ix) && trace_idx(s1, nm) == Some(ix) && (s0[
        ix].1.refcount < usize::MAX ==> s1[ix].1.refcount >= s0[ix].1.refcount + 1))
    &&& forall|k: int|
        0 <= k < q.publish@.len() ==> (read_name(#[trigger] q.publish@[k].0) matches Some(nm)
            && trace_idx(s1, nm) is Some && (fresh_publish(q, m0, k) ==> (trace_idx(s1, nm)
            matches Some(ix) && s1[ix].1.refcount >= 1 && s1[ix].1.keys@ == q.publish@[k].1@
            && s1[ix].1.arity as int == env2[nm] && col_view(s1[ix].1.content@) == binds2[nm])))
    &&& s1.len() <= s0.len() + q.publish@.len()
}

/// Every publish a passing validation saw reads a bound name.
pub proof fn lemma_check_publishes_ok<V: Datum>(
    publish: Seq<(Plan<V>, Vec<usize>)>,
    env: Map<Seq<char>, int>,
)
    requires
        check_publishes(publish, env) == Ok::<(), Error>(()),
    ensures
        forall|k: int|
            0 <= k < publish.len() ==> (read_name(#[trigger] publish[k].0) matches Some(nm)
                && env.contains_key(nm)),
    decreases publish.len(),
{
    if publish.len() > 0 {
        lemma_check_publishes_ok(publish.drop_first(), env);
        assert(forall|k: int| 1 <= k < publish.len() ==> publish[k] == publish.drop_first()[k - 1]);
    }
}

impl<V: Datum> Command<V> {
    /// Validates and installs the command against the manager. The result
    /// is exactly what `install_outcome` decides: the whole command is
    /// rejected atomically, with the first failing check's error and the
    /// manager untouched, and succeeds precisely when every check and
    /// every rule evaluation goes through; on success the manager changes
    /// as `installed` states. Inputs are read as of `as_of`, and `rounds`
    /// bounds fixpoint iteration.
    #[verifier::loop_isolation(false)]
    #[verifier::rlimit(100)]
    pub fn install(self, mgr: &mut Manager<V>, as_of: &Time, rounds: usize) -> (r: Result<
        (),
        Error,
    >)
        ensures
            match self {
                Command::Query(q) => match r {
                    Result::Err(e) => install_outcome(q, *old(mgr), *as_of, rounds as nat)
                        == Err::<
                        (Map<Seq<char>, int>, Map<Seq<char>, Seq<(Seq<V>, int)>>),
                        Error,
                    >(e) && *final(mgr) == *old(mgr),
                    Result::Ok(()) => install_outcome(q, *old(mgr), *as_of, rounds as nat)
                        matches Ok(pair) && installed(q, *old(mgr), *final(mgr), pair.0, pair.1),
                },
            },
    {
        let q = match self {
            Command::Query(q) => q,
        };
        // Rule names must be unique within the query.
        let mut i: usize = 0;
        while i < q.rules.len()
            invariant
                i <= q.rules@.len(),
                *mgr == *old(mgr),
                forall|a: int, b: int|
                    0 <= a < b < q.rules@.len() && a < i ==> q.rules@[a].name@ != q.rules@[b].name@,
            decreases q.rules@.len() - i,
        {
            let mut j: usize = i + 1;
            while j < q.rules.len()
                invariant
                    i < j <= q.rules@.len(),
                    *mgr == *old(mgr),
                    forall|b: int| i < b < j ==> q.rules@[i as int].name@ != q.rules@[b].name@,
                decreases q.rules@.len() - j,
            {
                if string_eq(&q.rules[i].name, &q.rules[j].name) {
                    return Err(Error::NameCollision);
                }
                j = j + 1;
            }
            i = i + 1;
        }
        // The widths the manager's names offer: inputs first,
        // arrangements after, an arrangement shadowing an input.
        let ghost aw = width_entries(*old(mgr));
        let ghost ni = old(mgr).inputs.entries@.len() as int;
        let mut env: Vec<(String, usize)> = Vec::new();
        let mut i: usize = 0;
        proof {
            assert(env_view(env@) =~= map_of_widths(aw.take(0)));
        }
        while i < mgr.inputs.entries.len()
            invariant
                *mgr == *old(mgr),
                i <= ni,
                env_view(env@) == map_of_widths(aw.take(i as int)),
            decreases mgr.inputs.entries@.len() - i,
        {
            let nm = clone_string(&mgr.inputs.entries[i].0);
            let ar = mgr.inputs.entries[i].1.arity;
            let ghost envp = env@;
            env.push((nm, ar));
            proof {
                assert(env@.drop_last() =~= envp);
                assert(aw.take(i as int + 1).drop_last() =~= aw.take(i as int));
                assert(aw[i as int] == (old(mgr).inputs.entries@[i as int].0@, old(mgr).inputs.entries@[i as int].1.arity as int));
            }
            i = i + 1;
        }
        let mut i: usize = 0;
        while i < mgr.traces.entries.len()
            invariant
                *mgr == *old(mgr),
                i <= old(mgr).traces.entries@.len(),
                env_view(env@) == map_of_widths(aw.take(ni + i as int)),
            decreases mgr.traces.entries@.len() - i,
        {
            let nm = clone_string(&mgr.traces.entries[i].0);
            let ar = mgr.traces.entries[i].1.arity;
            let ghost envp = env@;
            env.push((nm, ar));
            proof {
                assert(env@.drop_last() =~= envp);
                assert(aw.take(ni + i as int + 1).drop_last() =~= aw.take(ni + i as int));
                assert(aw[ni + i as int] == (old(mgr).traces.entries@[i as int].0@, old(mgr).traces.entries@[i as int].1.arity as int));
            }
            i = i + 1;
        }
        proof {
            assert(aw.take(aw.len() as int) =~= aw);
            assert(env_view(env@) == base_env(*old(mgr)));
        }
        // Each rule's plan must have a width; its name then binds that
        // width for the rules after it.
        let ghost benv = base_env(*old(mgr));
        let mut i: usize = 0;
        proof {
            assert(q.rules@.skip(0) =~= q.rules@);
        }
        while i < q.rules.len()
            invariant
                *mgr == *old(mgr),
                i <= q.rules@.len(),
                check_rules(q.rules@, benv) == check_rules(
                    q.rules@.skip(i as int),
                    env_view(env@),
                ),
            decreases q.rules@.len() - i,
        {
            proof {
                assert(q.rules@.skip(i as int)[0] == q.rules@[i as int]);
                assert(q.rules@.skip(i as int).drop_first() =~= q.rules@.skip(i as int + 1));
            }
            let ar = match q.rules[i].plan.check_arity(&mut env) {
                Option::Some(a) => a,
                Option::None => {
                    return Err(Error::Unresolved);
                },
            };
            let nm = clone_string(&q.rules[i].name);
            let ghost envp = env@;
            env.push((nm, ar));
            proof {
                assert(env@.drop_last() =~= envp);
            }
            i = i + 1;
        }
        let ghost env2 = env_view(env@);
        proof {
            assert(q.rules@.skip(q.rules@.len() as int) =~= Seq::<Rule<V>>::empty());
            assert(check_rules(Seq::<Rule<V>>::empty(), env2) == Ok::<_, Error>(env2));
            assert(check_rules(q.rules@, benv) == Ok::<_, Error>(env2));
        }
        // Every import must read an arrangement already registered.
        let mut i: usize = 0;
        proof {
            assert(q.imports@.skip(0) =~= q.imports@);
        }
        while i < q.imports.len()
            invariant
                *mgr == *old(mgr),
                i <= q.imports@.len(),
                check_imports(q.imports@, old(mgr).traces.entries@) == check_imports(
                    q.imports@.skip(i as int),
                    old(mgr).traces.entries@,
                ),
                forall|k: int|
                    0 <= k < i ==> (read_name(#[trigger] q.imports@[k].0) matches Some(nm)
                        && trace_idx(old(mgr).traces.entries@, nm) is Some),
            decreases q.imports@.len() - i,
        {
            proof {
                assert(q.imports@.skip(i as int)[0] == q.imports@[i as int]);
                assert(q.imports@.skip(i as int).drop_first() =~= q.imports@.skip(i as int + 1));
            }
            match &q.imports[i].0 {
                Plan::Read { name } => {
                    if mgr.traces.get_arrangement(name).is_none() {
                        return Err(Error::Unresolved);
                    }
                },
                _ => {
                    return Err(Error::Unresolved);
                },
            }
            i = i + 1;
        }
        proof {
            assert(q.imports@.skip(q.imports@.len() as int) =~= Seq::<(Plan<V>, Vec<usize>)>::empty());
            assert(check_imports(q.imports@, old(mgr).traces.entries@) == Ok::<(), Error>(()));
        }
        // Every publish must read a bound name, its key columns inside
        // that name's width.
        let mut i: usize = 0;
        proof {
            assert(q.publish@.skip(0) =~= q.publish@);
        }
        while i < q.publish.len()
            invariant
                *mgr == *old(mgr),
                i <= q.publish@.len(),
                check_publishes(q.publish@, env2) == check_publishes(
                    q.publish@.skip(i as int),
                    env2,
                ),
            decreases q.publish@.len() - i,
        {
            proof {
                assert(q.publish@.skip(i as int)[0] == q.publish@[i as int]);
                assert(q.publish@.skip(i as int).drop_first() =~= q.publish@.skip(i as int + 1));
            }
            let name = match &q.publish[i].0 {
                Plan::Read { name } => name,
                _ => {
                    return Err(Error::Unresolved);
                },
            };
            let ar = match env_lookup(&env, name) {
                Option::Some(a) => a,
                Option::None => {
                    return Err(Error::Unresolved);
                },
            };
            let keys = &q.publish[i].1;
            let mut j: usize = 0;
            while j < keys.len()
                invariant
                    *mgr == *old(mgr),
                    j <= keys@.len(),
                    forall|j2: int| 0 <= j2 < j ==> #[trigger] keys@[j2] < ar,
                decreases keys@.len() - j,
            {
                if keys[j] >= ar {
                    return Err(Error::OutOfRange);
                }
                j = j + 1;
            }
            i = i + 1;
        }
        proof {
            assert(q.publish@.skip(q.publish@.len() as int) =~= Seq::<(Plan<V>, Vec<usize>)>::empty());
            assert(check_publishes(q.publish@, env2) == Ok::<(), Error>(()));
        }
        // Validated. The collections the manager's names present.
        let ghost ab = collection_entries(*old(mgr), *as_of);
        let mut bindings: Vec<(String, Collection<V>)> = Vec::new();
        let mut i: usize = 0;
        proof {
            assert(bind_view(bindings@) =~= map_of_collections(ab.take(0)));
        }
        while i < mgr.inputs.entries.len()
            invariant
                *mgr == *old(mgr),
                i <= ni,
                bind_view(bindings@) == map_of_collections(ab.take(i as int)),
            decreases mgr.inputs.entries@.len() - i,
        {
            let nm = clone_string(&mgr.inputs.entries[i].0);
            let c = mgr.inputs.entries[i].1.snapshot_at(as_of);
            let ghost bp = bindings@;
            bindings.push((nm, c));
            proof {
                assert(bindings@.drop_last() =~= bp);
                assert(ab.take(i as int + 1).drop_last() =~= ab.take(i as int));
                assert(ab[i as int] == (old(mgr).inputs.entries@[i as int].0@, crate::manager::visible_at(old(mgr).inputs.entries@[i as int].1.updates@, *as_of)));
            }
            i = i + 1;
        }
        let mut i: usize = 0;
        while i < mgr.traces.entries.len()
            invariant
                *mgr == *old(mgr),
                i <= old(mgr).traces.entries@.len(),
                bind_view(bindings@) == map_of_collections(ab.take(ni + i as int)),
            decreases mgr.traces.entries@.len() - i,
        {
            let nm = clone_string(&mgr.traces.entries[i].0);
            let c = clone_collection(&mgr.traces.entries[i].1.content);
            let ghost bp = bindings@;
            bindings.push((nm, c));
            proof {
                assert(bindings@.drop_last() =~= bp);
                assert(ab.take(ni + i as int + 1).drop_last() =~= ab.take(ni + i as int));
                assert(ab[ni + i as int] == (old(mgr).traces.entries@[i as int].0@, col_view(old(mgr).traces.entries@[i as int].1.content@)));
            }
            i = i + 1;
        }
        proof {
            assert(ab.take(ab.len() as int) =~= ab);
            assert(bind_view(bindings@) == base_bindings(*old(mgr), *as_of));
        }
        // Evaluate the rules in order; each rule may read the ones
        // before it.
        let ghost bbinds = base_bindings(*old(mgr), *as_of);
        let mut i: usize = 0;
        proof {
            assert(q.rules@.skip(0) =~= q.rules@);
        }
        while i < q.rules.len()
            invariant
                *mgr == *old(mgr),
                i <= q.rules@.len(),
                eval_rules(q.rules@, bbinds, rounds as nat) == eval_rules(
                    q.rules@.skip(i as int),
                    bind_view(bindings@),
                    rounds as nat,
                ),
            decreases q.rules@.len() - i,
        {
            proof {
                assert(q.rules@.skip(i as int)[0] == q.rules@[i as int]);
                assert(q.rules@.skip(i as int).drop_first() =~= q.rules@.skip(i as int + 1));
            }
            let c = match eval_plan(&q.rules[i].plan, &mut bindings, rounds) {
                Result::Ok(c) => c,
                Result::Err(e) => {
                    return Err(e);
                },
            };
            let nm = clone_string(&q.rules[i].name);
            let ghost bp = bindings@;
            bindings.push((nm, c));
            proof {
                assert(bindings@.drop_last() =~= bp);
            }
            i = i + 1;
        }
        let ghost binds2 = bind_view(bindings@);
        proof {
            assert(q.rules@.skip(q.rules@.len() as int) =~= Seq::<Rule<V>>::empty());
            assert(eval_rules(Seq::<Rule<V>>::empty(), binds2, rounds as nat) == Ok::<_, Error>(binds2));
            assert(eval_rules(q.rules@, bbinds, rounds as nat) == Ok::<_, Error>(binds2));
            assert(install_outcome(q, *old(mgr), *as_of, rounds as nat) == Ok::<_, Error>((env2, binds2)));
            // The width and collection environments bind the same names.
            assert(aw.len() == ab.len());
            assert(forall|k: int| 0 <= k < aw.len() ==> (#[trigger] aw[k]).0 == ab[k].0);
            lemma_fold_doms::<V>(aw, ab);
            lemma_rules_doms(q.rules@, benv, bbinds, rounds as nat, env2, binds2);
            lemma_check_publishes_ok(q.publish@, env2);
        }
        // Stage each publish: its name, key columns, width, and the
        // collection its name is bound to — a rule's result, an input
        // snapshot, or a prior arrangement's contents.
        let mut staged: Vec<(String, Vec<usize>, usize, Collection<V>)> = Vec::new();
        let mut i: usize = 0;
        while i < q.publish.len()
            invariant
                *mgr == *old(mgr),
                i <= q.publish@.len(),
                staged@.len() == i,
                forall|k: int|
                    0 <= k < i ==> (read_name(#[trigger] q.publish@[k].0) matches Some(nm)
                        && staged@[k].0@ == nm && staged@[k].1@ == q.publish@[k].1@ && staged@[
                    k].2 as int == env2[nm] && col_view(staged@[k].3@) == binds2[nm]),
            decreases q.publish@.len() - i,
        {
            let name = match &q.publish[i].0 {
                Plan::Read { name } => name,
                _ => {
                    proof {
                        assert(false);
                    }
                    return Err(Error::Unresolved);
                },
            };
            let ar = match env_lookup(&env, name) {
                Option::Some(a) => a,
                Option::None => {
                    proof {
                        assert(false);
                    }
                    return Err(Error::Unresolved);
                },
            };
            let content = match lookup_binding(&bindings, name) {
                Option::Some(c) => c,
                Option::None => {
                    proof {
                        assert(binds2.contains_key(name@));
                        assert(false);
                    }
                    return Err(Error::Unresolved);
                },
            };
            let keys = &q.publish[i].1;
            let mut kc: Vec<usize> = Vec::new();
            let mut j: usize = 0;
            while j < keys.len()
                invariant
                    *mgr == *old(mgr),
                    j <= keys@.len(),
                    kc@ == keys@.take(j as int),
                decreases keys@.len() - j,
            {
                kc.push(keys[j]);
                j = j + 1;
            }
            proof {
                assert(keys@.take(keys@.len() as int) =~= keys@);
            }
            staged.push((clone_string(name), kc, ar, content));
            i = i + 1;
        }
        apply_changes(q, mgr, staged, Ghost(env2), Ghost(binds2));
        Ok(())
    }
}

/// Wires a validated command into the manager: takes one reference per
/// import and registers every staged publish, leaving every other entry
/// alone, as `installed` states.
#[verifier::loop_isolation(false)]
#[verifier::rlimit(100)]
fn apply_changes<V: Datum>(
    q: Query<V>,
    mgr: &mut Manager<V>,
    staged: Vec<(String, Vec<usize>, usize, Collection<V>)>,
    Ghost(env2): Ghost<Map<Seq<char>, int>>,
    Ghost(binds2): Ghost<Map<Seq<char>, Seq<(Seq<V>, int)>>>,
)
    requires
        staged@.len() == q.publish@.len(),
        forall|k: int|
            0 <= k < q.imports@.len() ==> (read_name(#[trigger] q.imports@[k].0) matches Some(nm)
                && trace_idx(old(mgr).traces.entries@, nm) is Some),
        forall|k: int|
            0 <= k < q.publish@.len() ==> (read_name(#[trigger] q.publish@[k].0) matches Some(nm)
                && staged@[k].0@ == nm && staged@[k].1@ == q.publish@[k].1@ && staged@[
            k].2 as int == env2[nm] && col_view(staged@[k].3@) == binds2[nm]),
    ensures
        installed(q, *old(mgr), *final(mgr), env2, binds2),
{
    let ghost s0 = old(mgr).traces.entries@;
    // Take one reference per import; the arrangement keeps its handle.
    let mut i: usize = 0;
    while i < q.imports.len()
        invariant
            i <= q.imports@.len(),
            mgr.inputs == old(mgr).inputs,
            mgr.traces.entries@.len() == s0.len(),
            forall|j: int|
                0 <= j < s0.len() ==> entry_preserved(s0[j], #[trigger] mgr.traces.entries@[j]),
            forall|k: int|
                0 <= k < i ==> (read_name(#[trigger] q.imports@[k].0) matches Some(nm)
                    && trace_idx(s0, nm) matches Some(ix) && (s0[ix].1.refcount < usize::MAX
                    ==> mgr.traces.entries@[ix].1.refcount >= s0[ix].1.refcount + 1)),
        decreases q.imports@.len() - i,
    {
        match &q.imports[i].0 {
            Plan::Read { name } => {
                let ghost before = mgr.traces.entries@;
                proof {
                    assert(forall|j: int| 0 <= j < s0.len() ==> before[j].0@ == s0[j].0@);
                    lemma_trace_idx_unchanged_names(s0, before, name@);
                }
                let r = mgr.traces.import(name);
                proof {
                    assert(r is Some);
                    let cur = mgr.traces.entries@;
                    let h = r->Some_0 as int;
                    assert(trace_idx(s0, name@) == Some(h));
                    assert forall|k: int|
                        0 <= k < i + 1 implies (read_name(#[trigger] q.imports@[k].0)
                            matches Some(nm) && trace_idx(s0, nm) matches Some(ix) && (s0[
                        ix].1.refcount < usize::MAX ==> cur[ix].1.refcount >= s0[
                        ix].1.refcount + 1)) by {
                        if let Option::Some(nm) = read_name(q.imports@[k].0) {
                            if let Option::Some(ix) = trace_idx(s0, nm) {
                                lemma_trace_idx(s0, nm);
                                if k < i {
                                    assert(before[ix].1.refcount <= cur[ix].1.refcount);
                                } else {
                                    assert(ix == h);
                                }
                            }
                        }
                    }
                }
            },
            _ => {
                proof {
                    assert(false);
                }
            },
        }
        i = i + 1;
    }
    // Register every staged publish; an existing entry wins and only
    // gains a reference, a fresh name starts with one.
    let ghost s1 = mgr.traces.entries@;
    let ghost staged0 = staged@;
    proof {
        assert forall|nm: Seq<char>|
            #[trigger] trace_idx(mgr.traces.entries@, nm) is Some implies trace_idx(
                s0,
                nm,
            ) is Some by {
            assert(forall|j: int| 0 <= j < s0.len() ==> mgr.traces.entries@[j].0@ == s0[j].0@);
            lemma_trace_idx_unchanged_names(s0, mgr.traces.entries@, nm);
        }
    }
    let mut staged = staged;
    let staged_len: usize = staged.len();
    proof {
        assert(staged0.len() == staged_len);
    }
    let mut done: usize = 0;
    while staged.len() > 0
        invariant
            done + staged@.len() == staged0.len(),
            staged0.len() <= usize::MAX,
            staged@ == staged0.skip(done as int),
            mgr.inputs == old(mgr).inputs,
            s0.len() == s1.len(),
            mgr.traces.entries@.len() >= s0.len(),
            forall|j: int|
                0 <= j < s0.len() ==> entry_preserved(s0[j], #[trigger] mgr.traces.entries@[j]),
            forall|j: int|
                0 <= j < s1.len() ==> entry_preserved(s1[j], #[trigger] mgr.traces.entries@[j]),
            forall|k: int|
                0 <= k < done ==> trace_idx(
                    mgr.traces.entries@,
                    #[trigger] staged0[k].0@,
                ) is Some,
            forall|k: int|
                0 <= k < done ==> (fresh_staged(s0, staged0, k) ==> (trace_idx(
                    mgr.traces.entries@,
                    #[trigger] staged0[k].0@,
                ) matches Some(ix) && {
                    let e = mgr.traces.entries@[ix];
                    e.1.refcount >= 1 && e.1.keys@ == staged0[k].1@ && e.1.arity == staged0[k].2
                        && col_view(e.1.content@) == col_view(staged0[k].3@)
                })),
            mgr.traces.entries@.len() <= s0.len() + done,
            forall|nm: Seq<char>|
                #[trigger] trace_idx(mgr.traces.entries@, nm) is Some ==> trace_idx(s0, nm)
                    is Some || exists|k: int| 0 <= k < done && (#[trigger] staged0[k]).0@ == nm,
        decreases staged@.len(),
    {
        let (name, keys, ar, content) = staged.remove(0);
        proof {
            assert(staged0[done as int] == (name, keys, ar, content));
            assert(staged@ =~= staged0.skip(done as int + 1));
        }
        let ghost before = mgr.traces.entries@;
        mgr.traces.register_publish(&name, keys, ar, content);
        proof {
            let cur = mgr.traces.entries@;
            let pushed = trace_idx(before, name@) is None;
            if pushed {
                assert(cur =~= before.push(cur.last()));
            }
            assert forall|j: int|
                0 <= j < s0.len() implies entry_preserved(s0[j], #[trigger] cur[j]) by {
                assert(entry_preserved(s0[j], before[j]));
            }
            assert forall|j: int|
                0 <= j < s1.len() implies entry_preserved(s1[j], #[trigger] cur[j]) by {
                assert(entry_preserved(s1[j], before[j]));
            }
            assert forall|k: int|
                0 <= k < done + 1 implies trace_idx(cur, #[trigger] staged0[k].0@) is Some by {
                if k < done {
                    lemma_presence_preserved(before, cur, staged0[k].0@);
                }
            }
            assert forall|k: int|
                0 <= k < done + 1 implies (fresh_staged(s0, staged0, k) ==> (trace_idx(
                    cur,
                    #[trigger] staged0[k].0@,
                ) matches Some(ix) && {
                    let e = cur[ix];
                    e.1.refcount >= 1 && e.1.keys@ == staged0[k].1@ && e.1.arity == staged0[k].2
                        && col_view(e.1.content@) == col_view(staged0[k].3@)
                })) by {
                if fresh_staged(s0, staged0, k) {
                    if k < done {
                        lemma_trace_idx(before, staged0[k].0@);
                        lemma_presence_preserved(before, cur, staged0[k].0@);
                        let ix = trace_idx(before, staged0[k].0@)->Some_0;
                        assert(cur[ix].1.keys == before[ix].1.keys && cur[ix].1.arity == before[
                        ix].1.arity && cur[ix].1.content == before[ix].1.content && cur[
                        ix].1.refcount >= before[ix].1.refcount);
                    } else {
                        // A fresh name cannot be present before its own
                        // registration: it is neither a prior entry nor an
                        // earlier staged name.
                        if trace_idx(before, name@) is Some {
                            assert(trace_idx(s0, name@) is Some || exists|k2: int|
                                0 <= k2 < done && (#[trigger] staged0[k2]).0@ == name@);
                            assert(false);
                        }
                        assert(trace_idx(cur, name@) == Some(before.len() as int));
                    }
                }
            }
            assert forall|nm: Seq<char>|
                #[trigger] trace_idx(cur, nm) is Some implies trace_idx(s0, nm) is Some
                    || exists|k: int| 0 <= k < done + 1 && (#[trigger] staged0[k]).0@ == nm by {
                if pushed {
                    lemma_trace_idx_push_cases(before, cur.last(), nm);
                    if trace_idx(before, nm) is Some || cur.last().0@ == nm {
                        if cur.last().0@ == nm {
                            assert(staged0[done as int].0@ == nm);
                        }
                    }
                } else {
                    assert(forall|j: int| 0 <= j < before.len() ==> cur[j].0@ == before[j].0@);
                    lemma_trace_idx_unchanged_names(before, cur, nm);
                }
            }
        }
        done = done + 1;
    }
    // Handles of prior arrangements are stable through registration.
    proof {
        let s2 = mgr.traces.entries@;
        assert forall|k: int|
            0 <= k < q.imports@.len() implies (read_name(#[trigger] q.imports@[k].0)
                matches Some(nm) && trace_idx(s0, nm) matches Some(ix) && trace_idx(s2, nm)
                == Some(ix) && (s0[ix].1.refcount < usize::MAX ==> s2[ix].1.refcount >= s0[
            ix].1.refcount + 1)) by {
            if let Option::Some(nm) = read_name(q.imports@[k].0) {
                if let Option::Some(ix) = trace_idx(s0, nm) {
                    lemma_trace_idx(s0, nm);
                    lemma_trace_idx_stable(s0, s1, s2, nm);
                    assert(entry_preserved(s1[ix], s2[ix]));
                    assert(s1[ix].1.refcount <= s2[ix].1.refcount);
                }
            }
        }
        assert forall|k: int|
            0 <= k < q.publish@.len() implies (read_name(#[trigger] q.publish@[k].0)
                matches Some(nm) && trace_idx(s2, nm) is Some && (fresh_publish(q, *old(mgr), k)
                ==> (trace_idx(s2, nm) matches Some(ix) && s2[ix].1.refcount >= 1 && s2[
            ix].1.keys@ == q.publish@[k].1@ && s2[ix].1.arity as int == env2[nm] && col_view(
                s2[ix].1.content@,
            ) == binds2[nm]))) by {
            if let Option::Some(nm) = read_name(q.publish@[k].0) {
                assert(staged0[k].0@ == nm);
                if fresh_publish(q, *old(mgr), k) {
                    assert forall|k2: int| 0 <= k2 < k implies (#[trigger] staged0[k2]).0@
                        != nm by {
                        if let Option::Some(nm2) = read_name(q.publish@[k2].0) {
                            assert(staged0[k2].0@ == nm2);
                            assert(read_name(q.publish@[k2].0) != Some(nm));
                        }
                    }
                    assert(fresh_staged(s0, staged0, k));
                    let ix = trace_idx(s2, nm)->Some_0;
                    assert(s2[ix].1.keys@ == staged0[k].1@ && s2[ix].1.arity == staged0[k].2
                        && col_view(s2[ix].1.content@) == col_view(staged0[k].3@));
                    assert(staged0[k].1@ == q.publish@[k].1@ && staged0[k].2 as int == env2[nm]
                        && col_view(staged0[k].3@) == binds2[nm]);
                }
            }
        }
        assert(s2.len() <= s0.len() + staged0.len());
    }
}

/// Whether staged entry `k` carries a name that neither a prior
/// arrangement held nor an earlier staged entry carries.
pub open spec fn fresh_staged<V: Datum>(
    s0: Seq<(String, Arrangement<V>)>,
    staged0: Seq<(String, Vec<usize>, usize, Collection<V>)>,
    k: int,
) -> bool {
    trace_idx(s0, staged0[k].0@) is None && (forall|k2: int|
        0 <= k2 < k ==> (#[trigger] staged0[k2]).0@ != staged0[k].0@)
}

/// A name's first index among the prior entries is its first index in
/// any later state whose first `s0.len()` names are unchanged.
pub proof fn lemma_trace_idx_stable<V: Datum>(
    s0: Seq<(String, Arrangement<V>)>,
    s1: Seq<(String, Arrangement<V>)>,
    s2: Seq<(String, Arrangement<V>)>,
    nm: Seq<char>,
)
    requires
        trace_idx(s0, nm) is Some,
        s1.len() == s0.len(),
        forall|j: int| 0 <= j < s0.len() ==> s1[j].0@ == s0[j].0@,
        s2.len() >= s0.len(),
        forall|j: int| 0 <= j < s0.len() ==> s2[j].0@ == s0[j].0@,
    ensures
        trace_idx(s2, nm) == trace_idx(s0, nm),
{
    lemma_trace_idx_unchanged_names(s0, s1, nm);
    lemma_trace_idx_prefix_agree(s0, s2, nm);
}

/// A name present among the first entries has the same first index in a
/// longer state that keeps those names.
pub proof fn lemma_trace_idx_prefix_agree<V: Datum>(
    s0: Seq<(String, Arrangement<V>)>,
    s2: Seq<(String, Arrangement<V>)>,
    nm: Seq<char>,
)
    requires
        trace_idx(s0, nm) is Some,
        s2.len() >= s0.len(),
        forall|j: int| 0 <= j < s0.len() ==> s2[j].0@ == s0[j].0@,
    ensures
        trace_idx(s2, nm) == trace_idx(s0, nm),
    decreases s0.len(),
{
    if s0.len() > 0 {
        assert(s2[0].0@ == s0[0].0@);
        if s0[0].0@ != nm {
            assert(forall|j: int|
                0 <= j < s0.drop_first().len() ==> s2.drop_first()[j].0@ == s0.drop_first()[
                j].0@);
            lemma_trace_idx_prefix_agree(s0.drop_first(), s2.drop_first(), nm);
        }
    }
}
} // verus!
