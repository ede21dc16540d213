//! The reference interpreter: evaluates a plan against named collections,
//! with incremental-computation semantics over signed multiplicities.

use vstd::prelude::*;
use crate::{Datum, Diff, Error};
use crate::plan::{Plan, clone_string, string_eq};

verus! {

/// A collection: tuples paired with signed multiplicities, in order.
pub type Collection<V> = Vec<(Vec<V>, Diff)>;

/// The mathematical content of a collection: tuple sequences paired with
/// unbounded multiplicities.
pub open spec fn col_view<V: Datum>(c: Seq<(Vec<V>, Diff)>) -> Seq<(Seq<V>, int)> {
    c.map(|i: int, p: (Vec<V>, Diff)| (p.0@, p.1 as int))
}

/// The net multiplicity of tuple `t`: the sum of the diffs of every entry
/// holding `t`.
pub open spec fn mult<V>(s: Seq<(Seq<V>, int)>, t: Seq<V>) -> int
    decreases s.len(),
{
    if s.len() == 0 {
        0
    } else {
        (if s[0].0 == t {
            s[0].1
        } else {
            0
        }) + mult(s.drop_first(), t)
    }
}

/// Concatenating two collections adds their multiplicities: the union
/// semantics of the engine.
pub proof fn lemma_mult_concat<V>(a: Seq<(Seq<V>, int)>, b: Seq<(Seq<V>, int)>, t: Seq<V>)
    ensures
        mult(a + b, t) == mult(a, t) + mult(b, t),
    decreases a.len(),
{
    if a.len() == 0 {
        assert(a + b =~= b);
    } else {
        lemma_mult_concat(a.drop_first(), b, t);
        assert((a + b).drop_first() =~= a.drop_first() + b);
    }
}

/// The negation a difference applies flips every net multiplicity: where
/// `sem_negate` succeeds, each tuple's multiplicity in the negated
/// collection is the negation of its multiplicity in the original.
pub proof fn lemma_negate_mult<V: Datum>(b: Seq<(Seq<V>, int)>, n: Seq<(Seq<V>, int)>, t: Seq<V>)
    requires
        sem_negate::<V>(b) == Ok::<_, Error>(n),
    ensures
        mult(n, t) == -mult(b, t),
    decreases b.len(),
{
    if b.len() == 0 {
        assert(n =~= Seq::<(Seq<V>, int)>::empty());
    } else {
        let pair = (b[0].0, -b[0].1);
        match sem_negate::<V>(b.drop_first()) {
            Result::Ok(rest) => {
                lemma_negate_mult::<V>(b.drop_first(), rest, t);
                assert(n == seq![pair] + rest);
                assert(n[0] == pair);
                assert(n.drop_first() =~= rest);
            },
            Result::Err(_) => {},
        }
    }
}

/// An environment of named collections in which a later binding for the
/// same name shadows an earlier one.
pub open spec fn bind_view<V: Datum>(entries: Seq<(String, Collection<V>)>) -> Map<
    Seq<char>,
    Seq<(Seq<V>, int)>,
>
    decreases entries.len(),
{
    if entries.len() == 0 {
        Map::empty()
    } else {
        bind_view(entries.drop_last()).insert(
            entries.last().0@,
            col_view(entries.last().1@),
        )
    }
}

/// If every entry after `i` binds another name, the environment resolves
/// entry `i`'s name to entry `i`'s collection.
proof fn lemma_bind_view_found<V: Datum>(entries: Seq<(String, Collection<V>)>, i: int)
    requires
        0 <= i < entries.len(),
        forall|j: int| i < j < entries.len() ==> entries[j].0@ != entries[i].0@,
    ensures
        bind_view(entries).contains_key(entries[i].0@),
        bind_view(entries)[entries[i].0@] == col_view(entries[i].1@),
    decreases entries.len(),
{
    if i < entries.len() - 1 {
        lemma_bind_view_found(entries.drop_last(), i);
    }
}

/// A name no entry binds is absent from the environment.
proof fn lemma_bind_view_absent<V: Datum>(entries: Seq<(String, Collection<V>)>, name: Seq<char>)
    requires
        forall|j: int| 0 <= j < entries.len() ==> entries[j].0@ != name,
    ensures
        !bind_view(entries).contains_key(name),
    decreases entries.len(),
{
    if entries.len() > 0 {
        lemma_bind_view_absent(entries.drop_last(), name);
    }
}

/// The key a tuple presents to a join: one derived value per key expression.
pub open spec fn key_of<V: Datum>(t: Seq<V>, ks: Seq<V::Expression>) -> Seq<V> {
    Seq::new(ks.len(), |i: int| V::eval_expr(t, ks[i]))
}

/// The join outputs one left row contributes: for every right entry whose
/// key matches, the concatenated tuple with the product of multiplicities;
/// faults report a key expression out of range for a right tuple, or a
/// product outside the diff range, whichever the scan meets first.
pub open spec fn sem_join_row<V: Datum>(
    t: Seq<V>,
    d: int,
    b: Seq<(Seq<V>, int)>,
    lk: Seq<V::Expression>,
    rk: Seq<V::Expression>,
) -> Result<Seq<(Seq<V>, int)>, Error>
    decreases b.len(),
{
    if b.len() == 0 {
        Ok(Seq::empty())
    } else if !(forall|j: int| 0 <= j < rk.len() ==> #[trigger] V::expr_valid(rk[j], b[0].0.len() as int)) {
        Err(Error::OutOfRange)
    } else if key_of(t, lk) == key_of(b[0].0, rk) {
        if isize::MIN <= d * b[0].1 <= isize::MAX {
            match sem_join_row(t, d, b.drop_first(), lk, rk) {
                Ok(rest) => Ok(seq![(t + b[0].0, d * b[0].1)] + rest),
                Err(e) => Err(e),
            }
        } else {
            Err(Error::DiffOverflow)
        }
    } else {
        sem_join_row(t, d, b.drop_first(), lk, rk)
    }
}

/// The full join of two collections on pairwise-matched key expressions,
/// scanning left rows in order.
pub open spec fn sem_join<V: Datum>(
    a: Seq<(Seq<V>, int)>,
    b: Seq<(Seq<V>, int)>,
    lk: Seq<V::Expression>,
    rk: Seq<V::Expression>,
) -> Result<Seq<(Seq<V>, int)>, Error>
    decreases a.len(),
{
    if a.len() == 0 {
        Ok(Seq::empty())
    } else if !(forall|j: int| 0 <= j < lk.len() ==> #[trigger] V::expr_valid(lk[j], a[0].0.len() as int)) {
        Err(Error::OutOfRange)
    } else {
        match sem_join_row(a[0].0, a[0].1, b, lk, rk) {
            Ok(first) => match sem_join(a.drop_first(), b, lk, rk) {
                Ok(rest) => Ok(first + rest),
                Err(e) => Err(e),
            },
            Err(e) => Err(e),
        }
    }
}

/// The derived collection: one output tuple per input tuple, one column
/// per expression, multiplicities passed through unchanged; faults report
/// an expression out of range for some input tuple.
pub open spec fn sem_derive<V: Datum>(
    a: Seq<(Seq<V>, int)>,
    es: Seq<V::Expression>,
) -> Result<Seq<(Seq<V>, int)>, Error>
{
    if forall|i: int, j: int|
        #![trigger a[i], es[j]]
        0 <= i < a.len() && 0 <= j < es.len() ==> V::expr_valid(es[j], a[i].0.len() as int) {
        Ok(
            Seq::new(
                a.len(),
                |i: int| (Seq::new(es.len(), |j: int| V::eval_expr(a[i].0, es[j])), a[i].1),
            ),
        )
    } else {
        Err(Error::OutOfRange)
    }
}

/// The negation of a collection, faulting on a diff whose negation leaves
/// the machine range.
pub open spec fn sem_negate<V: Datum>(b: Seq<(Seq<V>, int)>) -> Result<Seq<(Seq<V>, int)>, Error>
    decreases b.len(),
{
    if b.len() == 0 {
        Ok(Seq::empty())
    } else if b[0].1 == isize::MIN as int {
        Err(Error::DiffOverflow)
    } else {
        match sem_negate(b.drop_first()) {
            Ok(rest) => Ok(seq![(b[0].0, -b[0].1)] + rest),
            Err(e) => Err(e),
        }
    }
}

/// What a plan evaluates to under an environment of named collections:
/// the engine's semantics, node by node. `rounds` bounds every fixpoint
/// iteration reached from this plan.
pub open spec fn sem<V: Datum>(
    p: Plan<V>,
    env: Map<Seq<char>, Seq<(Seq<V>, int)>>,
    rounds: nat,
) -> Result<Seq<(Seq<V>, int)>, Error>
    decreases p, 0nat,
{
    match p {
        Plan::Read { name } => {
            if env.contains_key(name@) {
                Ok(env[name@])
            } else {
                Err(Error::NotFound)
            }
        },
        Plan::Derive { input, exprs } => {
            match sem(*input, env, rounds) {
                Ok(a) => sem_derive::<V>(a, exprs@),
                Err(e) => Err(e),
            }
        },
        Plan::Join { left, right, left_key, right_key } => {
            match sem(*left, env, rounds) {
                Ok(a) => match sem(*right, env, rounds) {
                    Ok(b) => sem_join::<V>(a, b, left_key@, right_key@),
                    Err(e) => Err(e),
                },
                Err(e) => Err(e),
            }
        },
        Plan::Union { left, right } => {
            match sem(*left, env, rounds) {
                Ok(a) => match sem(*right, env, rounds) {
                    Ok(b) => Ok(a + b),
                    Err(e) => Err(e),
                },
                Err(e) => Err(e),
            }
        },
        Plan::Difference { left, right } => {
            match sem(*left, env, rounds) {
                Ok(a) => match sem(*right, env, rounds) {
                    Ok(b) => match sem_negate::<V>(b) {
                        Ok(n) => Ok(a + n),
                        Err(e) => Err(e),
                    },
                    Err(e) => Err(e),
                },
                Err(e) => Err(e),
            }
        },
        Plan::Fix { name, arity: _, body } => {
            sem_fix(*body, name@, env, Seq::empty(), rounds)
        },
    }
}

/// Fixpoint iteration: starting from `x`, applies `body` with `name`
/// bound to the accumulated result, stopping when an application returns
/// its own input again or after `rounds` applications.
pub open spec fn sem_fix<V: Datum>(
    body: Plan<V>,
    name: Seq<char>,
    env: Map<Seq<char>, Seq<(Seq<V>, int)>>,
    x: Seq<(Seq<V>, int)>,
    rounds: nat,
) -> Result<Seq<(Seq<V>, int)>, Error>
    decreases body, rounds,
{
    if rounds == 0 {
        Ok(x)
    } else {
        match sem(body, env.insert(name, x), (rounds - 1) as nat) {
            Ok(y) => {
                if y == x {
                    Ok(x)
                } else {
                    sem_fix(body, name, env, y, (rounds - 1) as nat)
                }
            },
            Err(e) => Err(e),
        }
    }
}

/// Once an application of the body returns its input unchanged, further
/// rounds of fixpoint iteration return that same collection.
pub proof fn lemma_fix_stable<V: Datum>(
    body: Plan<V>,
    name: Seq<char>,
    env: Map<Seq<char>, Seq<(Seq<V>, int)>>,
    x: Seq<(Seq<V>, int)>,
    rounds: nat,
)
    requires
        forall|k: nat| sem(body, env.insert(name, x), k) == Ok::<_, Error>(x),
    ensures
        sem_fix(body, name, env, x, rounds) == Ok::<_, Error>(x),
    decreases rounds,
{
    if rounds > 0 {
        assert(sem(body, env.insert(name, x), (rounds - 1) as nat) == Ok::<_, Error>(x));
    }
}

/// Derive semantics: a derive node emits one tuple per input tuple, the
/// derived columns applied to it, with its multiplicity passed through
/// unchanged.
pub proof fn lemma_derive_diffs<V: Datum>(
    a: Seq<(Seq<V>, int)>,
    es: Seq<V::Expression>,
    c: Seq<(Seq<V>, int)>,
)
    requires
        sem_derive::<V>(a, es) == Ok::<_, Error>(c),
    ensures
        c.len() == a.len(),
        forall|i: int| 0 <= i < a.len() ==> (#[trigger] c[i]).1 == a[i].1 && c[i].0 == key_of(
            a[i].0,
            es,
        ),
{
    assert(forall|i: int|
        0 <= i < a.len() ==> (#[trigger] c[i]).0 =~= key_of(a[i].0, es));
}

/// Union semantics: where a union node and both sub-plans evaluate, every
/// tuple's net multiplicity in the result is the sum of its net
/// multiplicities in the two parts.
pub proof fn lemma_union_mult<V: Datum>(
    left: Plan<V>,
    right: Plan<V>,
    env: Map<Seq<char>, Seq<(Seq<V>, int)>>,
    rounds: nat,
    a: Seq<(Seq<V>, int)>,
    b: Seq<(Seq<V>, int)>,
    c: Seq<(Seq<V>, int)>,
    t: Seq<V>,
)
    requires
        sem(left, env, rounds) == Ok::<_, Error>(a),
        sem(right, env, rounds) == Ok::<_, Error>(b),
        sem(Plan::Union { left: Box::new(left), right: Box::new(right) }, env, rounds) == Ok::<
            _,
            Error,
        >(c),
    ensures
        mult(c, t) == mult(a, t) + mult(b, t),
{
    assert(c == a + b);
    lemma_mult_concat(a, b, t);
}

/// Difference semantics: where a difference node and both sub-plans
/// evaluate, every tuple's net multiplicity in the result is the left
/// multiplicity minus the right one; the result may be negative.
pub proof fn lemma_difference_mult<V: Datum>(
    left: Plan<V>,
    right: Plan<V>,
    env: Map<Seq<char>, Seq<(Seq<V>, int)>>,
    rounds: nat,
    a: Seq<(Seq<V>, int)>,
    b: Seq<(Seq<V>, int)>,
    c: Seq<(Seq<V>, int)>,
    t: Seq<V>,
)
    requires
        sem(left, env, rounds) == Ok::<_, Error>(a),
        sem(right, env, rounds) == Ok::<_, Error>(b),
        sem(Plan::Difference { left: Box::new(left), right: Box::new(right) }, env, rounds)
            == Ok::<_, Error>(c),
    ensures
        mult(c, t) == mult(a, t) - mult(b, t),
{
    match sem_negate::<V>(b) {
        Result::Ok(n) => {
            assert(c == a + n);
            lemma_mult_concat(a, n, t);
            lemma_negate_mult::<V>(b, n, t);
        },
        Result::Err(_) => {
            assert(false);
        },
    }
}

/// Copies a tuple, keeping its elements.
pub fn clone_tuple<V: Datum>(t: &Vec<V>) -> (r: Vec<V>)
    ensures
        r@ == t@,
{
    let mut out: Vec<V> = Vec::new();
    let mut i: usize = 0;
    while i < t.len()
        invariant
            i <= t@.len(),
            out@ =~= t@.take(i as int),
        decreases t@.len() - i,
    {
        out.push(t[i].dup());
        i = i + 1;
    }
    proof {
        assert(out@ =~= t@);
    }
    out
}

/// Copies a collection, keeping its mathematical content.
pub fn clone_collection<V: Datum>(c: &Collection<V>) -> (r: Collection<V>)
    ensures
        col_view(r@) == col_view(c@),
        r@.len() == c@.len(),
{
    let mut out: Collection<V> = Vec::new();
    let mut i: usize = 0;
    while i < c.len()
        invariant
            i <= c@.len(),
            out@.len() == i,
            forall|j: int| 0 <= j < i ==> #[trigger] out@[j].0@ == c@[j].0@ && out@[j].1 == c@[j].1,
        decreases c@.len() - i,
    {
        let t = clone_tuple(&c[i].0);
        let d: Diff = c[i].1;
        out.push((t, d));
        i = i + 1;
    }
    proof {
        assert(col_view(out@) =~= col_view(c@));
    }
    out
}

/// Decides equality of two tuples element by element.
pub fn tuple_eq<V: Datum>(a: &Vec<V>, b: &Vec<V>) -> (r: bool)
    ensures
        r == (a@ == b@),
{
    if a.len() != b.len() {
        proof {
            assert(a@ != b@);
        }
        return false;
    }
    let mut i: usize = 0;
    while i < a.len()
        invariant
            i <= a@.len(),
            a@.len() == b@.len(),
            forall|j: int| 0 <= j < i ==> a@[j] == b@[j],
        decreases a@.len() - i,
    {
        if !V::eq_datum(&a[i], &b[i]) {
            proof {
                assert(a@[i as int] != b@[i as int]);
            }
            return false;
        }
        i = i + 1;
    }
    proof {
        assert(a@ =~= b@);
    }
    true
}

/// Decides equality of the mathematical content of two collections.
pub fn col_eq<V: Datum>(a: &Collection<V>, b: &Collection<V>) -> (r: bool)
    ensures
        r == (col_view(a@) == col_view(b@)),
{
    if a.len() != b.len() {
        proof {
            assert(col_view(a@).len() != col_view(b@).len());
        }
        return false;
    }
    let mut i: usize = 0;
    while i < a.len()
        invariant
            i <= a@.len(),
            a@.len() == b@.len(),
            forall|j: int| 0 <= j < i ==> #[trigger] col_view(a@)[j] == col_view(b@)[j],
        decreases a@.len() - i,
    {
        if !tuple_eq(&a[i].0, &b[i].0) || a[i].1 != b[i].1 {
            proof {
                assert(col_view(a@)[i as int] != col_view(b@)[i as int]);
            }
            return false;
        }
        i = i + 1;
    }
    proof {
        assert(col_view(a@) =~= col_view(b@));
    }
    true
}

/// Computes the net multiplicity of tuple `t` in a collection. The sum is
/// carried in a wide accumulator, which a diff-range bound on every entry
/// keeps exact.
pub fn multiplicity_of<V: Datum>(c: &Collection<V>, t: &Vec<V>) -> (m: i128)
    ensures
        m == mult(col_view(c@), t@),
{
    let mut acc: i128 = 0;
    let mut i: usize = 0;
    proof {
        assert(col_view(c@).take(0) =~= Seq::<(Seq<V>, int)>::empty());
    }
    while i < c.len()
        invariant
            i <= c@.len(),
            acc == mult(col_view(c@).take(i as int), t@),
            -(i * (isize::MAX as int + 1)) <= acc <= i * (isize::MAX as int + 1),
        decreases c@.len() - i,
    {
        proof {
            lemma_mult_concat(
                col_view(c@).take(i as int),
                seq![col_view(c@)[i as int]],
                t@,
            );
            assert(col_view(c@).take(i as int) + seq![col_view(c@)[i as int]] =~= col_view(
                c@,
            ).take(i as int + 1));
            assert(mult(seq![col_view(c@)[i as int]], t@) == (if col_view(c@)[i as int].0 == t@ {
                col_view(c@)[i as int].1
            } else {
                0
            })) by {
                assert(seq![col_view(c@)[i as int]].drop_first() =~= Seq::<(Seq<V>, int)>::empty());
                assert(mult(Seq::<(Seq<V>, int)>::empty(), t@) == 0);
                assert(seq![col_view(c@)[i as int]][0] == col_view(c@)[i as int]);
            }
            assert((i + 1) * (isize::MAX as int + 1) == i * (isize::MAX as int + 1) + (
            isize::MAX as int + 1)) by (nonlinear_arith);
            assert(i * (isize::MAX as int + 1) <= c@.len() * (isize::MAX as int + 1))
                by (nonlinear_arith)
                requires
                    0 <= i <= c@.len(),
            ;
            assert(c@.len() <= usize::MAX);
            assert((i + 1) * (isize::MAX as int + 1) <= i128::MAX) by (nonlinear_arith)
                requires
                    0 <= i,
                    i + 1 <= 0xFFFF_FFFF_FFFF_FFFFu64,
            ;
        }
        if tuple_eq(&c[i].0, t) {
            acc = acc + (c[i].1 as i128);
        }
        i = i + 1;
    }
    proof {
        assert(col_view(c@).take(c@.len() as int) =~= col_view(c@));
    }
    acc
}


/// Looks a name up among the bindings, newest first, handing back a copy
/// of the bound collection.
pub fn lookup_binding<V: Datum>(env: &Vec<(String, Collection<V>)>, name: &String) -> (r: Option<
    Collection<V>,
>)
    ensures
        match r {
            Option::Some(c) => bind_view(env@).contains_key(name@) && bind_view(env@)[name@]
                == col_view(c@),
            Option::None => !bind_view(env@).contains_key(name@),
        },
{
    let mut i: usize = env.len();
    while i > 0
        invariant
            i <= env@.len(),
            forall|j: int| i <= j < env@.len() ==> env@[j].0@ != name@,
        decreases i,
    {
        i = i - 1;
        if string_eq(&env[i].0, name) {
            proof {
                lemma_bind_view_found(env@, i as int);
            }
            return Some(clone_collection(&env[i].1));
        }
    }
    proof {
        lemma_bind_view_absent(env@, name@);
    }
    None
}

/// Concatenates two tuples, left columns first.
pub fn concat_tuples<V: Datum>(a: &Vec<V>, b: &Vec<V>) -> (r: Vec<V>)
    ensures
        r@ == a@ + b@,
{
    let mut out = clone_tuple(a);
    let mut i: usize = 0;
    while i < b.len()
        invariant
            i <= b@.len(),
            out@ =~= a@ + b@.take(i as int),
        decreases b@.len() - i,
    {
        out.push(b[i].dup());
        i = i + 1;
    }
    proof {
        assert(out@ =~= a@ + b@);
    }
    out
}

/// Applies a list of expressions to one tuple, yielding one value per
/// expression, or the out-of-range fault if an expression reads past the
/// tuple's width.
pub fn apply_exprs<V: Datum>(t: &Vec<V>, es: &Vec<V::Expression>) -> (r: Result<Vec<V>, Error>)
    ensures
        match r {
            Result::Ok(k) => (forall|j: int|
                0 <= j < es@.len() ==> #[trigger] V::expr_valid(es@[j], t@.len() as int)) && k@
                == key_of(t@, es@),
            Result::Err(e) => e == Error::OutOfRange && !(forall|j: int|
                0 <= j < es@.len() ==> #[trigger] V::expr_valid(es@[j], t@.len() as int)),
        },
{
    let mut out: Vec<V> = Vec::new();
    let mut j: usize = 0;
    while j < es.len()
        invariant
            j <= es@.len(),
            out@.len() == j,
            forall|k: int| 0 <= k < j ==> #[trigger] V::expr_valid(es@[k], t@.len() as int),
            forall|k: int| 0 <= k < j ==> out@[k] == V::eval_expr(t@, es@[k]),
        decreases es@.len() - j,
    {
        if !V::expr_check(&es[j], t.len()) {
            return Err(Error::OutOfRange);
        }
        out.push(V::subject_to(t.as_slice(), &es[j]));
        j = j + 1;
    }
    proof {
        assert(out@ =~= key_of(t@, es@));
    }
    Ok(out)
}


/// Derives one output tuple per input tuple, as `sem_derive` prescribes.
#[verifier::loop_isolation(false)]
pub fn derive_all<V: Datum>(ca: &Collection<V>, exprs: &Vec<V::Expression>) -> (r: Result<
    Collection<V>,
    Error,
>)
    ensures
        match r {
            Result::Ok(c) => sem_derive::<V>(col_view(ca@), exprs@) == Ok::<_, Error>(
                col_view(c@),
            ),
            Result::Err(e) => sem_derive::<V>(col_view(ca@), exprs@) == Err::<
                Seq<(Seq<V>, int)>,
                _,
            >(e),
        },
{
            let ghost av = col_view(ca@);
            let mut out: Collection<V> = Vec::new();
            let mut i: usize = 0;
            while i < ca.len()
                invariant
                    i <= ca@.len(),
                    out@.len() == i,
                    forall|k: int, j: int|
                        #![trigger av[k], exprs@[j]]
                        0 <= k < i && 0 <= j < exprs@.len() ==> V::expr_valid(
                            exprs@[j],
                            av[k].0.len() as int,
                        ),
                    forall|k: int|
                        0 <= k < i ==> #[trigger] col_view(out@)[k] == (
                        key_of(av[k].0, exprs@),
                        av[k].1,
                        ),
                decreases ca@.len() - i,
            {
                let row = match apply_exprs(&ca[i].0, exprs) {
                    Result::Ok(row) => row,
                    Result::Err(e) => {
                        proof {
                            let j = choose|j: int|
                                !(0 <= j < exprs@.len() ==> V::expr_valid(
                                    exprs@[j],
                                    av[i as int].0.len() as int,
                                ));
                            assert(!(forall|k: int, j: int|
                                #![trigger av[k], exprs@[j]]
                                0 <= k < av.len() && 0 <= j < exprs@.len() ==> V::expr_valid(
                                    exprs@[j],
                                    av[k].0.len() as int,
                                )));
                        }
                        return Err(Error::OutOfRange);
                    },
                };
                let d: Diff = ca[i].1;
                let ghost outp = out@;
                out.push((row, d));
                proof {
                    assert(forall|k: int| 0 <= k < i ==> out@[k] == outp[k]);
                    assert(forall|k: int|
                        0 <= k < i ==> #[trigger] col_view(out@)[k] == col_view(outp)[k]);
                    assert(col_view(out@)[i as int] == (row@, d as int));
                }
                i = i + 1;
            }
            proof {
                let expect = Seq::new(
                    av.len(),
                    |k: int| (Seq::new(exprs@.len(), |j: int| V::eval_expr(av[k].0, exprs@[j])), av[k].1),
                );
                assert(forall|k: int| 0 <= k < av.len() ==> #[trigger] expect[k] == (
                key_of(av[k].0, exprs@),
                av[k].1,
                ));
                assert(col_view(out@) =~= expect);
            }
    Ok(out)
}

/// Joins two collections on their key expressions, as `sem_join`
/// prescribes.
#[verifier::loop_isolation(false)]
#[verifier::rlimit(60)]
pub fn join_all<V: Datum>(
    ca: &Collection<V>,
    cb: &Collection<V>,
    left_key: &Vec<V::Expression>,
    right_key: &Vec<V::Expression>,
) -> (r: Result<Collection<V>, Error>)
    ensures
        match r {
            Result::Ok(c) => sem_join::<V>(col_view(ca@), col_view(cb@), left_key@, right_key@)
                == Ok::<_, Error>(col_view(c@)),
            Result::Err(e) => sem_join::<V>(col_view(ca@), col_view(cb@), left_key@, right_key@)
                == Err::<Seq<(Seq<V>, int)>, _>(e),
        },
{
            let ghost av = col_view(ca@);
            let ghost bv = col_view(cb@);
            let mut out: Collection<V> = Vec::new();
            let mut i: usize = 0;
            proof {
                assert(av.skip(0) =~= av);
                assert(col_view(out@) =~= Seq::<(Seq<V>, int)>::empty());
                if let Result::Ok(rest) = sem_join::<V>(av, bv, left_key@, right_key@) {
                    assert(Seq::<(Seq<V>, int)>::empty() + rest =~= rest);
                }
            }
            while i < ca.len()
                invariant
                    i <= ca@.len(),
                    match sem_join::<V>(av.skip(i as int), bv, left_key@, right_key@) {
                        Result::Ok(rest) => sem_join::<V>(av, bv, left_key@, right_key@)
                            == Ok::<_, Error>(col_view(out@) + rest),
                        Result::Err(e) => sem_join::<V>(av, bv, left_key@, right_key@) == Err::<
                            Seq<(Seq<V>, int)>,
                            _,
                        >(e),
                    },
                decreases ca@.len() - i,
            {
                proof {
                    assert(av.skip(i as int)[0] == av[i as int]);
                    assert(av.skip(i as int).drop_first() =~= av.skip(i as int + 1));
                }
                let kl = match apply_exprs(&ca[i].0, left_key) {
                    Result::Ok(k) => k,
                    Result::Err(e) => {
                        return Err(e);
                    },
                };
                let ghost n0 = out@.len() as int;
                let ghost out0 = col_view(out@);
                let mut j: usize = 0;
                proof {
                    assert(bv.skip(0) =~= bv);
                    assert(col_view(out@).take(n0) =~= out0);
                    assert(col_view(out@).skip(n0) =~= Seq::<(Seq<V>, int)>::empty());
                    if let Result::Ok(rest) = sem_join_row::<V>(
                        av[i as int].0,
                        av[i as int].1,
                        bv,
                        left_key@,
                        right_key@,
                    ) {
                        assert(Seq::<(Seq<V>, int)>::empty() + rest =~= rest);
                    }
                }
                while j < cb.len()
                    invariant
                        j <= cb@.len(),
                        n0 <= out@.len(),
                        col_view(out@).take(n0) == out0,
                        kl@ == key_of(av[i as int].0, left_key@),
                        match sem_join_row::<V>(
                            av[i as int].0,
                            av[i as int].1,
                            bv.skip(j as int),
                            left_key@,
                            right_key@,
                        ) {
                            Result::Ok(rest) => sem_join_row::<V>(
                                av[i as int].0,
                                av[i as int].1,
                                bv,
                                left_key@,
                                right_key@,
                            ) == Ok::<_, Error>(col_view(out@).skip(n0) + rest),
                            Result::Err(e) => sem_join_row::<V>(
                                av[i as int].0,
                                av[i as int].1,
                                bv,
                                left_key@,
                                right_key@,
                            ) == Err::<Seq<(Seq<V>, int)>, _>(e),
                        },
                    decreases cb@.len() - j,
                {
                    proof {
                        assert(bv.skip(j as int)[0] == bv[j as int]);
                        assert(bv.skip(j as int).drop_first() =~= bv.skip(j as int + 1));
                    }
                    let kr = match apply_exprs(&cb[j].0, right_key) {
                        Result::Ok(k) => k,
                        Result::Err(e) => {
                            return Err(e);
                        },
                    };
                    if tuple_eq(&kl, &kr) {
                        proof {
                            let x = ca@[i as int].1 as int;
                            let y = cb@[j as int].1 as int;
                            assert(i128::MIN <= x * y <= i128::MAX) by (nonlinear_arith)
                                requires
                                    -0x8000_0000_0000_0000 <= x <= 0x7FFF_FFFF_FFFF_FFFF,
                                    -0x8000_0000_0000_0000 <= y <= 0x7FFF_FFFF_FFFF_FFFF,
                            ;
                        }
                        let prod: i128 = (ca[i].1 as i128) * (cb[j].1 as i128);
                        proof {
                            assert(prod == av[i as int].1 * bv[j as int].1);
                        }
                        if prod < (isize::MIN as i128) || prod > (isize::MAX as i128) {
                            return Err(Error::DiffOverflow);
                        }
                        let t = concat_tuples(&ca[i].0, &cb[j].0);
                        let ghost outp = out@;
                        out.push((t, prod as isize));
                        proof {
                            let pair = (
                                av[i as int].0 + bv[j as int].0,
                                av[i as int].1 * bv[j as int].1,
                            );
                            assert(out@.drop_last() =~= outp);
                            assert(col_view(out@).take(n0) =~= out0);
                            assert(col_view(out@).skip(n0) =~= col_view(outp).skip(n0)
                                + seq![pair]);
                            if let Result::Ok(rest_next) = sem_join_row::<V>(
                                av[i as int].0,
                                av[i as int].1,
                                bv.skip(j as int + 1),
                                left_key@,
                                right_key@,
                            ) {
                                assert((col_view(outp).skip(n0) + seq![pair]) + rest_next
                                    =~= col_view(outp).skip(n0) + (seq![pair] + rest_next));
                                assert(sem_join_row::<V>(
                                    av[i as int].0,
                                    av[i as int].1,
                                    bv.skip(j as int),
                                    left_key@,
                                    right_key@,
                                ) == Ok::<_, Error>(seq![pair] + rest_next));
                            }
                        }
                    }
                    j = j + 1;
                }
                proof {
                    assert(bv.skip(cb@.len() as int) =~= Seq::<(Seq<V>, int)>::empty());
                    let part = col_view(out@).skip(n0);
                    assert(col_view(out@).skip(n0) + Seq::<(Seq<V>, int)>::empty() =~= part);
                    assert(col_view(out@).take(n0) + col_view(out@).skip(n0) =~= col_view(out@));
                    assert(av.skip(i as int).drop_first() =~= av.skip(i as int + 1));
                    if let Result::Ok(rest) = sem_join::<V>(
                        av.skip(i as int + 1),
                        bv,
                        left_key@,
                        right_key@,
                    ) {
                        assert(out0 + (part + rest) =~= col_view(out@) + rest);
                    }
                }
                i = i + 1;
            }
            proof {
                assert(av.skip(ca@.len() as int) =~= Seq::<(Seq<V>, int)>::empty());
                assert(col_view(out@) + Seq::<(Seq<V>, int)>::empty() =~= col_view(out@));
            }
    Ok(out)
}

/// Concatenates two collections, adding their multiplicities.
#[verifier::loop_isolation(false)]
pub fn union_all<V: Datum>(ca: Collection<V>, cb: Collection<V>) -> (r: Result<
    Collection<V>,
    Error,
>)
    ensures
        r matches Ok(c) && col_view(c@) == col_view(ca@) + col_view(cb@),
{
    let mut ca = ca;
    let mut cb = cb;
            let ghost av = col_view(ca@);

            let ghost bv = col_view(cb@);
            ca.append(&mut cb);
            proof {
                assert(col_view(ca@) =~= av + bv);
            }
    Ok(ca)
}

/// Appends the negation of `cb` to `ca`, as the difference semantics
/// prescribe.
#[verifier::loop_isolation(false)]
#[verifier::rlimit(60)]
pub fn difference_all<V: Datum>(ca: Collection<V>, cb: &Collection<V>) -> (r: Result<
    Collection<V>,
    Error,
>)
    ensures
        match r {
            Result::Ok(c) => sem_negate::<V>(col_view(cb@)) matches Ok(n) && col_view(c@)
                == col_view(ca@) + n,
            Result::Err(e) => sem_negate::<V>(col_view(cb@)) == Err::<Seq<(Seq<V>, int)>, _>(e),
        },
{
    let mut ca = ca;
            let ghost av = col_view(ca@);

            let ghost bv = col_view(cb@);
            let mut j: usize = 0;
            proof {
                assert(bv.skip(0) =~= bv);
                assert(col_view(ca@).take(av.len() as int) =~= av);
                assert(col_view(ca@).skip(av.len() as int) =~= Seq::<(Seq<V>, int)>::empty());
                if let Result::Ok(rest) = sem_negate::<V>(bv) {
                    assert(Seq::<(Seq<V>, int)>::empty() + rest =~= rest);
                }
            }
            while j < cb.len()
                invariant
                    j <= cb@.len(),
                    av.len() <= ca@.len(),
                    col_view(ca@).take(av.len() as int) == av,
                    match sem_negate::<V>(bv.skip(j as int)) {
                        Result::Ok(rest) => sem_negate::<V>(bv) == Ok::<_, Error>(
                            col_view(ca@).skip(av.len() as int) + rest,
                        ),
                        Result::Err(e) => sem_negate::<V>(bv) == Err::<Seq<(Seq<V>, int)>, _>(e),
                    },
                decreases cb@.len() - j,
            {
                proof {
                    assert(bv.skip(j as int)[0] == bv[j as int]);
                    assert(bv.skip(j as int).drop_first() =~= bv.skip(j as int + 1));
                }
                let d: Diff = cb[j].1;
                if d == isize::MIN {
                    return Err(Error::DiffOverflow);
                }
                let t = clone_tuple(&cb[j].0);
                let ghost cap = ca@;
                ca.push((t, -d));
                proof {
                    let pair = (bv[j as int].0, -bv[j as int].1);
                    assert(ca@.drop_last() =~= cap);
                    assert(col_view(ca@).take(av.len() as int) =~= av);
                    assert(col_view(ca@).skip(av.len() as int) =~= col_view(cap).skip(
                        av.len() as int,
                    ) + seq![pair]);
                    if let Result::Ok(rest_next) = sem_negate::<V>(bv.skip(j as int + 1)) {
                        assert((col_view(cap).skip(av.len() as int) + seq![pair]) + rest_next
                            =~= col_view(cap).skip(av.len() as int) + (seq![pair] + rest_next));
                        assert(sem_negate::<V>(bv.skip(j as int)) == Ok::<_, Error>(
                            seq![pair] + rest_next,
                        ));
                        assert(sem_negate::<V>(bv) == Ok::<_, Error>(
                            col_view(ca@).skip(av.len() as int) + rest_next,
                        ));
                    }
                }
                j = j + 1;
            }
            proof {
                assert(bv.skip(cb@.len() as int) =~= Seq::<(Seq<V>, int)>::empty());
                assert(col_view(ca@).skip(av.len() as int) + Seq::<(Seq<V>, int)>::empty()
                    =~= col_view(ca@).skip(av.len() as int));
                assert(av + col_view(ca@).skip(av.len() as int) =~= col_view(ca@));
            }
    Ok(ca)
}

/// Evaluates a plan against an environment of named collections, exactly
/// as the semantics `sem` prescribes: the result is `sem`'s collection on
/// success and `sem`'s fault on failure, and the environment comes back
/// unchanged. `rounds` bounds every fixpoint iteration.
#[verifier::loop_isolation(false)]
pub fn eval_plan<V: Datum>(
    p: &Plan<V>,
    env: &mut Vec<(String, Collection<V>)>,
    rounds: usize,
) -> (r: Result<Collection<V>, Error>)
    ensures
        final(env)@ == old(env)@,
        match r {
            Result::Ok(c) => sem(*p, bind_view(old(env)@), rounds as nat) == Ok::<_, Error>(
                col_view(c@),
            ),
            Result::Err(e) => sem(*p, bind_view(old(env)@), rounds as nat) == Err::<
                Seq<(Seq<V>, int)>,
                _,
            >(e),
        },
    decreases *p,
{
    match p {
        Plan::Read { name } => {
            match lookup_binding(env, name) {
                Option::Some(c) => Ok(c),
                Option::None => Err(Error::NotFound),
            }
        },
        Plan::Derive { input, exprs } => {
            let ca = match eval_plan(input, env, rounds) {
                Result::Ok(c) => c,
                Result::Err(e) => {
                    return Err(e);
                },
            };
            derive_all(&ca, exprs)
        },
        Plan::Join { left, right, left_key, right_key } => {
            let ca = match eval_plan(left, env, rounds) {
                Result::Ok(c) => c,
                Result::Err(e) => {
                    return Err(e);
                },
            };
            let cb = match eval_plan(right, env, rounds) {
                Result::Ok(c) => c,
                Result::Err(e) => {
                    return Err(e);
                },
            };
            join_all(&ca, &cb, left_key, right_key)
        },
        Plan::Union { left, right } => {
            let ca = match eval_plan(left, env, rounds) {
                Result::Ok(c) => c,
                Result::Err(e) => {
                    return Err(e);
                },
            };
            let cb = match eval_plan(right, env, rounds) {
                Result::Ok(c) => c,
                Result::Err(e) => {
                    return Err(e);
                },
            };
            union_all(ca, cb)
        },
        Plan::Difference { left, right } => {
            let ca = match eval_plan(left, env, rounds) {
                Result::Ok(c) => c,
                Result::Err(e) => {
                    return Err(e);
                },
            };
            let cb = match eval_plan(right, env, rounds) {
                Result::Ok(c) => c,
                Result::Err(e) => {
                    return Err(e);
                },
            };
            difference_all(ca, &cb)
        },
        Plan::Fix { name, arity: _, body } => {
            let ghost envm = bind_view(env@);
            let mut x: Collection<V> = Vec::new();
            let mut k: usize = 0;
            proof {
                assert(col_view(x@) =~= Seq::<(Seq<V>, int)>::empty());
            }
            while k < rounds
                invariant
                    k <= rounds,
                    env@ == old(env)@,
                    sem_fix(**body, name@, envm, col_view(x@), (rounds - k) as nat) == sem_fix(
                        **body,
                        name@,
                        envm,
                        Seq::<(Seq<V>, int)>::empty(),
                        rounds as nat,
                    ),
                decreases rounds - k,
            {
                let xc = clone_collection(&x);
                let nm = clone_string(name);
                let ghost env0 = env@;
                env.push((nm, xc));
                proof {
                    assert(env@.drop_last() == env0);
                    assert(bind_view(env@) == envm.insert(name@, col_view(x@)));
                }
                let y = match eval_plan(body, env, rounds - k - 1) {
                    Result::Ok(c) => {
                        env.pop();
                        proof {
                            assert(env@ == env0);
                        }
                        c
                    },
                    Result::Err(e) => {
                        env.pop();
                        proof {
                            assert(env@ == env0);
                        }
                        return Err(e);
                    },
                };
                if col_eq(&y, &x) {
                    return Ok(x);
                }
                x = y;
                k = k + 1;
            }
            Ok(x)
        },
    }
}

} // verus!
