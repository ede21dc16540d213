//! The wire codec: commands, queries, rules, and plans serialize to bytes
//! and deserialize back with full fidelity. The byte layout is fixed
//! little-endian lengths and tags; every decoder is the exact inverse of
//! its encoder.

use vstd::prelude::*;
use vstd::bytes::{spec_u64_to_le_bytes, spec_u64_from_le_bytes, u64_to_le_bytes, u64_from_le_bytes, lemma_auto_spec_u64_to_from_le_bytes};
use vstd::utf8::{encode_utf8, decode_utf8, valid_utf8, encode_utf8_valid_utf8, encode_utf8_decode_utf8};
use crate::{Datum, Error};
use crate::plan::Plan;
use crate::query::{Query, Rule};
use crate::command::Command;

verus! {

/// The mathematical content of a plan: names as character sequences,
/// sub-plans nested.
pub enum PlanSpec<E> {
    /// Reads a named collection.
    Read { name: Seq<char> },
    /// Derives one tuple per input tuple.
    Derive { input: Box<PlanSpec<E>>, exprs: Seq<E> },
    /// Equi-joins two sub-plans.
    Join { left: Box<PlanSpec<E>>, right: Box<PlanSpec<E>>, left_key: Seq<E>, right_key: Seq<E> },
    /// Adds multiplicities.
    Union { left: Box<PlanSpec<E>>, right: Box<PlanSpec<E>> },
    /// Subtracts multiplicities.
    Difference { left: Box<PlanSpec<E>>, right: Box<PlanSpec<E>> },
    /// Iterates to a fixpoint.
    Fix { name: Seq<char>, arity: usize, body: Box<PlanSpec<E>> },
}

/// The mathematical content of a rule.
pub struct RuleSpec<E> {
    /// The rule's name.
    pub name: Seq<char>,
    /// The rule's plan.
    pub plan: PlanSpec<E>,
}

/// The mathematical content of a query.
pub struct QuerySpec<E> {
    /// The rules, in order.
    pub rules: Seq<RuleSpec<E>>,
    /// The imports with their key columns, in order.
    pub imports: Seq<(PlanSpec<E>, Seq<usize>)>,
    /// The publishes with their key columns, in order.
    pub publish: Seq<(PlanSpec<E>, Seq<usize>)>,
}

/// The mathematical content of a command.
pub enum CommandSpec<E> {
    /// Installs a query.
    Query(QuerySpec<E>),
}

/// The content of a plan value.
pub open spec fn plan_view<V: Datum>(p: Plan<V>) -> PlanSpec<V::Expression>
    decreases p,
{
    match p {
        Plan::Read { name } => PlanSpec::Read { name: name@ },
        Plan::Derive { input, exprs } => PlanSpec::Derive {
            input: Box::new(plan_view(*input)),
            exprs: exprs@,
        },
        Plan::Join { left, right, left_key, right_key } => PlanSpec::Join {
            left: Box::new(plan_view(*left)),
            right: Box::new(plan_view(*right)),
            left_key: left_key@,
            right_key: right_key@,
        },
        Plan::Union { left, right } => PlanSpec::Union {
            left: Box::new(plan_view(*left)),
            right: Box::new(plan_view(*right)),
        },
        Plan::Difference { left, right } => PlanSpec::Difference {
            left: Box::new(plan_view(*left)),
            right: Box::new(plan_view(*right)),
        },
        Plan::Fix { name, arity, body } => PlanSpec::Fix {
            name: name@,
            arity,
            body: Box::new(plan_view(*body)),
        },
    }
}

/// The content of a rule value.
pub open spec fn rule_view<V: Datum>(r: Rule<V>) -> RuleSpec<V::Expression> {
    RuleSpec { name: r.name@, plan: plan_view(r.plan) }
}

/// The content of a query value.
pub open spec fn query_view<V: Datum>(q: Query<V>) -> QuerySpec<V::Expression> {
    QuerySpec {
        rules: q.rules@.map(|i: int, r: Rule<V>| rule_view(r)),
        imports: q.imports@.map(|i: int, p: (Plan<V>, Vec<usize>)| (plan_view(p.0), p.1@)),
        publish: q.publish@.map(|i: int, p: (Plan<V>, Vec<usize>)| (plan_view(p.0), p.1@)),
    }
}

/// The content of a command value.
pub open spec fn command_view<V: Datum>(c: Command<V>) -> CommandSpec<V::Expression> {
    match c {
        Command::Query(q) => CommandSpec::Query(query_view(q)),
    }
}

/// The wire form of a string: its byte length, then its bytes.
pub open spec fn enc_str(s: Seq<char>) -> Seq<u8> {
    spec_u64_to_le_bytes(encode_utf8(s).len() as u64) + encode_utf8(s)
}

/// The wire form of a list of expressions, element by element.
pub open spec fn enc_expr_seq<V: Datum>(es: Seq<V::Expression>) -> Seq<u8>
    decreases es.len(),
{
    if es.len() == 0 {
        Seq::empty()
    } else {
        V::expr_enc(es[0]) + enc_expr_seq::<V>(es.drop_first())
    }
}

/// The wire form of an expression list: its count, then its elements.
pub open spec fn enc_exprs<V: Datum>(es: Seq<V::Expression>) -> Seq<u8> {
    spec_u64_to_le_bytes(es.len() as u64) + enc_expr_seq::<V>(es)
}

/// The wire form of a key column list, element by element.
pub open spec fn enc_key_seq(ks: Seq<usize>) -> Seq<u8>
    decreases ks.len(),
{
    if ks.len() == 0 {
        Seq::empty()
    } else {
        spec_u64_to_le_bytes(ks[0] as u64) + enc_key_seq(ks.drop_first())
    }
}

/// The wire form of a key column list: its count, then its elements.
pub open spec fn enc_keys(ks: Seq<usize>) -> Seq<u8> {
    spec_u64_to_le_bytes(ks.len() as u64) + enc_key_seq(ks)
}

/// The wire form of a plan: a tag byte, then the node's parts.
pub open spec fn enc_plan<V: Datum>(p: PlanSpec<V::Expression>) -> Seq<u8>
    decreases p,
{
    match p {
        PlanSpec::Read { name } => seq![0u8] + enc_str(name),
        PlanSpec::Derive { input, exprs } => seq![1u8] + enc_plan::<V>(*input) + enc_exprs::<V>(
            exprs,
        ),
        PlanSpec::Join { left, right, left_key, right_key } => seq![2u8] + enc_plan::<V>(*left)
            + enc_plan::<V>(*right) + enc_exprs::<V>(left_key) + enc_exprs::<V>(right_key),
        PlanSpec::Union { left, right } => seq![3u8] + enc_plan::<V>(*left) + enc_plan::<V>(*right),
        PlanSpec::Difference { left, right } => seq![4u8] + enc_plan::<V>(*left) + enc_plan::<V>(
            *right,
        ),
        PlanSpec::Fix { name, arity, body } => seq![5u8] + enc_str(name) + spec_u64_to_le_bytes(
            arity as u64,
        ) + enc_plan::<V>(*body),
    }
}

/// The wire form of a rule: its name, then its plan.
pub open spec fn enc_rule<V: Datum>(r: RuleSpec<V::Expression>) -> Seq<u8> {
    enc_str(r.name) + enc_plan::<V>(r.plan)
}

/// The wire form of a rule list, element by element.
pub open spec fn enc_rule_seq<V: Datum>(rs: Seq<RuleSpec<V::Expression>>) -> Seq<u8>
    decreases rs.len(),
{
    if rs.len() == 0 {
        Seq::empty()
    } else {
        enc_rule::<V>(rs[0]) + enc_rule_seq::<V>(rs.drop_first())
    }
}

/// The wire form of an import or publish list, element by element: each
/// element a plan and its key columns.
pub open spec fn enc_port_seq<V: Datum>(ps: Seq<(PlanSpec<V::Expression>, Seq<usize>)>) -> Seq<u8>
    decreases ps.len(),
{
    if ps.len() == 0 {
        Seq::empty()
    } else {
        enc_plan::<V>(ps[0].0) + enc_keys(ps[0].1) + enc_port_seq::<V>(ps.drop_first())
    }
}

/// The wire form of a query: its rules, imports, and publishes, each as a
/// counted list.
pub open spec fn enc_query<V: Datum>(q: QuerySpec<V::Expression>) -> Seq<u8> {
    spec_u64_to_le_bytes(q.rules.len() as u64) + enc_rule_seq::<V>(q.rules) + spec_u64_to_le_bytes(
        q.imports.len() as u64,
    ) + enc_port_seq::<V>(q.imports) + spec_u64_to_le_bytes(q.publish.len() as u64)
        + enc_port_seq::<V>(q.publish)
}

/// The wire form of a command: a tag byte, then the operation's parts.
pub open spec fn enc_command<V: Datum>(c: CommandSpec<V::Expression>) -> Seq<u8> {
    match c {
        CommandSpec::Query(q) => seq![0u8] + enc_query::<V>(q),
    }
}

/// Appends eight little-endian bytes of `x`.
pub fn write_u64(x: u64, out: &mut Vec<u8>)
    ensures
        final(out)@ == old(out)@ + spec_u64_to_le_bytes(x),
{
    let mut bs = u64_to_le_bytes(x);
    out.append(&mut bs);
}

/// Appends the wire form of a string, whose byte length fits the machine.
pub fn write_str(s: &String, out: &mut Vec<u8>)
    ensures
        final(out)@ == old(out)@ + enc_str(s@),
        encode_utf8(s@).len() <= usize::MAX,
{
    let mut bytes = s.as_str().as_bytes_vec();
    let n: usize = bytes.len();
    write_u64(n as u64, out);
    out.append(&mut bytes);
}

/// Appends the wire form of an expression list.
#[verifier::loop_isolation(false)]
pub fn write_exprs<V: Datum>(es: &Vec<V::Expression>, out: &mut Vec<u8>)
    ensures
        final(out)@ == old(out)@ + enc_exprs::<V>(es@),
        es@.len() <= usize::MAX,
{
    write_u64(es.len() as u64, out);
    let mut i: usize = 0;
    proof {
        assert(enc_expr_seq::<V>(es@.take(0)) =~= Seq::<u8>::empty());
        assert(out@ =~= out@ + enc_expr_seq::<V>(es@.take(0)));
    }
    while i < es.len()
        invariant
            i <= es@.len(),
            out@ == old(out)@ + spec_u64_to_le_bytes(es@.len() as u64) + enc_expr_seq::<V>(
                es@.take(i as int),
            ),
        decreases es@.len() - i,
    {
        V::expr_write(&es[i], out);
        proof {
            lemma_enc_expr_seq_snoc::<V>(es@.take(i as int + 1));
            assert(es@.take(i as int + 1).drop_last() =~= es@.take(i as int));
            assert(es@.take(i as int + 1).last() == es@[i as int]);
        }
        i = i + 1;
    }
    proof {
        assert(es@.take(es@.len() as int) =~= es@);
    }
}

/// Splitting the last element off an expression list splits its wire
/// form.
pub proof fn lemma_enc_expr_seq_snoc<V: Datum>(es: Seq<V::Expression>)
    requires
        es.len() > 0,
    ensures
        enc_expr_seq::<V>(es) == enc_expr_seq::<V>(es.drop_last()) + V::expr_enc(es.last()),
    decreases es.len(),
{
    if es.len() == 1 {
        assert(es.drop_first() =~= Seq::<V::Expression>::empty());
        assert(es.drop_last() =~= Seq::<V::Expression>::empty());
        assert(enc_expr_seq::<V>(Seq::<V::Expression>::empty()) =~= Seq::<u8>::empty());
        assert(enc_expr_seq::<V>(es) =~= V::expr_enc(es[0]));
        assert(enc_expr_seq::<V>(es.drop_last()) + V::expr_enc(es.last()) =~= V::expr_enc(es[0]));
    } else {
        lemma_enc_expr_seq_snoc::<V>(es.drop_first());
        assert(es.drop_first().drop_last() =~= es.drop_last().drop_first());
        assert(es.drop_first().last() == es.last());
        assert(V::expr_enc(es[0]) + (enc_expr_seq::<V>(es.drop_first().drop_last()) + V::expr_enc(
            es.last(),
        )) =~= (V::expr_enc(es[0]) + enc_expr_seq::<V>(es.drop_last().drop_first())) + V::expr_enc(
            es.last(),
        ));
        assert(es.drop_last()[0] == es[0]);
        assert(enc_expr_seq::<V>(es.drop_last()) == V::expr_enc(es[0]) + enc_expr_seq::<V>(
            es.drop_last().drop_first(),
        ));
    }
}

/// Splitting the last element off a key list splits its wire form.
pub proof fn lemma_enc_key_seq_snoc(ks: Seq<usize>)
    requires
        ks.len() > 0,
    ensures
        enc_key_seq(ks) == enc_key_seq(ks.drop_last()) + spec_u64_to_le_bytes(ks.last() as u64),
    decreases ks.len(),
{
    if ks.len() == 1 {
        assert(ks.drop_first() =~= Seq::<usize>::empty());
        assert(ks.drop_last() =~= Seq::<usize>::empty());
        assert(enc_key_seq(Seq::<usize>::empty()) =~= Seq::<u8>::empty());
        assert(enc_key_seq(ks) =~= spec_u64_to_le_bytes(ks[0] as u64));
        assert(enc_key_seq(ks.drop_last()) + spec_u64_to_le_bytes(ks.last() as u64)
            =~= spec_u64_to_le_bytes(ks[0] as u64));
    } else {
        lemma_enc_key_seq_snoc(ks.drop_first());
        assert(ks.drop_first().drop_last() =~= ks.drop_last().drop_first());
        assert(ks.drop_first().last() == ks.last());
        assert(spec_u64_to_le_bytes(ks[0] as u64) + (enc_key_seq(ks.drop_first().drop_last())
            + spec_u64_to_le_bytes(ks.last() as u64)) =~= (spec_u64_to_le_bytes(ks[0] as u64)
            + enc_key_seq(ks.drop_last().drop_first())) + spec_u64_to_le_bytes(ks.last() as u64));
        assert(ks.drop_last()[0] == ks[0]);
        assert(enc_key_seq(ks.drop_last()) == spec_u64_to_le_bytes(ks[0] as u64) + enc_key_seq(
            ks.drop_last().drop_first(),
        ));
    }
}

/// Appends the wire form of a key column list.
#[verifier::loop_isolation(false)]
pub fn write_keys(ks: &Vec<usize>, out: &mut Vec<u8>)
    ensures
        final(out)@ == old(out)@ + enc_keys(ks@),
        ks@.len() <= usize::MAX,
{
    write_u64(ks.len() as u64, out);
    let mut i: usize = 0;
    proof {
        assert(enc_key_seq(ks@.take(0)) =~= Seq::<u8>::empty());
        assert(out@ =~= out@ + enc_key_seq(ks@.take(0)));
    }
    while i < ks.len()
        invariant
            i <= ks@.len(),
            out@ == old(out)@ + spec_u64_to_le_bytes(ks@.len() as u64) + enc_key_seq(
                ks@.take(i as int),
            ),
        decreases ks@.len() - i,
    {
        write_u64(ks[i] as u64, out);
        proof {
            lemma_enc_key_seq_snoc(ks@.take(i as int + 1));
            assert(ks@.take(i as int + 1).drop_last() =~= ks@.take(i as int));
            assert(ks@.take(i as int + 1).last() == ks@[i as int]);
        }
        i = i + 1;
    }
    proof {
        assert(ks@.take(ks@.len() as int) =~= ks@);
    }
}

/// Appends the wire form of a plan.
pub fn write_plan<V: Datum>(p: &Plan<V>, out: &mut Vec<u8>)
    ensures
        final(out)@ == old(out)@ + enc_plan::<V>(plan_view(*p)),
        wf_plan::<V>(plan_view(*p)),
    decreases *p,
{
    match p {
        Plan::Read { name } => {
            out.push(0u8);
            write_str(name, out);
        },
        Plan::Derive { input, exprs } => {
            out.push(1u8);
            write_plan(input, out);
            write_exprs::<V>(exprs, out);
        },
        Plan::Join { left, right, left_key, right_key } => {
            out.push(2u8);
            write_plan(left, out);
            write_plan(right, out);
            write_exprs::<V>(left_key, out);
            write_exprs::<V>(right_key, out);
        },
        Plan::Union { left, right } => {
            out.push(3u8);
            write_plan(left, out);
            write_plan(right, out);
        },
        Plan::Difference { left, right } => {
            out.push(4u8);
            write_plan(left, out);
            write_plan(right, out);
        },
        Plan::Fix { name, arity, body } => {
            out.push(5u8);
            write_str(name, out);
            write_u64(*arity as u64, out);
            write_plan(body, out);
        },
    }
    proof {
        assert(out@ =~= old(out)@ + enc_plan::<V>(plan_view(*p)));
    }
}

/// Appends the wire form of a rule.
pub fn write_rule<V: Datum>(r: &Rule<V>, out: &mut Vec<u8>)
    ensures
        final(out)@ == old(out)@ + enc_rule::<V>(rule_view(*r)),
        encode_utf8(rule_view(*r).name).len() <= usize::MAX,
        wf_plan::<V>(rule_view(*r).plan),
{
    write_str(&r.name, out);
    write_plan(&r.plan, out);
    proof {
        assert(out@ =~= old(out)@ + enc_rule::<V>(rule_view(*r)));
    }
}


/// Appends the wire form of a query.
#[verifier::loop_isolation(false)]
#[verifier::rlimit(60)]
pub fn write_query<V: Datum>(q: &Query<V>, out: &mut Vec<u8>)
    ensures
        final(out)@ == old(out)@ + enc_query::<V>(query_view(*q)),
        wf_query::<V>(query_view(*q)),
{
    let ghost qv = query_view(*q);
    write_u64(q.rules.len() as u64, out);
    let mut i: usize = 0;
    proof {
        assert(qv.rules.take(0) =~= Seq::<RuleSpec<V::Expression>>::empty());
        assert(enc_rule_seq::<V>(qv.rules.take(0)) =~= Seq::<u8>::empty());
        assert(out@ =~= out@ + enc_rule_seq::<V>(qv.rules.take(0)));
    }
    while i < q.rules.len()
        invariant
            i <= q.rules@.len(),
            out@ == old(out)@ + spec_u64_to_le_bytes(qv.rules.len() as u64) + enc_rule_seq::<V>(
                qv.rules.take(i as int),
            ),
            forall|k: int|
                0 <= k < i ==> encode_utf8((#[trigger] qv.rules[k]).name).len() <= usize::MAX
                    && wf_plan::<V>(qv.rules[k].plan),
        decreases q.rules@.len() - i,
    {
        write_rule(&q.rules[i], out);
        proof {
            lemma_enc_rule_seq_snoc::<V>(qv.rules.take(i as int + 1));
            assert(qv.rules.take(i as int + 1).drop_last() =~= qv.rules.take(i as int));
            assert(qv.rules.take(i as int + 1).last() == rule_view(q.rules@[i as int]));
        }
        i = i + 1;
    }
    proof {
        assert(qv.rules.take(qv.rules.len() as int) =~= qv.rules);
    }
    write_u64(q.imports.len() as u64, out);
    let ghost base1 = out@;
    let mut i: usize = 0;
    proof {
        assert(qv.imports.take(0) =~= Seq::<(PlanSpec<V::Expression>, Seq<usize>)>::empty());
        assert(enc_port_seq::<V>(qv.imports.take(0)) =~= Seq::<u8>::empty());
        assert(out@ =~= out@ + enc_port_seq::<V>(qv.imports.take(0)));
    }
    while i < q.imports.len()
        invariant
            i <= q.imports@.len(),
            out@ == base1 + enc_port_seq::<V>(qv.imports.take(i as int)),
            forall|k: int|
                0 <= k < i ==> wf_plan::<V>((#[trigger] qv.imports[k]).0) && qv.imports[k].1.len()
                    <= usize::MAX,
        decreases q.imports@.len() - i,
    {
        write_plan(&q.imports[i].0, out);
        write_keys(&q.imports[i].1, out);
        proof {
            lemma_enc_port_seq_snoc::<V>(qv.imports.take(i as int + 1));
            assert(qv.imports.take(i as int + 1).drop_last() =~= qv.imports.take(i as int));
            assert(qv.imports.take(i as int + 1).last() == (
                plan_view(q.imports@[i as int].0),
                q.imports@[i as int].1@,
            ));
        }
        i = i + 1;
    }
    proof {
        assert(qv.imports.take(qv.imports.len() as int) =~= qv.imports);
    }
    write_u64(q.publish.len() as u64, out);
    let ghost base2 = out@;
    let mut i: usize = 0;
    proof {
        assert(qv.publish.take(0) =~= Seq::<(PlanSpec<V::Expression>, Seq<usize>)>::empty());
        assert(enc_port_seq::<V>(qv.publish.take(0)) =~= Seq::<u8>::empty());
        assert(out@ =~= out@ + enc_port_seq::<V>(qv.publish.take(0)));
    }
    while i < q.publish.len()
        invariant
            i <= q.publish@.len(),
            out@ == base2 + enc_port_seq::<V>(qv.publish.take(i as int)),
            forall|k: int|
                0 <= k < i ==> wf_plan::<V>((#[trigger] qv.publish[k]).0) && qv.publish[k].1.len()
                    <= usize::MAX,
        decreases q.publish@.len() - i,
    {
        write_plan(&q.publish[i].0, out);
        write_keys(&q.publish[i].1, out);
        proof {
            lemma_enc_port_seq_snoc::<V>(qv.publish.take(i as int + 1));
            assert(qv.publish.take(i as int + 1).drop_last() =~= qv.publish.take(i as int));
            assert(qv.publish.take(i as int + 1).last() == (
                plan_view(q.publish@[i as int].0),
                q.publish@[i as int].1@,
            ));
        }
        i = i + 1;
    }
    proof {
        assert(qv.publish.take(qv.publish.len() as int) =~= qv.publish);
        assert(out@ =~= old(out)@ + enc_query::<V>(qv));
    }
}

/// Splitting the last element off a rule list splits its wire form.
pub proof fn lemma_enc_rule_seq_snoc<V: Datum>(rs: Seq<RuleSpec<V::Expression>>)
    requires
        rs.len() > 0,
    ensures
        enc_rule_seq::<V>(rs) == enc_rule_seq::<V>(rs.drop_last()) + enc_rule::<V>(rs.last()),
    decreases rs.len(),
{
    if rs.len() == 1 {
        assert(rs.drop_first() =~= Seq::<RuleSpec<V::Expression>>::empty());
        assert(rs.drop_last() =~= Seq::<RuleSpec<V::Expression>>::empty());
        assert(enc_rule_seq::<V>(Seq::<RuleSpec<V::Expression>>::empty()) =~= Seq::<u8>::empty());
        assert(enc_rule_seq::<V>(rs) =~= enc_rule::<V>(rs[0]));
        assert(enc_rule_seq::<V>(rs.drop_last()) + enc_rule::<V>(rs.last()) =~= enc_rule::<V>(
            rs[0],
        ));
    } else {
        lemma_enc_rule_seq_snoc::<V>(rs.drop_first());
        assert(rs.drop_first().drop_last() =~= rs.drop_last().drop_first());
        assert(rs.drop_first().last() == rs.last());
        assert(enc_rule::<V>(rs[0]) + (enc_rule_seq::<V>(rs.drop_first().drop_last())
            + enc_rule::<V>(rs.last())) =~= (enc_rule::<V>(rs[0]) + enc_rule_seq::<V>(
            rs.drop_last().drop_first(),
        )) + enc_rule::<V>(rs.last()));
        assert(rs.drop_last()[0] == rs[0]);
        assert(enc_rule_seq::<V>(rs.drop_last()) == enc_rule::<V>(rs[0]) + enc_rule_seq::<V>(
            rs.drop_last().drop_first(),
        ));
    }
}

/// Splitting the last element off an import or publish list splits its
/// wire form.
pub proof fn lemma_enc_port_seq_snoc<V: Datum>(ps: Seq<(PlanSpec<V::Expression>, Seq<usize>)>)
    requires
        ps.len() > 0,
    ensures
        enc_port_seq::<V>(ps) == enc_port_seq::<V>(ps.drop_last()) + (enc_plan::<V>(ps.last().0)
            + enc_keys(ps.last().1)),
    decreases ps.len(),
{
    if ps.len() == 1 {
        assert(ps.drop_first() =~= Seq::<(PlanSpec<V::Expression>, Seq<usize>)>::empty());
        assert(ps.drop_last() =~= Seq::<(PlanSpec<V::Expression>, Seq<usize>)>::empty());
        assert(enc_port_seq::<V>(Seq::<(PlanSpec<V::Expression>, Seq<usize>)>::empty()) =~= Seq::<
            u8,
        >::empty());
        assert(enc_port_seq::<V>(ps) =~= enc_plan::<V>(ps[0].0) + enc_keys(ps[0].1));
        assert(enc_port_seq::<V>(ps.drop_last()) + (enc_plan::<V>(ps.last().0) + enc_keys(
            ps.last().1,
        )) =~= enc_plan::<V>(ps[0].0) + enc_keys(ps[0].1));
    } else {
        lemma_enc_port_seq_snoc::<V>(ps.drop_first());
        assert(ps.drop_first().drop_last() =~= ps.drop_last().drop_first());
        assert(ps.drop_first().last() == ps.last());
        assert((enc_plan::<V>(ps[0].0) + enc_keys(ps[0].1)) + (enc_port_seq::<V>(
            ps.drop_first().drop_last(),
        ) + (enc_plan::<V>(ps.last().0) + enc_keys(ps.last().1))) =~= ((enc_plan::<V>(ps[0].0)
            + enc_keys(ps[0].1)) + enc_port_seq::<V>(ps.drop_last().drop_first())) + (enc_plan::<
            V,
        >(ps.last().0) + enc_keys(ps.last().1)));
        assert(ps.drop_last()[0] == ps[0]);
        assert(enc_port_seq::<V>(ps.drop_last()) == (enc_plan::<V>(ps[0].0) + enc_keys(ps[0].1))
            + enc_port_seq::<V>(ps.drop_last().drop_first()));
    }
}

impl<V: Datum> Command<V> {
    /// Serializes the command to its wire form.
    pub fn encode(&self) -> (r: Vec<u8>)
        ensures
            r@ == enc_command::<V>(command_view(*self)),
            wf_command::<V>(command_view(*self)),
    {
        let mut out: Vec<u8> = Vec::new();
        out.push(0u8);
        match self {
            Command::Query(q) => {
                write_query(q, &mut out);
            },
        }
        proof {
            assert(out@ =~= enc_command::<V>(command_view(*self)));
        }
        out
    }
}

/// Reads eight little-endian bytes at `pos`, if present.
pub open spec fn dec_u64(b: Seq<u8>, pos: int) -> Option<(u64, int)> {
    if 0 <= pos && pos + 8 <= b.len() {
        Some((spec_u64_from_le_bytes(b.subrange(pos, pos + 8)), pos + 8))
    } else {
        None
    }
}

/// Reads a length-prefixed, machine-representable, valid-UTF-8 string.
pub open spec fn dec_str(b: Seq<u8>, pos: int) -> Option<(Seq<char>, int)> {
    match dec_u64(b, pos) {
        Option::None => None,
        Option::Some((n, p1)) => {
            if n <= usize::MAX as u64 && p1 + n <= b.len() && valid_utf8(
                b.subrange(p1, p1 + n as int),
            ) {
                Some((decode_utf8(b.subrange(p1, p1 + n as int)), p1 + n as int))
            } else {
                None
            }
        },
    }
}

/// Reads `n` expressions of eight bytes each.
pub open spec fn dec_expr_seq<V: Datum>(b: Seq<u8>, pos: int, n: nat) -> Option<
    (Seq<V::Expression>, int),
>
    decreases n,
{
    if n == 0 {
        Some((Seq::empty(), pos))
    } else if 0 <= pos && pos + 8 <= b.len() {
        match V::expr_dec(b.subrange(pos, pos + 8)) {
            Option::None => None,
            Option::Some(e) => match dec_expr_seq::<V>(b, pos + 8, (n - 1) as nat) {
                Option::None => None,
                Option::Some((es, end)) => Some((seq![e] + es, end)),
            },
        }
    } else {
        None
    }
}

/// Reads a counted expression list.
pub open spec fn dec_exprs<V: Datum>(b: Seq<u8>, pos: int) -> Option<(Seq<V::Expression>, int)> {
    match dec_u64(b, pos) {
        Option::None => None,
        Option::Some((n, p1)) => {
            if n <= usize::MAX as u64 {
                dec_expr_seq::<V>(b, p1, n as nat)
            } else {
                None
            }
        },
    }
}

/// Reads `n` key columns of eight bytes each, each fitting the machine.
pub open spec fn dec_key_seq(b: Seq<u8>, pos: int, n: nat) -> Option<(Seq<usize>, int)>
    decreases n,
{
    if n == 0 {
        Some((Seq::empty(), pos))
    } else {
        match dec_u64(b, pos) {
            Option::None => None,
            Option::Some((k, p1)) => {
                if k <= usize::MAX as u64 {
                    match dec_key_seq(b, p1, (n - 1) as nat) {
                        Option::None => None,
                        Option::Some((ks, end)) => Some((seq![k as usize] + ks, end)),
                    }
                } else {
                    None
                }
            },
        }
    }
}

/// Reads a counted key column list.
pub open spec fn dec_keys(b: Seq<u8>, pos: int) -> Option<(Seq<usize>, int)> {
    match dec_u64(b, pos) {
        Option::None => None,
        Option::Some((n, p1)) => {
            if n <= usize::MAX as u64 {
                dec_key_seq(b, p1, n as nat)
            } else {
                None
            }
        },
    }
}

/// Reads one plan: a tag byte, then the node's parts, each sub-plan ending
/// strictly after it starts and inside the buffer.
pub open spec fn dec_plan<V: Datum>(b: Seq<u8>, pos: int) -> Option<
    (PlanSpec<V::Expression>, int),
>
    decreases b.len() - pos,
{
    if !(0 <= pos && pos < b.len()) {
        None
    } else {
        let tag = b[pos];
        if tag == 0 {
            match dec_str(b, pos + 1) {
                Option::None => None,
                Option::Some((nm, e)) => Some((PlanSpec::Read { name: nm }, e)),
            }
        } else if tag == 1 {
            match dec_plan::<V>(b, pos + 1) {
                Option::None => None,
                Option::Some((p1, e1)) => {
                    match dec_exprs::<V>(b, e1) {
                        Option::None => None,
                        Option::Some((es, e2)) => Some(
                            (PlanSpec::Derive { input: Box::new(p1), exprs: es }, e2),
                        ),
                    }
                },
            }
        } else if tag == 2 {
            match dec_plan::<V>(b, pos + 1) {
                Option::None => None,
                Option::Some((p1, e1)) => {
                    if pos + 1 < e1 && e1 <= b.len() {
                        match dec_plan::<V>(b, e1) {
                            Option::None => None,
                            Option::Some((p2, e2)) => {
                                match dec_exprs::<V>(b, e2) {
                                    Option::None => None,
                                    Option::Some((lk, e3)) => {
                                        match dec_exprs::<V>(b, e3) {
                                            Option::None => None,
                                            Option::Some((rk, e4)) => Some(
                                                (
                                                    PlanSpec::Join {
                                                        left: Box::new(p1),
                                                        right: Box::new(p2),
                                                        left_key: lk,
                                                        right_key: rk,
                                                    },
                                                    e4,
                                                ),
                                            ),
                                        }
                                    },
                                }
                            },
                        }
                    } else {
                        None
                    }
                },
            }
        } else if tag == 3 {
            match dec_plan::<V>(b, pos + 1) {
                Option::None => None,
                Option::Some((p1, e1)) => {
                    if pos + 1 < e1 && e1 <= b.len() {
                        match dec_plan::<V>(b, e1) {
                            Option::None => None,
                            Option::Some((p2, e2)) => Some(
                                (PlanSpec::Union { left: Box::new(p1), right: Box::new(p2) }, e2),
                            ),
                        }
                    } else {
                        None
                    }
                },
            }
        } else if tag == 4 {
            match dec_plan::<V>(b, pos + 1) {
                Option::None => None,
                Option::Some((p1, e1)) => {
                    if pos + 1 < e1 && e1 <= b.len() {
                        match dec_plan::<V>(b, e1) {
                            Option::None => None,
                            Option::Some((p2, e2)) => Some(
                                (
                                    PlanSpec::Difference {
                                        left: Box::new(p1),
                                        right: Box::new(p2),
                                    },
                                    e2,
                                ),
                            ),
                        }
                    } else {
                        None
                    }
                },
            }
        } else if tag == 5 {
            match dec_str(b, pos + 1) {
                Option::None => None,
                Option::Some((nm, e1)) => {
                    match dec_u64(b, e1) {
                        Option::None => None,
                        Option::Some((ar, e2)) => {
                            if ar <= usize::MAX as u64 && pos + 1 < e2 && e2 <= b.len() {
                                match dec_plan::<V>(b, e2) {
                                    Option::None => None,
                                    Option::Some((p1, e3)) => Some(
                                        (
                                            PlanSpec::Fix {
                                                name: nm,
                                                arity: ar as usize,
                                                body: Box::new(p1),
                                            },
                                            e3,
                                        ),
                                    ),
                                }
                            } else {
                                None
                            }
                        },
                    }
                },
            }
        } else {
            None
        }
    }
}

/// Reads one rule: its name, then its plan, the name ending inside the
/// buffer.
pub open spec fn dec_rule<V: Datum>(b: Seq<u8>, pos: int) -> Option<
    (RuleSpec<V::Expression>, int),
> {
    match dec_str(b, pos) {
        Option::None => None,
        Option::Some((nm, e1)) => {
            match dec_plan::<V>(b, e1) {
                Option::None => None,
                Option::Some((p, e2)) => Some((RuleSpec { name: nm, plan: p }, e2)),
            }
        },
    }
}

/// Reads `n` rules.
pub open spec fn dec_rule_seq<V: Datum>(b: Seq<u8>, pos: int, n: nat) -> Option<
    (Seq<RuleSpec<V::Expression>>, int),
>
    decreases n,
{
    if n == 0 {
        Some((Seq::empty(), pos))
    } else {
        match dec_rule::<V>(b, pos) {
            Option::None => None,
            Option::Some((r, e1)) => match dec_rule_seq::<V>(b, e1, (n - 1) as nat) {
                Option::None => None,
                Option::Some((rs, end)) => Some((seq![r] + rs, end)),
            },
        }
    }
}

/// Reads `n` import or publish entries, each a plan and its key columns.
pub open spec fn dec_port_seq<V: Datum>(b: Seq<u8>, pos: int, n: nat) -> Option<
    (Seq<(PlanSpec<V::Expression>, Seq<usize>)>, int),
>
    decreases n,
{
    if n == 0 {
        Some((Seq::empty(), pos))
    } else {
        match dec_plan::<V>(b, pos) {
            Option::None => None,
            Option::Some((p, e1)) => {
                match dec_keys(b, e1) {
                    Option::None => None,
                    Option::Some((ks, e2)) => match dec_port_seq::<V>(b, e2, (n - 1) as nat) {
                        Option::None => None,
                        Option::Some((ps, end)) => Some((seq![(p, ks)] + ps, end)),
                    },
                }
            },
        }
    }
}

/// Reads one query: its rules, imports, and publishes, each counted.
pub open spec fn dec_query<V: Datum>(b: Seq<u8>, pos: int) -> Option<
    (QuerySpec<V::Expression>, int),
> {
    match dec_u64(b, pos) {
        Option::None => None,
        Option::Some((nr, p1)) => {
            if nr <= usize::MAX as u64 {
                match dec_rule_seq::<V>(b, p1, nr as nat) {
                    Option::None => None,
                    Option::Some((rs, p2)) => {
                        match dec_u64(b, p2) {
                            Option::None => None,
                            Option::Some((ni, p3)) => {
                                if ni <= usize::MAX as u64 {
                                    match dec_port_seq::<V>(b, p3, ni as nat) {
                                        Option::None => None,
                                        Option::Some((is, p4)) => {
                                            match dec_u64(b, p4) {
                                                Option::None => None,
                                                Option::Some((np, p5)) => {
                                                    if np <= usize::MAX as u64 {
                                                        match dec_port_seq::<V>(b, p5, np as nat) {
                                                            Option::None => None,
                                                            Option::Some((pubs, p6)) => Some(
                                                                (
                                                                    QuerySpec {
                                                                        rules: rs,
                                                                        imports: is,
                                                                        publish: pubs,
                                                                    },
                                                                    p6,
                                                                ),
                                                            ),
                                                        }
                                                    } else {
                                                        None
                                                    }
                                                },
                                            }
                                        },
                                    }
                                } else {
                                    None
                                }
                            },
                        }
                    },
                }
            } else {
                None
            }
        },
    }
}

/// Reads one command: a tag byte, then the operation's parts.
pub open spec fn dec_command<V: Datum>(b: Seq<u8>, pos: int) -> Option<
    (CommandSpec<V::Expression>, int),
> {
    if 0 <= pos && pos < b.len() && b[pos] == 0 {
        match dec_query::<V>(b, pos + 1) {
            Option::None => None,
            Option::Some((q, e)) => Some((CommandSpec::Query(q), e)),
        }
    } else {
        None
    }
}

/// Relies on String::from_utf8: it accepts exactly the byte sequences
/// that are valid UTF-8 and keeps the bytes of an accepted string.
#[verifier::external_body]
fn bytes_to_string(v: Vec<u8>) -> (r: Option<String>)
    ensures
        r is Some <==> valid_utf8(v@),
        r matches Some(s) ==> s@ == decode_utf8(v@),
{
    String::from_utf8(v).ok()
}

/// Reads eight little-endian bytes, as `dec_u64` prescribes.
pub fn read_u64(bytes: &Vec<u8>, pos: usize) -> (r: Option<(u64, usize)>)
    ensures
        match r {
            Option::Some((x, end)) => dec_u64(bytes@, pos as int) == Some((x, end as int)) && pos
                < end <= bytes@.len(),
            Option::None => dec_u64(bytes@, pos as int) is None,
        },
{
    let n: usize = bytes.len();
    if pos < n && n - pos >= 8 {
        let x = u64_from_le_bytes(vstd::slice::slice_subrange(bytes.as_slice(), pos, pos + 8));
        Some((x, pos + 8))
    } else {
        None
    }
}

/// Reads a length-prefixed string, as `dec_str` prescribes.
pub fn read_str(bytes: &Vec<u8>, pos: usize) -> (r: Option<(String, usize)>)
    ensures
        match r {
            Option::Some((s, end)) => dec_str(bytes@, pos as int) == Some((s@, end as int)) && pos
                < end <= bytes@.len(),
            Option::None => dec_str(bytes@, pos as int) is None,
        },
{
    let (n, p1) = match read_u64(bytes, pos) {
        Option::Some(v) => v,
        Option::None => {
            return None;
        },
    };
    if n > usize::MAX as u64 {
        return None;
    }
    let nu = n as usize;
    let len: usize = bytes.len();
    if nu > len - p1 {
        return None;
    }
    let sub = vstd::slice::slice_to_vec(
        vstd::slice::slice_subrange(bytes.as_slice(), p1, p1 + nu),
    );
    match bytes_to_string(sub) {
        Option::Some(st) => {
            if nu == 0 {
                proof {
                    assert(pos < p1 + nu);
                }
            }
            Some((st, p1 + nu))
        },
        Option::None => None,
    }
}

/// Reads a counted expression list, as `dec_exprs` prescribes.
#[verifier::loop_isolation(false)]
pub fn read_exprs<V: Datum>(bytes: &Vec<u8>, pos: usize) -> (r: Option<(Vec<V::Expression>, usize)>)
    ensures
        match r {
            Option::Some((es, end)) => dec_exprs::<V>(bytes@, pos as int) == Some(
                (es@, end as int),
            ) && pos < end <= bytes@.len(),
            Option::None => dec_exprs::<V>(bytes@, pos as int) is None,
        },
{
    let (n, p1) = match read_u64(bytes, pos) {
        Option::Some(v) => v,
        Option::None => {
            return None;
        },
    };
    if n > usize::MAX as u64 {
        return None;
    }
    let nu = n as usize;
    let mut out: Vec<V::Expression> = Vec::new();
    let mut p: usize = p1;
    let mut i: usize = 0;
    proof {
        assert(Seq::<V::Expression>::empty() =~= out@);
    }
    while i < nu
        invariant
            i <= nu,
            out@.len() == i,
            pos < p <= bytes@.len(),
            match dec_expr_seq::<V>(bytes@, p as int, (nu - i) as nat) {
                Option::Some((rest, end)) => dec_expr_seq::<V>(bytes@, p1 as int, nu as nat)
                    == Some((out@ + rest, end)),
                Option::None => dec_expr_seq::<V>(bytes@, p1 as int, nu as nat) is None,
            },
        decreases nu - i,
    {
        let len: usize = bytes.len();
        if len - p < 8 || p >= len {
            return None;
        }
        let e = match V::expr_read(bytes, p) {
            Option::Some(e) => e,
            Option::None => {
                return None;
            },
        };
        let ghost outp = out@;
        out.push(e);
        proof {
            assert(out@ =~= outp.push(out@.last()));
            if let Option::Some((rest_next, end)) = dec_expr_seq::<V>(
                bytes@,
                p as int + 8,
                (nu - i - 1) as nat,
            ) {
                assert(outp + (seq![out@.last()] + rest_next) =~= out@ + rest_next);
            }
        }
        p = p + 8;
        i = i + 1;
    }
    proof {
        assert(dec_expr_seq::<V>(bytes@, p as int, 0) == Some((Seq::<V::Expression>::empty(), p as int)));
        assert(out@ + Seq::<V::Expression>::empty() =~= out@);
    }
    Some((out, p))
}

/// Reads a counted key column list, as `dec_keys` prescribes.
#[verifier::loop_isolation(false)]
pub fn read_keys(bytes: &Vec<u8>, pos: usize) -> (r: Option<(Vec<usize>, usize)>)
    ensures
        match r {
            Option::Some((ks, end)) => dec_keys(bytes@, pos as int) == Some((ks@, end as int))
                && pos < end <= bytes@.len(),
            Option::None => dec_keys(bytes@, pos as int) is None,
        },
{
    let (n, p1) = match read_u64(bytes, pos) {
        Option::Some(v) => v,
        Option::None => {
            return None;
        },
    };
    if n > usize::MAX as u64 {
        return None;
    }
    let nu = n as usize;
    let mut out: Vec<usize> = Vec::new();
    let mut p: usize = p1;
    let mut i: usize = 0;
    proof {
        assert(Seq::<usize>::empty() =~= out@);
    }
    while i < nu
        invariant
            i <= nu,
            out@.len() == i,
            pos < p <= bytes@.len(),
            match dec_key_seq(bytes@, p as int, (nu - i) as nat) {
                Option::Some((rest, end)) => dec_key_seq(bytes@, p1 as int, nu as nat) == Some(
                    (out@ + rest, end),
                ),
                Option::None => dec_key_seq(bytes@, p1 as int, nu as nat) is None,
            },
        decreases nu - i,
    {
        let (k, p2) = match read_u64(bytes, p) {
            Option::Some(v) => v,
            Option::None => {
                return None;
            },
        };
        if k > usize::MAX as u64 {
            return None;
        }
        let ghost outp = out@;
        out.push(k as usize);
        proof {
            assert(out@ =~= outp.push(k as usize));
            if let Option::Some((rest_next, end)) = dec_key_seq(
                bytes@,
                p2 as int,
                (nu - i - 1) as nat,
            ) {
                assert(outp + (seq![k as usize] + rest_next) =~= out@ + rest_next);
            }
        }
        p = p2;
        i = i + 1;
    }
    proof {
        assert(dec_key_seq(bytes@, p as int, 0) == Some((Seq::<usize>::empty(), p as int)));
        assert(out@ + Seq::<usize>::empty() =~= out@);
    }
    Some((out, p))
}

/// Reads one plan, as `dec_plan` prescribes.
#[verifier::loop_isolation(false)]
#[verifier::rlimit(60)]
pub fn read_plan<V: Datum>(bytes: &Vec<u8>, pos: usize) -> (r: Option<(Plan<V>, usize)>)
    ensures
        match r {
            Option::Some((p, end)) => dec_plan::<V>(bytes@, pos as int) == Some(
                (plan_view(p), end as int),
            ) && pos < end <= bytes@.len(),
            Option::None => dec_plan::<V>(bytes@, pos as int) is None,
        },
    decreases bytes@.len() - pos,
{
    let len: usize = bytes.len();
    if pos >= len {
        return None;
    }
    let tag: u8 = bytes[pos];
    if tag == 0 {
        match read_str(bytes, pos + 1) {
            Option::Some((nm, e)) => Some((Plan::Read { name: nm }, e)),
            Option::None => None,
        }
    } else if tag == 1 {
        let (p1, e1) = match read_plan::<V>(bytes, pos + 1) {
            Option::Some(v) => v,
            Option::None => {
                return None;
            },
        };
        let (es, e2) = match read_exprs::<V>(bytes, e1) {
            Option::Some(v) => v,
            Option::None => {
                return None;
            },
        };
        Some((Plan::Derive { input: Box::new(p1), exprs: es }, e2))
    } else if tag == 2 {
        let (p1, e1) = match read_plan::<V>(bytes, pos + 1) {
            Option::Some(v) => v,
            Option::None => {
                return None;
            },
        };
        let (p2, e2) = match read_plan::<V>(bytes, e1) {
            Option::Some(v) => v,
            Option::None => {
                return None;
            },
        };
        let (lk, e3) = match read_exprs::<V>(bytes, e2) {
            Option::Some(v) => v,
            Option::None => {
                return None;
            },
        };
        let (rk, e4) = match read_exprs::<V>(bytes, e3) {
            Option::Some(v) => v,
            Option::None => {
                return None;
            },
        };
        Some(
            (
                Plan::Join {
                    left: Box::new(p1),
                    right: Box::new(p2),
                    left_key: lk,
                    right_key: rk,
                },
                e4,
            ),
        )
    } else if tag == 3 {
        let (p1, e1) = match read_plan::<V>(bytes, pos + 1) {
            Option::Some(v) => v,
            Option::None => {
                return None;
            },
        };
        let (p2, e2) = match read_plan::<V>(bytes, e1) {
            Option::Some(v) => v,
            Option::None => {
                return None;
            },
        };
        Some((Plan::Union { left: Box::new(p1), right: Box::new(p2) }, e2))
    } else if tag == 4 {
        let (p1, e1) = match read_plan::<V>(bytes, pos + 1) {
            Option::Some(v) => v,
            Option::None => {
                return None;
            },
        };
        let (p2, e2) = match read_plan::<V>(bytes, e1) {
            Option::Some(v) => v,
            Option::None => {
                return None;
            },
        };
        Some((Plan::Difference { left: Box::new(p1), right: Box::new(p2) }, e2))
    } else if tag == 5 {
        let (nm, e1) = match read_str(bytes, pos + 1) {
            Option::Some(v) => v,
            Option::None => {
                return None;
            },
        };
        let (ar, e2) = match read_u64(bytes, e1) {
            Option::Some(v) => v,
            Option::None => {
                return None;
            },
        };
        if ar > usize::MAX as u64 {
            return None;
        }
        let (p1, e3) = match read_plan::<V>(bytes, e2) {
            Option::Some(v) => v,
            Option::None => {
                return None;
            },
        };
        Some((Plan::Fix { name: nm, arity: ar as usize, body: Box::new(p1) }, e3))
    } else {
        None
    }
}

/// Reads one rule, as `dec_rule` prescribes.
pub fn read_rule<V: Datum>(bytes: &Vec<u8>, pos: usize) -> (r: Option<(Rule<V>, usize)>)
    ensures
        match r {
            Option::Some((rl, end)) => dec_rule::<V>(bytes@, pos as int) == Some(
                (rule_view(rl), end as int),
            ) && pos < end <= bytes@.len(),
            Option::None => dec_rule::<V>(bytes@, pos as int) is None,
        },
{
    let (nm, e1) = match read_str(bytes, pos) {
        Option::Some(v) => v,
        Option::None => {
            return None;
        },
    };
    let (p, e2) = match read_plan::<V>(bytes, e1) {
        Option::Some(v) => v,
        Option::None => {
            return None;
        },
    };
    Some((Rule { name: nm, plan: p }, e2))
}

/// Reads one query, as `dec_query` prescribes.
#[verifier::loop_isolation(false)]
#[verifier::rlimit(60)]
pub fn read_query<V: Datum>(bytes: &Vec<u8>, pos: usize) -> (r: Option<(Query<V>, usize)>)
    ensures
        match r {
            Option::Some((q, end)) => dec_query::<V>(bytes@, pos as int) == Some(
                (query_view(q), end as int),
            ) && pos < end <= bytes@.len(),
            Option::None => dec_query::<V>(bytes@, pos as int) is None,
        },
{
    let (nr, p1) = match read_u64(bytes, pos) {
        Option::Some(v) => v,
        Option::None => {
            return None;
        },
    };
    if nr > usize::MAX as u64 {
        return None;
    }
    let nru = nr as usize;
    let mut rules: Vec<Rule<V>> = Vec::new();
    let mut p: usize = p1;
    let mut i: usize = 0;
    proof {
        assert(rules@.map(|k: int, rr: Rule<V>| rule_view(rr)) =~= Seq::<
            RuleSpec<V::Expression>,
        >::empty());
    }
    while i < nru
        invariant
            i <= nru,
            rules@.len() == i,
            pos < p <= bytes@.len(),
            match dec_rule_seq::<V>(bytes@, p as int, (nru - i) as nat) {
                Option::Some((rest, end)) => dec_rule_seq::<V>(bytes@, p1 as int, nru as nat)
                    == Some((rules@.map(|k: int, rr: Rule<V>| rule_view(rr)) + rest, end)),
                Option::None => dec_rule_seq::<V>(bytes@, p1 as int, nru as nat) is None,
            },
        decreases nru - i,
    {
        let (rl, p2) = match read_rule::<V>(bytes, p) {
            Option::Some(v) => v,
            Option::None => {
                return None;
            },
        };
        let ghost rulesp = rules@;
        rules.push(rl);
        proof {
            let f = |k: int, rr: Rule<V>| rule_view(rr);
            assert(rules@.map(f) =~= rulesp.map(f).push(rule_view(rules@.last())));
            if let Option::Some((rest_next, end)) = dec_rule_seq::<V>(
                bytes@,
                p2 as int,
                (nru - i - 1) as nat,
            ) {
                assert(rulesp.map(f) + (seq![rule_view(rules@.last())] + rest_next) =~= rules@.map(
                    f,
                ) + rest_next);
            }
        }
        p = p2;
        i = i + 1;
    }
    proof {
        let f = |k: int, rr: Rule<V>| rule_view(rr);
        assert(dec_rule_seq::<V>(bytes@, p as int, 0) == Some((Seq::<RuleSpec<V::Expression>>::empty(), p as int)));
        assert(rules@.map(f) + Seq::<RuleSpec<V::Expression>>::empty() =~= rules@.map(f));
    }
    let (imports, p4) = match read_ports::<V>(bytes, p) {
        Option::Some(v) => v,
        Option::None => {
            return None;
        },
    };
    let (publish, p6) = match read_ports::<V>(bytes, p4) {
        Option::Some(v) => v,
        Option::None => {
            return None;
        },
    };
    let q = Query { rules, imports, publish };
    proof {
        assert(query_view(q).rules =~= q.rules@.map(|k: int, rr: Rule<V>| rule_view(rr)));
        assert(query_view(q).imports =~= q.imports@.map(
            |k: int, pp: (Plan<V>, Vec<usize>)| (plan_view(pp.0), pp.1@),
        ));
        assert(query_view(q).publish =~= q.publish@.map(
            |k: int, pp: (Plan<V>, Vec<usize>)| (plan_view(pp.0), pp.1@),
        ));
    }
    Some((q, p6))
}

/// Reads one counted import or publish list.
#[verifier::loop_isolation(false)]
#[verifier::rlimit(60)]
pub fn read_ports<V: Datum>(bytes: &Vec<u8>, pos: usize) -> (r: Option<
    (Vec<(Plan<V>, Vec<usize>)>, usize),
>)
    ensures
        match r {
            Option::Some((ps, end)) => (match dec_u64(bytes@, pos as int) {
                Option::Some((n, p1)) => n <= usize::MAX as u64 && dec_port_seq::<V>(
                    bytes@,
                    p1,
                    n as nat,
                ) == Some(
                    (
                        ps@.map(|k: int, pp: (Plan<V>, Vec<usize>)| (plan_view(pp.0), pp.1@)),
                        end as int,
                    ),
                ),
                Option::None => false,
            }) && pos < end <= bytes@.len(),
            Option::None => (match dec_u64(bytes@, pos as int) {
                Option::Some((n, p1)) => n > usize::MAX as u64 || dec_port_seq::<V>(
                    bytes@,
                    p1,
                    n as nat,
                ) is None,
                Option::None => true,
            }),
        },
{
    let (n, p1) = match read_u64(bytes, pos) {
        Option::Some(v) => v,
        Option::None => {
            return None;
        },
    };
    if n > usize::MAX as u64 {
        return None;
    }
    let nu = n as usize;
    let mut out: Vec<(Plan<V>, Vec<usize>)> = Vec::new();
    let mut p: usize = p1;
    let mut i: usize = 0;
    proof {
        assert(out@.map(|k: int, pp: (Plan<V>, Vec<usize>)| (plan_view(pp.0), pp.1@)) =~= Seq::<
            (PlanSpec<V::Expression>, Seq<usize>),
        >::empty());
    }
    while i < nu
        invariant
            i <= nu,
            out@.len() == i,
            pos < p <= bytes@.len(),
            match dec_port_seq::<V>(bytes@, p as int, (nu - i) as nat) {
                Option::Some((rest, end)) => dec_port_seq::<V>(bytes@, p1 as int, nu as nat)
                    == Some(
                    (
                        out@.map(|k: int, pp: (Plan<V>, Vec<usize>)| (plan_view(pp.0), pp.1@))
                            + rest,
                        end,
                    ),
                ),
                Option::None => dec_port_seq::<V>(bytes@, p1 as int, nu as nat) is None,
            },
        decreases nu - i,
    {
        let (pl, p2) = match read_plan::<V>(bytes, p) {
            Option::Some(v) => v,
            Option::None => {
                return None;
            },
        };
        let (ks, p3) = match read_keys(bytes, p2) {
            Option::Some(v) => v,
            Option::None => {
                return None;
            },
        };
        let ghost outp = out@;
        out.push((pl, ks));
        proof {
            let f = |k: int, pp: (Plan<V>, Vec<usize>)| (plan_view(pp.0), pp.1@);
            assert(out@.map(f) =~= outp.map(f).push((plan_view(out@.last().0), out@.last().1@)));
            if let Option::Some((rest_next, end)) = dec_port_seq::<V>(
                bytes@,
                p3 as int,
                (nu - i - 1) as nat,
            ) {
                assert(outp.map(f) + (seq![(plan_view(out@.last().0), out@.last().1@)] + rest_next)
                    =~= out@.map(f) + rest_next);
            }
        }
        p = p3;
        i = i + 1;
    }
    proof {
        let f = |k: int, pp: (Plan<V>, Vec<usize>)| (plan_view(pp.0), pp.1@);
        assert(dec_port_seq::<V>(bytes@, p as int, 0) == Some((Seq::<(PlanSpec<V::Expression>, Seq<usize>)>::empty(), p as int)));
        assert(out@.map(f) + Seq::<(PlanSpec<V::Expression>, Seq<usize>)>::empty() =~= out@.map(f));
    }
    Some((out, p))
}

impl<V: Datum> Command<V> {
    /// Deserializes a command from its wire form, accepting exactly the
    /// payloads that one command's encoding fills completely.
    pub fn decode(bytes: &Vec<u8>) -> (r: Result<Command<V>, Error>)
        ensures
            match r {
                Result::Ok(c) => dec_command::<V>(bytes@, 0) == Some(
                    (command_view(c), bytes@.len() as int),
                ),
                Result::Err(e) => e == Error::Serialization && (match dec_command::<V>(bytes@, 0) {
                    Option::Some((c, end)) => end != bytes@.len(),
                    Option::None => true,
                }),
            },
    {
        let len: usize = bytes.len();
        if len == 0 || bytes[0] != 0 {
            return Err(Error::Serialization);
        }
        let (q, e) = match read_query::<V>(bytes, 1) {
            Option::Some(v) => v,
            Option::None => {
                return Err(Error::Serialization);
            },
        };
        if e != len {
            return Err(Error::Serialization);
        }
        Ok(Command::Query(q))
    }
}

/// Whether a plan's content fits the machine: every name's byte form and
/// every expression list is machine-representable.
pub open spec fn wf_plan<V: Datum>(p: PlanSpec<V::Expression>) -> bool
    decreases p,
{
    match p {
        PlanSpec::Read { name } => encode_utf8(name).len() <= usize::MAX,
        PlanSpec::Derive { input, exprs } => wf_plan::<V>(*input) && exprs.len() <= usize::MAX,
        PlanSpec::Join { left, right, left_key, right_key } => wf_plan::<V>(*left) && wf_plan::<V>(
            *right,
        ) && left_key.len() <= usize::MAX && right_key.len() <= usize::MAX,
        PlanSpec::Union { left, right } => wf_plan::<V>(*left) && wf_plan::<V>(*right),
        PlanSpec::Difference { left, right } => wf_plan::<V>(*left) && wf_plan::<V>(*right),
        PlanSpec::Fix { name, arity, body } => encode_utf8(name).len() <= usize::MAX && wf_plan::<
            V,
        >(*body),
    }
}

/// Whether a query's content fits the machine.
pub open spec fn wf_query<V: Datum>(q: QuerySpec<V::Expression>) -> bool {
    &&& q.rules.len() <= usize::MAX
    &&& q.imports.len() <= usize::MAX
    &&& q.publish.len() <= usize::MAX
    &&& forall|i: int|
        0 <= i < q.rules.len() ==> encode_utf8((#[trigger] q.rules[i]).name).len() <= usize::MAX
            && wf_plan::<V>(q.rules[i].plan)
    &&& forall|i: int|
        0 <= i < q.imports.len() ==> wf_plan::<V>((#[trigger] q.imports[i]).0) && q.imports[
            i].1.len() <= usize::MAX
    &&& forall|i: int|
        0 <= i < q.publish.len() ==> wf_plan::<V>((#[trigger] q.publish[i]).0) && q.publish[
            i].1.len() <= usize::MAX
}

/// Whether a command's content fits the machine.
pub open spec fn wf_command<V: Datum>(c: CommandSpec<V::Expression>) -> bool {
    match c {
        CommandSpec::Query(q) => wf_query::<V>(q),
    }
}

/// A prefix of bytes equal to a concatenation splits into the two parts.
pub proof fn lemma_split_at(b: Seq<u8>, pos: int, s1: Seq<u8>, s2: Seq<u8>)
    requires
        0 <= pos,
        pos + s1.len() + s2.len() <= b.len(),
        b.subrange(pos, pos + s1.len() + s2.len()) == s1 + s2,
    ensures
        b.subrange(pos, pos + s1.len() as int) == s1,
        b.subrange(pos + s1.len(), pos + s1.len() + s2.len()) == s2,
{
    assert forall|i: int| 0 <= i < s1.len() implies b[pos + i] == s1[i] by {
        assert(b.subrange(pos, pos + s1.len() + s2.len())[i] == b[pos + i]);
        assert((s1 + s2)[i] == s1[i]);
    }
    assert forall|i: int| 0 <= i < s2.len() implies b[pos + s1.len() + i] == s2[i] by {
        assert(b.subrange(pos, pos + s1.len() + s2.len())[s1.len() + i] == b[pos + s1.len() + i]);
        assert((s1 + s2)[s1.len() + i] == s2[i]);
    }
    assert(b.subrange(pos, pos + s1.len() as int) =~= s1);
    assert(b.subrange(pos + s1.len(), pos + s1.len() + s2.len()) =~= s2);
}

/// Decoding eight bytes that encode `x` yields `x`.
pub proof fn lemma_dec_u64_enc(b: Seq<u8>, pos: int, x: u64)
    requires
        0 <= pos,
        pos + 8 <= b.len(),
        b.subrange(pos, pos + 8) == spec_u64_to_le_bytes(x),
    ensures
        dec_u64(b, pos) == Some((x, pos + 8)),
{
    lemma_auto_spec_u64_to_from_le_bytes();
}

/// Decoding the wire form of a machine-representable string yields it.
pub proof fn lemma_dec_str_enc(b: Seq<u8>, pos: int, s: Seq<char>)
    requires
        0 <= pos,
        encode_utf8(s).len() <= usize::MAX,
        pos + enc_str(s).len() <= b.len(),
        b.subrange(pos, pos + enc_str(s).len()) == enc_str(s),
    ensures
        dec_str(b, pos) == Some((s, pos + enc_str(s).len())),
{
    lemma_auto_spec_u64_to_from_le_bytes();
    let u = encode_utf8(s);
    let lenb = spec_u64_to_le_bytes(u.len() as u64);
    lemma_split_at(b, pos, lenb, u);
    lemma_dec_u64_enc(b, pos, u.len() as u64);
    encode_utf8_valid_utf8(s);
    encode_utf8_decode_utf8(s);
}

/// The wire form of an expression list has eight bytes per element.
pub proof fn lemma_enc_expr_seq_len<V: Datum>(es: Seq<V::Expression>)
    ensures
        enc_expr_seq::<V>(es).len() == 8 * es.len(),
    decreases es.len(),
{
    if es.len() > 0 {
        V::lemma_expr_enc_len(es[0]);
        lemma_enc_expr_seq_len::<V>(es.drop_first());
    }
}

/// Decoding the wire form of an expression list yields it.
pub proof fn lemma_dec_expr_seq_enc<V: Datum>(b: Seq<u8>, pos: int, es: Seq<V::Expression>)
    requires
        0 <= pos,
        pos + enc_expr_seq::<V>(es).len() <= b.len(),
        b.subrange(pos, pos + enc_expr_seq::<V>(es).len()) == enc_expr_seq::<V>(es),
    ensures
        dec_expr_seq::<V>(b, pos, es.len()) == Some((es, pos + enc_expr_seq::<V>(es).len())),
    decreases es.len(),
{
    lemma_enc_expr_seq_len::<V>(es);
    if es.len() == 0 {
        assert(dec_expr_seq::<V>(b, pos, 0) == Some((Seq::<V::Expression>::empty(), pos)));
        assert(es =~= Seq::<V::Expression>::empty());
    } else {
        V::lemma_expr_enc_len(es[0]);
        lemma_enc_expr_seq_len::<V>(es.drop_first());
        lemma_split_at(b, pos, V::expr_enc(es[0]), enc_expr_seq::<V>(es.drop_first()));
        V::lemma_expr_dec_enc(es[0]);
        lemma_dec_expr_seq_enc::<V>(b, pos + 8, es.drop_first());
        assert(seq![es[0]] + es.drop_first() =~= es);
    }
}

/// Decoding the wire form of a counted expression list yields it.
pub proof fn lemma_dec_exprs_enc<V: Datum>(b: Seq<u8>, pos: int, es: Seq<V::Expression>)
    requires
        0 <= pos,
        es.len() <= usize::MAX,
        pos + enc_exprs::<V>(es).len() <= b.len(),
        b.subrange(pos, pos + enc_exprs::<V>(es).len()) == enc_exprs::<V>(es),
    ensures
        dec_exprs::<V>(b, pos) == Some((es, pos + enc_exprs::<V>(es).len())),
{
    lemma_auto_spec_u64_to_from_le_bytes();
    lemma_enc_expr_seq_len::<V>(es);
    lemma_split_at(b, pos, spec_u64_to_le_bytes(es.len() as u64), enc_expr_seq::<V>(es));
    lemma_dec_u64_enc(b, pos, es.len() as u64);
    lemma_dec_expr_seq_enc::<V>(b, pos + 8, es);
}

/// The wire form of a key list has eight bytes per element.
pub proof fn lemma_enc_key_seq_len(ks: Seq<usize>)
    ensures
        enc_key_seq(ks).len() == 8 * ks.len(),
    decreases ks.len(),
{
    lemma_auto_spec_u64_to_from_le_bytes();
    if ks.len() > 0 {
        lemma_enc_key_seq_len(ks.drop_first());
    }
}

/// Decoding the wire form of a key list yields it.
pub proof fn lemma_dec_key_seq_enc(b: Seq<u8>, pos: int, ks: Seq<usize>)
    requires
        0 <= pos,
        pos + enc_key_seq(ks).len() <= b.len(),
        b.subrange(pos, pos + enc_key_seq(ks).len()) == enc_key_seq(ks),
    ensures
        dec_key_seq(b, pos, ks.len()) == Some((ks, pos + enc_key_seq(ks).len())),
    decreases ks.len(),
{
    lemma_auto_spec_u64_to_from_le_bytes();
    lemma_enc_key_seq_len(ks);
    if ks.len() == 0 {
        assert(dec_key_seq(b, pos, 0) == Some((Seq::<usize>::empty(), pos)));
        assert(ks =~= Seq::<usize>::empty());
    } else {
        lemma_enc_key_seq_len(ks.drop_first());
        lemma_split_at(b, pos, spec_u64_to_le_bytes(ks[0] as u64), enc_key_seq(ks.drop_first()));
        lemma_dec_u64_enc(b, pos, ks[0] as u64);
        lemma_dec_key_seq_enc(b, pos + 8, ks.drop_first());
        assert(seq![ks[0]] + ks.drop_first() =~= ks);
    }
}

/// Decoding the wire form of a counted key list yields it.
pub proof fn lemma_dec_keys_enc(b: Seq<u8>, pos: int, ks: Seq<usize>)
    requires
        0 <= pos,
        ks.len() <= usize::MAX,
        pos + enc_keys(ks).len() <= b.len(),
        b.subrange(pos, pos + enc_keys(ks).len()) == enc_keys(ks),
    ensures
        dec_keys(b, pos) == Some((ks, pos + enc_keys(ks).len())),
{
    lemma_auto_spec_u64_to_from_le_bytes();
    lemma_enc_key_seq_len(ks);
    lemma_split_at(b, pos, spec_u64_to_le_bytes(ks.len() as u64), enc_key_seq(ks));
    lemma_dec_u64_enc(b, pos, ks.len() as u64);
    lemma_dec_key_seq_enc(b, pos + 8, ks);
}

/// Every plan's wire form starts with its tag byte and is nonempty.
pub proof fn lemma_enc_plan_len<V: Datum>(p: PlanSpec<V::Expression>)
    ensures
        enc_plan::<V>(p).len() >= 1,
{
}

/// Decoding the wire form of a machine-representable plan yields it.
#[verifier::rlimit(100)]
pub proof fn lemma_dec_plan_enc<V: Datum>(b: Seq<u8>, pos: int, p: PlanSpec<V::Expression>)
    requires
        0 <= pos,
        wf_plan::<V>(p),
        pos + enc_plan::<V>(p).len() <= b.len(),
        b.subrange(pos, pos + enc_plan::<V>(p).len()) == enc_plan::<V>(p),
    ensures
        dec_plan::<V>(b, pos) == Some((p, pos + enc_plan::<V>(p).len())),
    decreases p,
{
    lemma_auto_spec_u64_to_from_le_bytes();
    let e = enc_plan::<V>(p);
    assert(b[pos] == e[0]) by {
        assert(b.subrange(pos, pos + e.len() as int)[0] == e[0]);
    }
    match p {
        PlanSpec::Read { name } => {
            assert(e =~= seq![0u8] + enc_str(name));
            lemma_split_at(b, pos, seq![0u8], enc_str(name));
            lemma_dec_str_enc(b, pos + 1, name);
        },
        PlanSpec::Derive { input, exprs } => {
            let e1 = enc_plan::<V>(*input);
            let e2 = enc_exprs::<V>(exprs);
            assert(e =~= seq![1u8] + (e1 + e2));
            lemma_split_at(b, pos, seq![1u8], e1 + e2);
            lemma_split_at(b, pos + 1, e1, e2);
            lemma_dec_plan_enc::<V>(b, pos + 1, *input);
            lemma_dec_exprs_enc::<V>(b, pos + 1 + e1.len(), exprs);
        },
        PlanSpec::Join { left, right, left_key, right_key } => {
            let e1 = enc_plan::<V>(*left);
            let e2 = enc_plan::<V>(*right);
            let e3 = enc_exprs::<V>(left_key);
            let e4 = enc_exprs::<V>(right_key);
            assert(e =~= seq![2u8] + (e1 + (e2 + (e3 + e4))));
            lemma_split_at(b, pos, seq![2u8], e1 + (e2 + (e3 + e4)));
            lemma_split_at(b, pos + 1, e1, e2 + (e3 + e4));
            lemma_split_at(b, pos + 1 + e1.len(), e2, e3 + e4);
            lemma_split_at(b, pos + 1 + e1.len() + e2.len(), e3, e4);
            lemma_dec_plan_enc::<V>(b, pos + 1, *left);
            lemma_enc_plan_len::<V>(*left);
            lemma_dec_plan_enc::<V>(b, pos + 1 + e1.len(), *right);
            lemma_dec_exprs_enc::<V>(b, pos + 1 + e1.len() + e2.len(), left_key);
            lemma_dec_exprs_enc::<V>(b, pos + 1 + e1.len() + e2.len() + e3.len(), right_key);
        },
        PlanSpec::Union { left, right } => {
            let e1 = enc_plan::<V>(*left);
            let e2 = enc_plan::<V>(*right);
            assert(e =~= seq![3u8] + (e1 + e2));
            lemma_split_at(b, pos, seq![3u8], e1 + e2);
            lemma_split_at(b, pos + 1, e1, e2);
            lemma_dec_plan_enc::<V>(b, pos + 1, *left);
            lemma_enc_plan_len::<V>(*left);
            lemma_dec_plan_enc::<V>(b, pos + 1 + e1.len(), *right);
        },
        PlanSpec::Difference { left, right } => {
            let e1 = enc_plan::<V>(*left);
            let e2 = enc_plan::<V>(*right);
            assert(e =~= seq![4u8] + (e1 + e2));
            lemma_split_at(b, pos, seq![4u8], e1 + e2);
            lemma_split_at(b, pos + 1, e1, e2);
            lemma_dec_plan_enc::<V>(b, pos + 1, *left);
            lemma_enc_plan_len::<V>(*left);
            lemma_dec_plan_enc::<V>(b, pos + 1 + e1.len(), *right);
        },
        PlanSpec::Fix { name, arity, body } => {
            let e1 = enc_str(name);
            let e2 = spec_u64_to_le_bytes(arity as u64);
            let e3 = enc_plan::<V>(*body);
            assert(e =~= seq![5u8] + (e1 + (e2 + e3)));
            lemma_split_at(b, pos, seq![5u8], e1 + (e2 + e3));
            lemma_split_at(b, pos + 1, e1, e2 + e3);
            lemma_split_at(b, pos + 1 + e1.len(), e2, e3);
            lemma_dec_str_enc(b, pos + 1, name);
            lemma_dec_u64_enc(b, pos + 1 + e1.len(), arity as u64);
            lemma_dec_plan_enc::<V>(b, pos + 1 + e1.len() + 8, *body);
        },
    }
}

/// Decoding the wire form of a rule yields it.
pub proof fn lemma_dec_rule_enc<V: Datum>(b: Seq<u8>, pos: int, r: RuleSpec<V::Expression>)
    requires
        0 <= pos,
        encode_utf8(r.name).len() <= usize::MAX,
        wf_plan::<V>(r.plan),
        pos + enc_rule::<V>(r).len() <= b.len(),
        b.subrange(pos, pos + enc_rule::<V>(r).len()) == enc_rule::<V>(r),
    ensures
        dec_rule::<V>(b, pos) == Some((r, pos + enc_rule::<V>(r).len())),
{
    lemma_split_at(b, pos, enc_str(r.name), enc_plan::<V>(r.plan));
    lemma_dec_str_enc(b, pos, r.name);
    lemma_dec_plan_enc::<V>(b, pos + enc_str(r.name).len(), r.plan);
}

/// Decoding the wire form of a rule list yields it.
pub proof fn lemma_dec_rule_seq_enc<V: Datum>(b: Seq<u8>, pos: int, rs: Seq<RuleSpec<V::Expression>>)
    requires
        0 <= pos,
        forall|i: int|
            0 <= i < rs.len() ==> encode_utf8((#[trigger] rs[i]).name).len() <= usize::MAX
                && wf_plan::<V>(rs[i].plan),
        pos + enc_rule_seq::<V>(rs).len() <= b.len(),
        b.subrange(pos, pos + enc_rule_seq::<V>(rs).len()) == enc_rule_seq::<V>(rs),
    ensures
        dec_rule_seq::<V>(b, pos, rs.len()) == Some((rs, pos + enc_rule_seq::<V>(rs).len())),
    decreases rs.len(),
{
    if rs.len() == 0 {
        assert(rs =~= Seq::<RuleSpec<V::Expression>>::empty());
    } else {
        lemma_split_at(b, pos, enc_rule::<V>(rs[0]), enc_rule_seq::<V>(rs.drop_first()));
        lemma_dec_rule_enc::<V>(b, pos, rs[0]);
        assert(forall|i: int|
            0 <= i < rs.drop_first().len() ==> rs.drop_first()[i] == rs[i + 1]);
        lemma_dec_rule_seq_enc::<V>(b, pos + enc_rule::<V>(rs[0]).len(), rs.drop_first());
        assert(seq![rs[0]] + rs.drop_first() =~= rs);
    }
}

/// Decoding the wire form of an import or publish list yields it.
pub proof fn lemma_dec_port_seq_enc<V: Datum>(
    b: Seq<u8>,
    pos: int,
    ps: Seq<(PlanSpec<V::Expression>, Seq<usize>)>,
)
    requires
        0 <= pos,
        forall|i: int|
            0 <= i < ps.len() ==> wf_plan::<V>((#[trigger] ps[i]).0) && ps[i].1.len()
                <= usize::MAX,
        pos + enc_port_seq::<V>(ps).len() <= b.len(),
        b.subrange(pos, pos + enc_port_seq::<V>(ps).len()) == enc_port_seq::<V>(ps),
    ensures
        dec_port_seq::<V>(b, pos, ps.len()) == Some((ps, pos + enc_port_seq::<V>(ps).len())),
    decreases ps.len(),
{
    if ps.len() == 0 {
        assert(ps =~= Seq::<(PlanSpec<V::Expression>, Seq<usize>)>::empty());
    } else {
        let e1 = enc_plan::<V>(ps[0].0);
        let e2 = enc_keys(ps[0].1);
        let rest = enc_port_seq::<V>(ps.drop_first());
        assert(enc_port_seq::<V>(ps) =~= e1 + (e2 + rest));
        lemma_split_at(b, pos, e1, e2 + rest);
        lemma_split_at(b, pos + e1.len(), e2, rest);
        lemma_dec_plan_enc::<V>(b, pos, ps[0].0);
        lemma_dec_keys_enc(b, pos + e1.len(), ps[0].1);
        assert(forall|i: int|
            0 <= i < ps.drop_first().len() ==> ps.drop_first()[i] == ps[i + 1]);
        lemma_dec_port_seq_enc::<V>(b, pos + e1.len() + e2.len(), ps.drop_first());
        assert(seq![(ps[0].0, ps[0].1)] + ps.drop_first() =~= ps);
        assert((ps[0].0, ps[0].1) == ps[0]);
    }
}

/// Decoding the wire form of a machine-representable query yields it.
#[verifier::rlimit(100)]
pub proof fn lemma_dec_query_enc<V: Datum>(b: Seq<u8>, pos: int, q: QuerySpec<V::Expression>)
    requires
        0 <= pos,
        wf_query::<V>(q),
        pos + enc_query::<V>(q).len() <= b.len(),
        b.subrange(pos, pos + enc_query::<V>(q).len()) == enc_query::<V>(q),
    ensures
        dec_query::<V>(b, pos) == Some((q, pos + enc_query::<V>(q).len())),
{
    lemma_auto_spec_u64_to_from_le_bytes();
    let c1 = spec_u64_to_le_bytes(q.rules.len() as u64);
    let r1 = enc_rule_seq::<V>(q.rules);
    let c2 = spec_u64_to_le_bytes(q.imports.len() as u64);
    let r2 = enc_port_seq::<V>(q.imports);
    let c3 = spec_u64_to_le_bytes(q.publish.len() as u64);
    let r3 = enc_port_seq::<V>(q.publish);
    assert(enc_query::<V>(q) =~= c1 + (r1 + (c2 + (r2 + (c3 + r3)))));
    lemma_split_at(b, pos, c1, r1 + (c2 + (r2 + (c3 + r3))));
    lemma_split_at(b, pos + 8, r1, c2 + (r2 + (c3 + r3)));
    lemma_split_at(b, pos + 8 + r1.len(), c2, r2 + (c3 + r3));
    lemma_split_at(b, pos + 8 + r1.len() + 8, r2, c3 + r3);
    lemma_split_at(b, pos + 8 + r1.len() + 8 + r2.len(), c3, r3);
    lemma_dec_u64_enc(b, pos, q.rules.len() as u64);
    lemma_dec_rule_seq_enc::<V>(b, pos + 8, q.rules);
    lemma_dec_u64_enc(b, pos + 8 + r1.len(), q.imports.len() as u64);
    lemma_dec_port_seq_enc::<V>(b, pos + 8 + r1.len() + 8, q.imports);
    lemma_dec_u64_enc(b, pos + 8 + r1.len() + 8 + r2.len(), q.publish.len() as u64);
    lemma_dec_port_seq_enc::<V>(b, pos + 8 + r1.len() + 8 + r2.len() + 8, q.publish);
}

/// Wire round trip: decoding the encoding of any machine-representable
/// command yields exactly that command, consuming exactly its bytes;
/// equality and hashing of the decoded value therefore agree with the
/// original's.
pub proof fn lemma_codec_round_trip<V: Datum>(c: CommandSpec<V::Expression>)
    requires
        wf_command::<V>(c),
    ensures
        dec_command::<V>(enc_command::<V>(c), 0) == Some(
            (c, enc_command::<V>(c).len() as int),
        ),
{
    let b = enc_command::<V>(c);
    match c {
        CommandSpec::Query(q) => {
            assert(b =~= seq![0u8] + enc_query::<V>(q));
            assert(b.subrange(0, b.len() as int) =~= b);
            lemma_split_at(b, 0, seq![0u8], enc_query::<V>(q));
            assert(b[0] == 0u8);
            lemma_dec_query_enc::<V>(b, 1, q);
        },
    }
}
} // verus!
