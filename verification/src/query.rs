//! Queries and rules: the unit a client submits for installation.

use vstd::prelude::*;
use crate::Datum;
use crate::plan::Plan;
use crate::command::Command;

verus! {

/// Definition of a single collection: a named plan. Within one query the
/// name must be unique, and later rules may read it for recursion.
pub struct Rule<V: Datum> {
    /// Name of the rule.
    pub name: String,
    /// Plan describing contents of the rule.
    pub plan: Plan<V>,
}

/// Multiple related collection definitions, together with the arrangements
/// the bundle imports from the running engine and those it publishes back.
/// Insertion order of every list is preserved.
pub struct Query<V: Datum> {
    /// A list of bindings of names to plans.
    pub rules: Vec<Rule<V>>,
    /// A list of arrangements to import, each with its key columns.
    pub imports: Vec<(Plan<V>, Vec<usize>)>,
    /// A list of arrangements to publish, each with its key columns.
    pub publish: Vec<(Plan<V>, Vec<usize>)>,
}

impl<V: Datum> Query<V> {
    /// Creates a new, empty query.
    pub fn new() -> (q: Self)
        ensures
            q.rules@.len() == 0,
            q.imports@.len() == 0,
            q.publish@.len() == 0,
    {
        Query { rules: Vec::new(), imports: Vec::new(), publish: Vec::new() }
    }

    /// Adds a rule to an existing query, appending it after the rules
    /// already present and leaving imports and publishes alone.
    pub fn add_rule(self, rule: Rule<V>) -> (q: Self)
        ensures
            q.rules@ == self.rules@.push(rule),
            q.imports@ == self.imports@,
            q.publish@ == self.publish@,
    {
        let mut next = self;
        next.rules.push(rule);
        next
    }

    /// Adds an external arrangement to import, appending it in call order.
    pub fn add_import(self, plan: Plan<V>, keys: Vec<usize>) -> (q: Self)
        ensures
            q.imports@ == self.imports@.push((plan, keys)),
            q.rules@ == self.rules@,
            q.publish@ == self.publish@,
    {
        let mut next = self;
        next.imports.push((plan, keys));
        next
    }

    /// Adds an internal result to publish, appending it in call order.
    pub fn add_publish(self, plan: Plan<V>, keys: Vec<usize>) -> (q: Self)
        ensures
            q.publish@ == self.publish@.push((plan, keys)),
            q.rules@ == self.rules@,
            q.imports@ == self.imports@,
    {
        let mut next = self;
        next.publish.push((plan, keys));
        next
    }

    /// Converts the query into a command.
    pub fn into_command(self) -> (c: Command<V>)
        ensures
            c == Command::Query(self),
    {
        Command::Query(self)
    }
}

impl<V: Datum> Rule<V> {
    /// Converts the rule into a singleton query: one rule, no imports,
    /// no publishes.
    pub fn into_query(self) -> (q: Query<V>)
        ensures
            q.rules@.len() == 1,
            q.rules@[0] == self,
            q.imports@.len() == 0,
            q.publish@.len() == 0,
    {
        Query::new().add_rule(self)
    }
}

} // verus!
