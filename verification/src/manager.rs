//! Process-wide registries: named raw inputs and named, reference-counted
//! arrangements shared across installed queries.

use vstd::prelude::*;
use crate::{Datum, Diff, Error, Time};
use crate::plan::{clone_string, string_eq};
use crate::eval::{Collection, col_view, mult, clone_tuple, lemma_mult_concat};

verus! {

/// One named input's accepted updates, in arrival order.
pub struct InputSession<V: Datum> {
    /// The width of every accepted tuple.
    pub arity: usize,
    /// Accepted updates: tuple, visibility time, diff.
    pub updates: Vec<(Vec<V>, Time, Diff)>,
}

/// The part of an update sequence visible at `t`: the entries whose time
/// is at or before `t`, kept in order.
pub open spec fn visible_at<V: Datum>(ups: Seq<(Vec<V>, Time, Diff)>, t: Time) -> Seq<
    (Seq<V>, int),
>
    decreases ups.len(),
{
    if ups.len() == 0 {
        Seq::empty()
    } else {
        (if ups[0].1.le_spec(t) {
            seq![(ups[0].0@, ups[0].2 as int)]
        } else {
            Seq::empty()
        }) + visible_at(ups.drop_first(), t)
    }
}

/// Visibility distributes over concatenation of update sequences.
pub proof fn lemma_visible_at_concat<V: Datum>(
    a: Seq<(Vec<V>, Time, Diff)>,
    b: Seq<(Vec<V>, Time, Diff)>,
    t: Time,
)
    ensures
        visible_at(a + b, t) == visible_at(a, t) + visible_at(b, t),
    decreases a.len(),
{
    if a.len() == 0 {
        assert(a + b =~= b);
        assert(visible_at(a, t) + visible_at(b, t) =~= visible_at(b, t));
    } else {
        lemma_visible_at_concat(a.drop_first(), b, t);
        assert((a + b).drop_first() =~= a.drop_first() + b);
        assert((if a[0].1.le_spec(t) {
            seq![(a[0].0@, a[0].2 as int)]
        } else {
            Seq::<(Seq<V>, int)>::empty()
        }) + (visible_at(a.drop_first(), t) + visible_at(b, t)) =~= ((if a[0].1.le_spec(t) {
            seq![(a[0].0@, a[0].2 as int)]
        } else {
            Seq::<(Seq<V>, int)>::empty()
        }) + visible_at(a.drop_first(), t)) + visible_at(b, t));
        assert((a + b)[0] == a[0]);
    }
}

/// Incremental cancellation: inserting a tuple at `t0` and retracting it
/// at a later `t1` leaves its net multiplicity at any time from `t1` on
/// exactly as it was before the insertion.
pub proof fn lemma_diff_cancellation<V: Datum>(
    ups: Seq<(Vec<V>, Time, Diff)>,
    tu: Vec<V>,
    t0: Time,
    t1: Time,
    at: Time,
)
    requires
        t0.le_spec(t1),
        t1.le_spec(at),
    ensures
        mult(visible_at(ups.push((tu, t0, 1isize)).push((tu, t1, -1isize)), at), tu@) == mult(
            visible_at(ups, at),
            tu@,
        ),
{
    let two = seq![(tu, t0, 1isize), (tu, t1, -1isize)];
    let one = seq![(tu, t1, -1isize)];
    let nothing = Seq::<(Vec<V>, Time, Diff)>::empty();
    assert(ups.push((tu, t0, 1isize)).push((tu, t1, -1isize)) =~= ups + two);
    lemma_visible_at_concat(ups, two, at);
    lemma_mult_concat(visible_at(ups, at), visible_at(two, at), tu@);
    assert(t0.le_spec(at));
    assert(one.drop_first() =~= nothing);
    assert(visible_at(nothing, at) =~= Seq::<(Seq<V>, int)>::empty());
    assert(visible_at(one, at) =~= seq![(tu@, -1int)]);
    assert(two.drop_first() =~= one);
    assert(visible_at(two, at) =~= seq![(tu@, 1int)] + visible_at(one, at));
    assert(visible_at(two, at) =~= seq![(tu@, 1int), (tu@, -1int)]);
    assert(seq![(tu@, 1int), (tu@, -1int)].drop_first() =~= seq![(tu@, -1int)]);
    assert(seq![(tu@, -1int)].drop_first() =~= Seq::<(Seq<V>, int)>::empty());
    assert(mult(Seq::<(Seq<V>, int)>::empty(), tu@) == 0);
    assert(mult(seq![(tu@, -1int)], tu@) == -1);
    assert(seq![(tu@, 1int), (tu@, -1int)][0] == (tu@, 1int));
    assert(mult(seq![(tu@, 1int), (tu@, -1int)], tu@) == 0);
    assert(mult(visible_at(two, at), tu@) == 0);
}

/// The first index holding `name` among input entries.
pub open spec fn input_idx<V: Datum>(s: Seq<(String, InputSession<V>)>, name: Seq<char>) -> Option<
    int,
>
    decreases s.len(),
{
    if s.len() == 0 {
        None
    } else if s[0].0@ == name {
        Some(0)
    } else {
        match input_idx(s.drop_first(), name) {
            Option::Some(i) => Some(i + 1),
            Option::None => None,
        }
    }
}

/// A found input index lies in range and holds the name.
pub proof fn lemma_input_idx<V: Datum>(s: Seq<(String, InputSession<V>)>, name: Seq<char>)
    ensures
        match input_idx(s, name) {
            Option::Some(i) => 0 <= i < s.len() && s[i].0@ == name,
            Option::None => forall|j: int| 0 <= j < s.len() ==> s[j].0@ != name,
        },
    decreases s.len(),
{
    if s.len() > 0 {
        lemma_input_idx(s.drop_first(), name);
        assert(forall|j: int| 1 <= j < s.len() ==> s[j] == s.drop_first()[j - 1]);
    }
}

impl<V: Datum> InputSession<V> {
    /// Materializes the collection this session presents at `time`: its
    /// updates visible by then, in order.
    pub fn snapshot_at(&self, time: &Time) -> (c: Collection<V>)
        ensures
            col_view(c@) == visible_at(self.updates@, *time),
    {
        let ups = &self.updates;
        let mut out: Collection<V> = Vec::new();
        let mut k: usize = 0;
        proof {
            assert(col_view(out@) =~= visible_at(ups@.take(0), *time));
        }
        while k < ups.len()
            invariant
                k <= ups@.len(),
                col_view(out@) == visible_at(ups@.take(k as int), *time),
            decreases ups@.len() - k,
        {
            proof {
                assert(ups@.take(k as int + 1) =~= ups@.take(k as int) + seq![ups@[k as int]]);
                lemma_visible_at_concat(ups@.take(k as int), seq![ups@[k as int]], *time);
                assert(seq![ups@[k as int]].drop_first() =~= Seq::<(Vec<V>, Time, Diff)>::empty());
                assert(visible_at(Seq::<(Vec<V>, Time, Diff)>::empty(), *time) =~= Seq::<
                    (Seq<V>, int),
                >::empty());
                assert(seq![ups@[k as int]][0] == ups@[k as int]);
            }
            let ghost outp = out@;
            if ups[k].1.le(time) {
                let t = clone_tuple(&ups[k].0);
                out.push((t, ups[k].2));
                proof {
                    assert(out@.drop_last() =~= outp);
                    assert(col_view(out@) =~= col_view(outp) + seq![
                        (ups@[k as int].0@, ups@[k as int].2 as int),
                    ]);
                }
            } else {
                proof {
                    assert(col_view(out@) + Seq::<(Seq<V>, int)>::empty() =~= col_view(out@));
                }
            }
            k = k + 1;
        }
        proof {
            assert(ups@.take(ups@.len() as int) =~= ups@);
        }
        out
    }
}

/// The registry of named raw inputs.
pub struct InputManager<V: Datum> {
    /// The named input sessions, one entry per name.
    pub entries: Vec<(String, InputSession<V>)>,
}

impl<V: Datum> InputManager<V> {
    /// Creates an empty input registry.
    pub fn new() -> (m: Self)
        ensures
            m.entries@.len() == 0,
    {
        InputManager { entries: Vec::new() }
    }

    /// Finds the entry registered under `name`.
    pub fn find(&self, name: &String) -> (r: Option<usize>)
        ensures
            match r {
                Option::Some(i) => input_idx(self.entries@, name@) == Some(i as int),
                Option::None => input_idx(self.entries@, name@) is None,
            },
    {
        let mut i: usize = 0;
        while i < self.entries.len()
            invariant
                i <= self.entries@.len(),
                forall|j: int| 0 <= j < i ==> self.entries@[j].0@ != name@,
            decreases self.entries@.len() - i,
        {
            if string_eq(&self.entries[i].0, name) {
                proof {
                    lemma_input_idx_prefix(self.entries@, name@, i as int);
                }
                return Some(i);
            }
            i = i + 1;
        }
        proof {
            lemma_input_idx(self.entries@, name@);
            if let Option::Some(k) = input_idx(self.entries@, name@) {
                assert(self.entries@[k].0@ == name@);
            }
        }
        None
    }

    /// Returns the handle of the input registered under `name`, creating
    /// an empty session of the given arity if the name is new. An existing
    /// entry is never replaced: the first writer wins.
    pub fn get_or_create_input(&mut self, name: &String, arity: usize) -> (h: usize)
        ensures
            input_idx(final(self).entries@, name@) == Some(h as int),
            match input_idx(old(self).entries@, name@) {
                Option::Some(i) => final(self).entries@ == old(self).entries@ && h as int == i,
                Option::None => {
                    &&& final(self).entries@.len() == old(self).entries@.len() + 1
                    &&& final(self).entries@.drop_last() == old(self).entries@
                    &&& h as int == old(self).entries@.len()
                    &&& final(self).entries@.last().0@ == name@
                    &&& final(self).entries@.last().1.arity == arity
                    &&& final(self).entries@.last().1.updates@.len() == 0
                },
            },
    {
        match self.find(name) {
            Option::Some(i) => i,
            Option::None => {
                let h = self.entries.len();
                self.entries.push(
                    (clone_string(name), InputSession { arity, updates: Vec::new() }),
                );
                proof {
                    lemma_input_idx(old(self).entries@, name@);
                    assert(self.entries@.drop_last() =~= old(self).entries@);
                    lemma_input_idx_last(self.entries@, name@);
                }
                h
            },
        }
    }

    /// Accepts one update for the named input: the tuple must exist under
    /// the name and match its arity. On success the update is appended to
    /// that session and every other entry stays untouched.
    pub fn update_input(&mut self, name: &String, tuple: Vec<V>, time: Time, diff: Diff) -> (r:
        Result<(), Error>)
        ensures
            match r {
                Result::Ok(()) => input_idx(old(self).entries@, name@) matches Some(i) && {
                    let s0 = old(self).entries@;
                    let s1 = final(self).entries@;
                    s1.len() == s0.len() && (forall|j: int|
                        0 <= j < s0.len() && j != i ==> s1[j] == s0[j]) && s1[i].0 == s0[i].0
                        && s1[i].1.arity == s0[i].1.arity && s1[i].1.updates@ == s0[
                    i].1.updates@.push((tuple, time, diff)) && tuple@.len() == s0[i].1.arity
                },
                Result::Err(e) => *final(self) == *old(self) && (match input_idx(
                    old(self).entries@,
                    name@,
                ) {
                    Option::None => e == Error::NotFound,
                    Option::Some(i) => e == Error::OutOfRange && tuple@.len() != old(
                        self,
                    ).entries@[i].1.arity,
                }),
            },
    {
        match self.find(name) {
            Option::None => Err(Error::NotFound),
            Option::Some(i) => {
                proof {
                    lemma_input_idx(self.entries@, name@);
                }
                if tuple.len() != self.entries[i].1.arity {
                    return Err(Error::OutOfRange);
                }
                self.entries[i].1.updates.push((tuple, time, diff));
                Ok(())
            },
        }
    }

    /// Materializes the collection the named input presents at `time`:
    /// the updates visible by then.
    pub fn collection_at(&self, name: &String, time: &Time) -> (r: Option<Collection<V>>)
        ensures
            match r {
                Option::Some(c) => input_idx(self.entries@, name@) matches Some(i) && col_view(c@)
                    == visible_at(self.entries@[i].1.updates@, *time),
                Option::None => input_idx(self.entries@, name@) is None,
            },
    {
        let i = match self.find(name) {
            Option::Some(i) => i,
            Option::None => {
                return None;
            },
        };
        proof {
            lemma_input_idx(self.entries@, name@);
        }
        Some(self.entries[i].1.snapshot_at(time))
    }
}

/// If no earlier entry holds the name and entry `i` does, the first index
/// is `i`.
pub proof fn lemma_input_idx_prefix<V: Datum>(
    s: Seq<(String, InputSession<V>)>,
    name: Seq<char>,
    i: int,
)
    requires
        0 <= i < s.len(),
        s[i].0@ == name,
        forall|j: int| 0 <= j < i ==> s[j].0@ != name,
    ensures
        input_idx(s, name) == Some(i),
    decreases i,
{
    if i > 0 {
        assert(forall|j: int| 0 <= j < i - 1 ==> s.drop_first()[j] == s[j + 1]);
        lemma_input_idx_prefix(s.drop_first(), name, i - 1);
    }
}

/// Pushing a new name onto entries free of it makes the last index its
/// first index.
pub proof fn lemma_input_idx_last<V: Datum>(s: Seq<(String, InputSession<V>)>, name: Seq<char>)
    requires
        s.len() > 0,
        s.last().0@ == name,
        forall|j: int| 0 <= j < s.len() - 1 ==> s[j].0@ != name,
    ensures
        input_idx(s, name) == Some(s.len() - 1),
{
    lemma_input_idx_prefix(s, name, s.len() - 1);
}


/// A shared, reference-counted arrangement: an indexed collection kept
/// under a stable name.
pub struct Arrangement<V: Datum> {
    /// The column indices that form the arrangement's key.
    pub keys: Vec<usize>,
    /// The width of every tuple held.
    pub arity: usize,
    /// How many installed queries import or publish this arrangement.
    pub refcount: usize,
    /// The maintained contents.
    pub content: Collection<V>,
}

/// The first index holding `name` among arrangement entries.
pub open spec fn trace_idx<V: Datum>(s: Seq<(String, Arrangement<V>)>, name: Seq<char>) -> Option<
    int,
>
    decreases s.len(),
{
    if s.len() == 0 {
        None
    } else if s[0].0@ == name {
        Some(0)
    } else {
        match trace_idx(s.drop_first(), name) {
            Option::Some(i) => Some(i + 1),
            Option::None => None,
        }
    }
}

/// A found arrangement index lies in range and holds the name.
pub proof fn lemma_trace_idx<V: Datum>(s: Seq<(String, Arrangement<V>)>, name: Seq<char>)
    ensures
        match trace_idx(s, name) {
            Option::Some(i) => 0 <= i < s.len() && s[i].0@ == name,
            Option::None => forall|j: int| 0 <= j < s.len() ==> s[j].0@ != name,
        },
    decreases s.len(),
{
    if s.len() > 0 {
        lemma_trace_idx(s.drop_first(), name);
        assert(forall|j: int| 1 <= j < s.len() ==> s[j] == s.drop_first()[j - 1]);
    }
}

/// If no earlier entry holds the name and entry `i` does, the first index
/// is `i`.
pub proof fn lemma_trace_idx_prefix<V: Datum>(
    s: Seq<(String, Arrangement<V>)>,
    name: Seq<char>,
    i: int,
)
    requires
        0 <= i < s.len(),
        s[i].0@ == name,
        forall|j: int| 0 <= j < i ==> s[j].0@ != name,
    ensures
        trace_idx(s, name) == Some(i),
    decreases i,
{
    if i > 0 {
        assert(forall|j: int| 0 <= j < i - 1 ==> s.drop_first()[j] == s[j + 1]);
        lemma_trace_idx_prefix(s.drop_first(), name, i - 1);
    }
}

/// The registry of named arrangements.
pub struct TraceManager<V: Datum> {
    /// The named arrangements, one entry per name.
    pub entries: Vec<(String, Arrangement<V>)>,
}

impl<V: Datum> TraceManager<V> {
    /// Creates an empty arrangement registry.
    pub fn new() -> (m: Self)
        ensures
            m.entries@.len() == 0,
    {
        TraceManager { entries: Vec::new() }
    }

    /// Finds the handle registered under `name`.
    pub fn get_arrangement(&self, name: &String) -> (r: Option<usize>)
        ensures
            match r {
                Option::Some(i) => trace_idx(self.entries@, name@) == Some(i as int),
                Option::None => trace_idx(self.entries@, name@) is None,
            },
    {
        let mut i: usize = 0;
        while i < self.entries.len()
            invariant
                i <= self.entries@.len(),
                forall|j: int| 0 <= j < i ==> self.entries@[j].0@ != name@,
            decreases self.entries@.len() - i,
        {
            if string_eq(&self.entries[i].0, name) {
                proof {
                    lemma_trace_idx_prefix(self.entries@, name@, i as int);
                }
                return Some(i);
            }
            i = i + 1;
        }
        proof {
            lemma_trace_idx(self.entries@, name@);
            if let Option::Some(k) = trace_idx(self.entries@, name@) {
                assert(self.entries@[k].0@ == name@);
            }
        }
        None
    }

    /// Registers a published collection under `name`, idempotently: if the
    /// name is taken, its existing entry wins, gains one reference, and its
    /// handle is returned; otherwise a new entry starts with one reference.
    pub fn register_publish(
        &mut self,
        name: &String,
        keys: Vec<usize>,
        arity: usize,
        content: Collection<V>,
    ) -> (h: usize)
        ensures
            trace_idx(final(self).entries@, name@) == Some(h as int),
            match trace_idx(old(self).entries@, name@) {
                Option::Some(i) => {
                    let s0 = old(self).entries@;
                    let s1 = final(self).entries@;
                    &&& h as int == i
                    &&& s1.len() == s0.len()
                    &&& (forall|j: int| 0 <= j < s0.len() && j != i ==> s1[j] == s0[j])
                    &&& s1[i].0 == s0[i].0
                    &&& s1[i].1.keys == s0[i].1.keys
                    &&& s1[i].1.arity == s0[i].1.arity
                    &&& s1[i].1.content == s0[i].1.content
                    &&& s1[i].1.refcount == (if s0[i].1.refcount < usize::MAX {
                        s0[i].1.refcount + 1
                    } else {
                        s0[i].1.refcount as int
                    })
                },
                Option::None => {
                    &&& final(self).entries@.len() == old(self).entries@.len() + 1
                    &&& final(self).entries@.drop_last() == old(self).entries@
                    &&& h as int == old(self).entries@.len()
                    &&& final(self).entries@.last().0@ == name@
                    &&& final(self).entries@.last().1.keys@ == keys@
                    &&& final(self).entries@.last().1.arity == arity
                    &&& final(self).entries@.last().1.refcount == 1
                    &&& col_view(final(self).entries@.last().1.content@) == col_view(content@)
                },
            },
    {
        match self.get_arrangement(name) {
            Option::Some(i) => {
                proof {
                    lemma_trace_idx(self.entries@, name@);
                }
                if self.entries[i].1.refcount < usize::MAX {
                    let rc = self.entries[i].1.refcount;
                    self.entries[i].1.refcount = rc + 1;
                }
                proof {
                    lemma_trace_idx_unchanged_names(old(self).entries@, final(self).entries@, name@);
                }
                i
            },
            Option::None => {
                let h = self.entries.len();
                self.entries.push(
                    (clone_string(name), Arrangement { keys, arity, refcount: 1, content }),
                );
                proof {
                    lemma_trace_idx(old(self).entries@, name@);
                    assert(self.entries@.drop_last() =~= old(self).entries@);
                    lemma_trace_idx_prefix(self.entries@, name@, h as int);
                }
                h
            },
        }
    }

    /// Takes one more reference on the arrangement under `name`, for a new
    /// importer; the handle returned is the same one every importer of the
    /// name receives. Nothing changes when the name is absent.
    pub fn import(&mut self, name: &String) -> (r: Option<usize>)
        ensures
            match r {
                Option::Some(h) => {
                    let s0 = old(self).entries@;
                    let s1 = final(self).entries@;
                    &&& trace_idx(s0, name@) == Some(h as int)
                    &&& trace_idx(s1, name@) == Some(h as int)
                    &&& s1.len() == s0.len()
                    &&& (forall|j: int| 0 <= j < s0.len() && j != h as int ==> s1[j] == s0[j])
                    &&& s1[h as int].0 == s0[h as int].0
                    &&& s1[h as int].1.keys == s0[h as int].1.keys
                    &&& s1[h as int].1.arity == s0[h as int].1.arity
                    &&& s1[h as int].1.content == s0[h as int].1.content
                    &&& s1[h as int].1.refcount == (if s0[h as int].1.refcount < usize::MAX {
                        s0[h as int].1.refcount + 1
                    } else {
                        s0[h as int].1.refcount as int
                    })
                },
                Option::None => *final(self) == *old(self) && trace_idx(
                    old(self).entries@,
                    name@,
                ) is None,
            },
    {
        match self.get_arrangement(name) {
            Option::None => None,
            Option::Some(i) => {
                proof {
                    lemma_trace_idx(self.entries@, name@);
                }
                if self.entries[i].1.refcount < usize::MAX {
                    let rc = self.entries[i].1.refcount;
                    self.entries[i].1.refcount = rc + 1;
                }
                proof {
                    lemma_trace_idx_unchanged_names(old(self).entries@, final(self).entries@, name@);
                }
                Some(i)
            },
        }
    }

    /// Releases one reference on the arrangement under `name`. An entry
    /// whose last reference goes away is removed; an entry that keeps
    /// references is only decremented, and every other entry is untouched.
    pub fn release(&mut self, name: &String)
        ensures
            match trace_idx(old(self).entries@, name@) {
                Option::None => *final(self) == *old(self),
                Option::Some(i) => {
                    let s0 = old(self).entries@;
                    let s1 = final(self).entries@;
                    if s0[i].1.refcount <= 1 {
                        s1 == s0.remove(i)
                    } else {
                        &&& s1.len() == s0.len()
                        &&& (forall|j: int| 0 <= j < s0.len() && j != i ==> s1[j] == s0[j])
                        &&& s1[i].0 == s0[i].0
                        &&& s1[i].1.keys == s0[i].1.keys
                        &&& s1[i].1.arity == s0[i].1.arity
                        &&& s1[i].1.content == s0[i].1.content
                        &&& s1[i].1.refcount == s0[i].1.refcount - 1
                    }
                },
            },
    {
        match self.get_arrangement(name) {
            Option::None => {},
            Option::Some(i) => {
                proof {
                    lemma_trace_idx(self.entries@, name@);
                }
                let rc = self.entries[i].1.refcount;
                if rc <= 1 {
                    self.entries.remove(i);
                } else {
                    self.entries[i].1.refcount = rc - 1;
                }
            },
        }
    }
}

/// Bumping one entry's refcount moves no names, so the first index of a
/// name is unchanged.
pub proof fn lemma_trace_idx_unchanged_names<V: Datum>(
    s0: Seq<(String, Arrangement<V>)>,
    s1: Seq<(String, Arrangement<V>)>,
    name: Seq<char>,
)
    requires
        s1.len() == s0.len(),
        forall|j: int| 0 <= j < s0.len() ==> s1[j].0@ == s0[j].0@,
    ensures
        trace_idx(s1, name) == trace_idx(s0, name),
    decreases s0.len(),
{
    if s0.len() > 0 {
        assert(forall|j: int|
            0 <= j < s0.drop_first().len() ==> s1.drop_first()[j].0@ == s0.drop_first()[j].0@);
        lemma_trace_idx_unchanged_names(s0.drop_first(), s1.drop_first(), name);
    }
}

/// The process-wide state: the input registry and the arrangement
/// registry, threaded explicitly through validation and installation.
pub struct Manager<V: Datum> {
    /// The named raw inputs.
    pub inputs: InputManager<V>,
    /// The named shared arrangements.
    pub traces: TraceManager<V>,
}

impl<V: Datum> Manager<V> {
    /// Creates an empty manager.
    pub fn new() -> (m: Self)
        ensures
            m.inputs.entries@.len() == 0,
            m.traces.entries@.len() == 0,
    {
        Manager { inputs: InputManager::new(), traces: TraceManager::new() }
    }
}

} // verus!
