//! Interactive incremental query engine core.
//!
//! Query plans arrive as plain data, are validated against a registry of
//! named inputs and shared arrangements, and are evaluated directly by an
//! incremental reference interpreter, without a compilation step.

use vstd::prelude::*;

verus! {

/// System-wide notion of time: a duration split into whole seconds and a
/// sub-second nanosecond remainder, ordered lexicographically.
#[derive(Clone, Copy, PartialEq, Eq, Structural, Debug, Hash)]
pub struct Time {
    /// Whole seconds.
    pub secs: u64,
    /// Nanoseconds below one second.
    pub nanos: u32,
}

impl Time {
    /// A time is well formed when the nanosecond part stays below one second.
    pub open spec fn wf(self) -> bool {
        self.nanos < 1_000_000_000
    }

    /// The total nanosecond count a time stands for.
    pub open spec fn as_nanos(self) -> int {
        self.secs * 1_000_000_000 + self.nanos
    }

    /// Builds a time from seconds and nanoseconds.
    pub fn new(secs: u64, nanos: u32) -> (t: Time)
        requires
            nanos < 1_000_000_000,
        ensures
            t.secs == secs,
            t.nanos == nanos,
            t.wf(),
    {
        Time { secs, nanos }
    }

    /// The lexicographic order on times: seconds first, then nanoseconds.
    pub open spec fn le_spec(self, other: Time) -> bool {
        self.secs < other.secs || (self.secs == other.secs && self.nanos <= other.nanos)
    }

    /// Compares two times lexicographically.
    pub fn le(&self, other: &Time) -> (r: bool)
        ensures
            r == self.le_spec(*other),
    {
        self.secs < other.secs || (self.secs == other.secs && self.nanos <= other.nanos)
    }
}

/// Comparing well-formed times lexicographically by seconds, then
/// nanoseconds, agrees with comparing their total nanosecond counts.
pub proof fn lemma_time_lex(a: Time, b: Time)
    requires
        a.wf(),
        b.wf(),
    ensures
        a.le_spec(b) == (a.as_nanos() <= b.as_nanos()),
{
    assert((a.secs * 1_000_000_000 + a.nanos <= b.secs * 1_000_000_000 + b.nanos) == (a.secs
        < b.secs || (a.secs == b.secs && a.nanos <= b.nanos))) by (nonlinear_arith)
        requires
            a.nanos < 1_000_000_000,
            b.nanos < 1_000_000_000,
    ;
}

/// System-wide update type: a signed multiplicity delta.
pub type Diff = isize;

/// The faults the engine reports. Validation faults reject a whole command
/// atomically; the serialization fault rejects a wire payload; the
/// remaining faults arise while a plan is evaluated.
#[derive(Clone, Copy, PartialEq, Eq, Structural, Debug, Hash)]
pub enum Error {
    /// A rule name occurs twice within one query.
    NameCollision,
    /// An import, publish, or read references a name that is neither
    /// registered nor defined by the query.
    Unresolved,
    /// An expression or key column reads past its tuple's width.
    OutOfRange,
    /// An evaluation-time lookup found no collection under a name.
    NotFound,
    /// A wire payload does not decode to a command.
    Serialization,
    /// A multiplicity product or negation leaves the diff range.
    DiffOverflow,
}

/// Types capable of use as data in tuples, together with an expression
/// language that derives new values from a slice of existing ones.
pub trait Datum: Sized {
    /// A value that can act on slices of data.
    type Expression;

    /// Whether an expression only reads columns below `arity`.
    spec fn expr_valid(e: Self::Expression, arity: int) -> bool;

    /// Whether an expression is the projection of column `i`.
    spec fn is_projection(e: Self::Expression, i: int) -> bool;

    /// The value an expression derives from a tuple.
    spec fn eval_expr(data: Seq<Self>, e: Self::Expression) -> Self;

    /// The byte encoding of an expression on the wire.
    spec fn expr_enc(e: Self::Expression) -> Seq<u8>;

    /// The expression a block of eight wire bytes decodes to, if any.
    spec fn expr_dec(bytes: Seq<u8>) -> Option<Self::Expression>;

    /// A projection of column `i` derives exactly column `i`.
    proof fn lemma_projection_eval(data: Seq<Self>, e: Self::Expression, i: int)
        requires
            Self::is_projection(e, i),
            0 <= i < data.len(),
        ensures
            Self::eval_expr(data, e) == data[i],
    ;

    /// Every expression encodes to exactly eight bytes.
    proof fn lemma_expr_enc_len(e: Self::Expression)
        ensures
            Self::expr_enc(e).len() == 8,
    ;

    /// Decoding inverts encoding.
    proof fn lemma_expr_dec_enc(e: Self::Expression)
        ensures
            Self::expr_dec(Self::expr_enc(e)) == Some(e),
    ;

    /// Applies an expression to a slice of data.
    fn subject_to(data: &[Self], expr: &Self::Expression) -> (r: Self)
        requires
            Self::expr_valid(*expr, data@.len() as int),
        ensures
            r == Self::eval_expr(data@, *expr),
    ;

    /// Creates an expression that implements projection of column `index`.
    fn projection(index: usize) -> (e: Self::Expression)
        ensures
            Self::is_projection(e, index as int),
            forall|arity: int| index < arity ==> Self::expr_valid(e, arity),
    ;

    /// Decides whether an expression is valid for tuples of width `arity`.
    fn expr_check(e: &Self::Expression, arity: usize) -> (b: bool)
        ensures
            b == Self::expr_valid(*e, arity as int),
    ;

    /// Appends the wire encoding of an expression to a byte buffer.
    fn expr_write(e: &Self::Expression, out: &mut Vec<u8>)
        ensures
            final(out)@ == old(out)@ + Self::expr_enc(*e),
    ;

    /// Reads one expression from eight wire bytes at `pos`.
    fn expr_read(bytes: &Vec<u8>, pos: usize) -> (r: Option<Self::Expression>)
        requires
            pos + 8 <= bytes@.len(),
        ensures
            r == Self::expr_dec(bytes@.subrange(pos as int, pos as int + 8)),
    ;

    /// Decides equality of two data values.
    fn eq_datum(a: &Self, b: &Self) -> (r: bool)
        ensures
            r == (a == b),
    ;

    /// Produces a copy of a data value.
    fn dup(&self) -> (r: Self)
        ensures
            r == self,
    ;
}

impl Datum for usize {
    type Expression = usize;

    open spec fn expr_valid(e: usize, arity: int) -> bool {
        e < arity
    }

    open spec fn is_projection(e: usize, i: int) -> bool {
        e == i
    }

    open spec fn eval_expr(data: Seq<usize>, e: usize) -> usize {
        data[e as int]
    }

    open spec fn expr_enc(e: usize) -> Seq<u8> {
        vstd::bytes::spec_u64_to_le_bytes(e as u64)
    }

    open spec fn expr_dec(bytes: Seq<u8>) -> Option<usize> {
        if bytes.len() == 8 && vstd::bytes::spec_u64_from_le_bytes(bytes) <= usize::MAX as u64 {
            Some(vstd::bytes::spec_u64_from_le_bytes(bytes) as usize)
        } else {
            None
        }
    }

    proof fn lemma_projection_eval(data: Seq<usize>, e: usize, i: int) {
    }

    proof fn lemma_expr_enc_len(e: usize) {
        vstd::bytes::lemma_auto_spec_u64_to_from_le_bytes();
    }

    proof fn lemma_expr_dec_enc(e: usize) {
        vstd::bytes::lemma_auto_spec_u64_to_from_le_bytes();
    }

    fn subject_to(data: &[usize], expr: &usize) -> usize {
        data[*expr]
    }

    fn projection(index: usize) -> usize {
        index
    }

    fn expr_check(e: &usize, arity: usize) -> bool {
        *e < arity
    }

    fn expr_write(e: &usize, out: &mut Vec<u8>) {
        let mut bs = vstd::bytes::u64_to_le_bytes(*e as u64);
        out.append(&mut bs);
    }

    fn expr_read(bytes: &Vec<u8>, pos: usize) -> Option<usize> {
        let n: usize = bytes.len();
        let v: u64 = vstd::bytes::u64_from_le_bytes(
            vstd::slice::slice_subrange(bytes.as_slice(), pos, pos + 8),
        );
        if v <= usize::MAX as u64 {
            Some(v as usize)
        } else {
            None
        }
    }

    fn eq_datum(a: &usize, b: &usize) -> bool {
        *a == *b
    }

    fn dup(&self) -> usize {
        *self
    }
}

impl Datum for u32 {
    type Expression = usize;

    open spec fn expr_valid(e: usize, arity: int) -> bool {
        e < arity
    }

    open spec fn is_projection(e: usize, i: int) -> bool {
        e == i
    }

    open spec fn eval_expr(data: Seq<u32>, e: usize) -> u32 {
        data[e as int]
    }

    open spec fn expr_enc(e: usize) -> Seq<u8> {
        vstd::bytes::spec_u64_to_le_bytes(e as u64)
    }

    open spec fn expr_dec(bytes: Seq<u8>) -> Option<usize> {
        if bytes.len() == 8 && vstd::bytes::spec_u64_from_le_bytes(bytes) <= usize::MAX as u64 {
            Some(vstd::bytes::spec_u64_from_le_bytes(bytes) as usize)
        } else {
            None
        }
    }

    proof fn lemma_projection_eval(data: Seq<u32>, e: usize, i: int) {
    }

    proof fn lemma_expr_enc_len(e: usize) {
        vstd::bytes::lemma_auto_spec_u64_to_from_le_bytes();
    }

    proof fn lemma_expr_dec_enc(e: usize) {
        vstd::bytes::lemma_auto_spec_u64_to_from_le_bytes();
    }

    fn subject_to(data: &[u32], expr: &usize) -> u32 {
        data[*expr]
    }

    fn projection(index: usize) -> usize {
        index
    }

    fn expr_check(e: &usize, arity: usize) -> bool {
        *e < arity
    }

    fn expr_write(e: &usize, out: &mut Vec<u8>) {
        let mut bs = vstd::bytes::u64_to_le_bytes(*e as u64);
        out.append(&mut bs);
    }

    fn expr_read(bytes: &Vec<u8>, pos: usize) -> Option<usize> {
        let n: usize = bytes.len();
        let v: u64 = vstd::bytes::u64_from_le_bytes(
            vstd::slice::slice_subrange(bytes.as_slice(), pos, pos + 8),
        );
        if v <= usize::MAX as u64 {
            Some(v as usize)
        } else {
            None
        }
    }

    fn eq_datum(a: &u32, b: &u32) -> bool {
        *a == *b
    }

    fn dup(&self) -> u32 {
        *self
    }
}

/// Composing `projection` and `subject_to` selects exactly the indexed
/// column: for every datum implementation, an expression that projects
/// column `i` of a tuple with `i` in bounds derives `data[i]`.
pub proof fn lemma_projection_selects<V: Datum>(data: Seq<V>, e: V::Expression, i: int)
    requires
        V::is_projection(e, i),
        0 <= i < data.len(),
    ensures
        V::eval_expr(data, e) == data[i],
{
    V::lemma_projection_eval(data, e, i);
}

/// A type that can be converted to a vector of another type.
pub trait VectorFrom<T>: Sized {
    /// The sequence `item` converts to.
    spec fn vector_from_spec(item: T) -> Seq<Self>;

    /// Converts `item` to a vector of `Self`.
    fn vector_from(item: T) -> (r: Vec<Self>)
        ensures
            r@ == Self::vector_from_spec(item),
    ;
}

impl VectorFrom<(usize, usize)> for usize {
    open spec fn vector_from_spec(item: (usize, usize)) -> Seq<usize> {
        seq![item.0, item.1]
    }

    fn vector_from(item: (usize, usize)) -> (r: Vec<usize>) {
        let mut v: Vec<usize> = Vec::new();
        v.push(item.0);
        v.push(item.1);
        proof {
            assert(v@ =~= seq![item.0, item.1]);
        }
        v
    }
}

impl VectorFrom<(u32, u32)> for u32 {
    open spec fn vector_from_spec(item: (u32, u32)) -> Seq<u32> {
        seq![item.0, item.1]
    }

    fn vector_from(item: (u32, u32)) -> (r: Vec<u32>) {
        let mut v: Vec<u32> = Vec::new();
        v.push(item.0);
        v.push(item.1);
        proof {
            assert(v@ =~= seq![item.0, item.1]);
        }
        v
    }
}

} // verus!

pub mod plan;
pub use plan::Plan;

pub mod command;
pub use command::Command;

pub mod query;
pub use query::{Query, Rule};

pub mod codec;

pub mod eval;

pub mod manager;
pub use manager::{Manager, TraceManager, InputManager};
