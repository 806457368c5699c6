//! The data carried on the stream: node identifiers, cell values, rows and
//! signed records.

use vstd::prelude::*;

verus! {

/// Identifier of a graph node.  A node has a global form, stable across the
/// whole graph, and a local form, a dense small integer valid only within one
/// execution domain.
#[derive(PartialEq, Eq, Structural, Clone, Copy, Debug)]
pub enum NodeId {
    Global(usize),
    Local(usize),
}

impl NodeId {
    /// The dense in-domain index of a local identifier.
    pub fn as_local(&self) -> (i: usize)
        requires
            self is Local,
        ensures
            *self == NodeId::Local(i),
    {
        match self {
            NodeId::Local(i) => *i,
            NodeId::Global(i) => *i,
        }
    }
}

/// Mathematical model of a cell value.
pub enum ValueV {
    Null,
    Int(int),
    Text(Seq<char>),
}

/// An immutable tagged scalar: a row cell, also used as a replay key.
#[derive(PartialEq, Eq, Debug)]
pub enum Value {
    Null,
    Int(i64),
    Text(String),
}

impl View for Value {
    type V = ValueV;

    open spec fn view(&self) -> ValueV {
        match self {
            Value::Null => ValueV::Null,
            Value::Int(i) => ValueV::Int(*i as int),
            Value::Text(s) => ValueV::Text(s@),
        }
    }
}

/// Structural equality of two values, decided at the level of their models.
pub fn value_eq(a: &Value, b: &Value) -> (r: bool)
    ensures
        r == (a@ == b@),
{
    match (a, b) {
        (Value::Null, Value::Null) => true,
        (Value::Int(x), Value::Int(y)) => x == y,
        (Value::Text(x), Value::Text(y)) => x.eq(y),
        _ => {
            assert(a@ != b@);
            false
        },
    }
}

/// A duplicate of a value, equal to the original in the model.
pub fn clone_value(v: &Value) -> (r: Value)
    ensures
        r@ == v@,
{
    match v {
        Value::Null => Value::Null,
        Value::Int(i) => Value::Int(*i),
        Value::Text(s) => Value::Text(s.clone()),
    }
}

/// Mathematical model of a record: a row of cell models with its sign.
pub struct RecordV {
    pub pos: bool,
    pub row: Seq<ValueV>,
}

/// A row tagged with a sign: an insertion (positive) or a retraction
/// (negative), per differential-dataflow semantics.
#[derive(PartialEq, Eq, Debug)]
pub enum Record {
    Positive(Vec<Value>),
    Negative(Vec<Value>),
}

/// The model of a row: the sequence of its cells' models.
pub open spec fn row_view(r: Seq<Value>) -> Seq<ValueV> {
    r.map_values(|v: Value| v@)
}

impl View for Record {
    type V = RecordV;

    open spec fn view(&self) -> RecordV {
        match self {
            Record::Positive(r) => RecordV { pos: true, row: row_view(r@) },
            Record::Negative(r) => RecordV { pos: false, row: row_view(r@) },
        }
    }
}

impl Record {
    /// The record's row, without its sign.
    pub fn row(&self) -> (r: &Vec<Value>)
        ensures
            row_view(r@) == self@.row,
    {
        match self {
            Record::Positive(r) => r,
            Record::Negative(r) => r,
        }
    }

    /// Whether the record is an insertion.
    pub fn is_positive(&self) -> (b: bool)
        ensures
            b == self@.pos,
    {
        match self {
            Record::Positive(_) => true,
            Record::Negative(_) => false,
        }
    }
}

/// A duplicate of a row, cell for cell equal to the original in the model.
pub fn clone_row(r: &Vec<Value>) -> (c: Vec<Value>)
    ensures
        row_view(c@) == row_view(r@),
{
    let mut c: Vec<Value> = Vec::new();
    let mut i: usize = 0;
    while i < r.len()
        invariant
            i <= r.len(),
            c@.len() == i,
            forall|j: int| 0 <= j < i ==> c@[j]@ == r@[j]@,
        decreases r.len() - i,
    {
        c.push(clone_value(&r[i]));
        i = i + 1;
    }
    assert(row_view(c@) =~= row_view(r@));
    c
}

/// A duplicate of a record, equal to the original in the model.
pub fn clone_record(r: &Record) -> (c: Record)
    ensures
        c@ == r@,
{
    match r {
        Record::Positive(row) => Record::Positive(clone_row(row)),
        Record::Negative(row) => Record::Negative(clone_row(row)),
    }
}

impl Clone for Value {
    /// A duplicate equal to the original in the model.
    fn clone(&self) -> (r: Value)
        ensures
            r@ == self@,
    {
        clone_value(self)
    }
}

impl Clone for Record {
    /// A duplicate equal to the original in the model.
    fn clone(&self) -> (r: Record)
        ensures
            r@ == self@,
    {
        clone_record(self)
    }
}

/// The model of a batch: the sequence of its records' models, in order.
pub open spec fn batch_view(rs: Seq<Record>) -> Seq<RecordV> {
    rs.map_values(|r: Record| r@)
}

} // verus!
