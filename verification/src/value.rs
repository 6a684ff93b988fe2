//! The typed column: scalar samples, timestamped rows, and the append-only,
//! homogeneously-typed row sequence kept per series.

use vstd::prelude::*;

use crate::point::FieldValue;
use crate::{TypeMismatchError, ValueType};

verus! {

/// One stored scalar sample.
///
/// The floating-point kind carries the IEEE-754 bit pattern of its sample:
/// the buffer never interprets the number, it only stores and moves it.
pub enum Value {
    F64(u64),
    I64(i64),
    U64(u64),
    Bool(bool),
    Str(String),
}

/// Ghost image of a scalar sample: the same five kinds, with the string
/// payload abstracted to its character sequence.
pub enum ValueView {
    F64(u64),
    I64(i64),
    U64(u64),
    Bool(bool),
    Str(Seq<char>),
}

impl ValueView {
    /// The kind tag of this sample.
    pub open spec fn kind(self) -> ValueType {
        match self {
            ValueView::F64(_) => ValueType::F64,
            ValueView::I64(_) => ValueType::I64,
            ValueView::U64(_) => ValueType::U64,
            ValueView::Bool(_) => ValueType::Bool,
            ValueView::Str(_) => ValueType::Str,
        }
    }
}

impl View for Value {
    type V = ValueView;

    open spec fn view(&self) -> ValueView {
        match self {
            Value::F64(b) => ValueView::F64(*b),
            Value::I64(v) => ValueView::I64(*v),
            Value::U64(v) => ValueView::U64(*v),
            Value::Bool(v) => ValueView::Bool(*v),
            Value::Str(s) => ValueView::Str(s@),
        }
    }
}

impl Value {
    /// The kind tag of this sample.
    pub fn value_type(&self) -> (t: ValueType)
        ensures
            t == self@.kind(),
    {
        match self {
            Value::F64(_) => ValueType::F64,
            Value::I64(_) => ValueType::I64,
            Value::U64(_) => ValueType::U64,
            Value::Bool(_) => ValueType::Bool,
            Value::Str(_) => ValueType::Str,
        }
    }

    /// The conversion the ingest path uses: a field value read from a point
    /// becomes the stored sample, kind and payload unchanged.
    pub fn from_field(f: &FieldValue) -> (v: Value)
        ensures
            v@ == f@,
    {
        match f {
            FieldValue::F64(b) => Value::F64(*b),
            FieldValue::I64(v) => Value::I64(*v),
            FieldValue::U64(v) => Value::U64(*v),
            FieldValue::Bool(v) => Value::Bool(*v),
            FieldValue::Str(s) => Value::Str(s.clone()),
        }
    }
}

/// One sample in time: a timestamp in nanoseconds since the epoch —
/// signed, so samples before the epoch are representable — and the
/// sampled value.
pub struct Row {
    unix_nano: i128,
    value: Value,
}

/// Ghost image of a row.
pub struct RowView {
    pub unix_nano: i128,
    pub value: ValueView,
}

impl View for Row {
    type V = RowView;

    closed spec fn view(&self) -> RowView {
        RowView { unix_nano: self.unix_nano, value: self.value@ }
    }
}

impl Row {
    pub fn new(unix_nano: i128, value: Value) -> (r: Row)
        ensures
            r@ == (RowView { unix_nano, value: value@ }),
    {
        Row { unix_nano, value }
    }

    /// The row's timestamp, in nanoseconds since the epoch.
    pub fn unix_nano(&self) -> (t: i128)
        ensures
            t == self@.unix_nano,
    {
        self.unix_nano
    }

    /// The row's sample.
    pub fn value(&self) -> (v: &Value)
        ensures
            v@ == self@.value,
    {
        &self.value
    }
}

/// The time-ordered column for one series: a declared kind, fixed at
/// construction, and the rows appended so far, every one of the declared
/// kind.
pub struct Entry {
    value_type: ValueType,
    values: Vec<Row>,
}

/// Ghost image of a column.
pub struct EntryView {
    pub value_type: ValueType,
    pub rows: Seq<RowView>,
}

impl EntryView {
    /// Every stored row's kind agrees with the column's declared kind.
    pub open spec fn wf(self) -> bool {
        forall|i: int|
            0 <= i < self.rows.len() ==> (#[trigger] self.rows[i]).value.kind() == self.value_type
    }
}

impl View for Entry {
    type V = EntryView;

    closed spec fn view(&self) -> EntryView {
        EntryView {
            value_type: self.value_type,
            rows: self.values@.map_values(|r: Row| r@),
        }
    }
}

/// One push against a column, as the column's contract states it: a row of
/// the declared kind lands at the end, any other row leaves the column
/// unchanged.
pub open spec fn push_one(e: EntryView, r: RowView) -> EntryView {
    if r.value.kind() == e.value_type {
        EntryView { value_type: e.value_type, rows: e.rows.push(r) }
    } else {
        e
    }
}

/// A whole sequence of pushes against a column, in call order.
pub open spec fn pushed(e: EntryView, rows: Seq<RowView>) -> EntryView
    decreases rows.len(),
{
    if rows.len() == 0 {
        e
    } else {
        push_one(pushed(e, rows.drop_last()), rows.last())
    }
}

impl Entry {
    pub fn new(value_type: ValueType) -> (e: Entry)
        ensures
            e@.value_type == value_type,
            e@.rows == Seq::<RowView>::empty(),
    {
        let values = Vec::new();
        let e = Entry { value_type, values };
        proof {
            assert(e@.rows =~= Seq::<RowView>::empty());
        }
        e
    }

    /// The declared kind; every row this column holds or will accept is of
    /// this kind.
    pub fn value_type(&self) -> (t: ValueType)
        ensures
            t == self@.value_type,
    {
        self.value_type
    }

    /// How many rows the column currently holds.
    pub fn len(&self) -> (n: usize)
        ensures
            n == self@.rows.len(),
    {
        self.values.len()
    }

    /// The row at one position of the column, for a reader walking a
    /// consistent snapshot.
    pub fn row(&self, i: usize) -> (r: &Row)
        requires
            i < self@.rows.len(),
        ensures
            r@ == self@.rows[i as int],
    {
        &self.values[i]
    }

    /// Appends one row, provided its kind matches the declared kind; a row
    /// of any other kind is refused and the column is left unchanged.
    pub fn push(&mut self, r: Row) -> (res: Result<(), TypeMismatchError>)
        ensures
            final(self)@ == push_one(old(self)@, r@),
            r@.value.kind() == old(self)@.value_type ==> res == Ok::<(), TypeMismatchError>(()),
            r@.value.kind() != old(self)@.value_type ==> res == Err::<(), TypeMismatchError>(
                TypeMismatchError { expect: old(self)@.value_type, got: r@.value.kind() },
            ),
            old(self)@.wf() && r@.value.kind() == old(self)@.value_type ==> final(self)@.wf(),
    {
        let got = r.value.value_type();
        if self.value_type != got {
            let e = TypeMismatchError::new(self.value_type, got);
            return Err(e);
        }

        let ghost prev = self@;
        self.values.push(r);
        proof {
            assert(self@.rows =~= prev.rows.push(r@));
        }

        Ok(())
    }

    /// Moves every row of `other` onto the end of `self`, provided the two
    /// declared kinds agree; otherwise both columns are left unchanged.
    pub fn append(&mut self, other: &mut Entry) -> (res: Result<(), TypeMismatchError>)
        ensures
            old(self)@.value_type == old(other)@.value_type ==> {
                &&& res == Ok::<(), TypeMismatchError>(())
                &&& final(self)@.value_type == old(self)@.value_type
                &&& final(self)@.rows == old(self)@.rows + old(other)@.rows
                &&& final(other)@.value_type == old(other)@.value_type
                &&& final(other)@.rows == Seq::<RowView>::empty()
            },
            old(self)@.value_type != old(other)@.value_type ==> {
                &&& res == Err::<(), TypeMismatchError>(
                    TypeMismatchError {
                        expect: old(self)@.value_type,
                        got: old(other)@.value_type,
                    },
                )
                &&& *final(self) == *old(self)
                &&& *final(other) == *old(other)
            },
            old(self)@.wf() && old(other)@.wf() ==> final(self)@.wf() && final(other)@.wf(),
    {
        if self.value_type != other.value_type {
            return Err(TypeMismatchError::new(self.value_type, other.value_type));
        }

        let ghost prev_self = self@;
        let ghost prev_other = other@;
        self.values.append(&mut other.values);
        proof {
            assert(self@.rows =~= prev_self.rows + prev_other.rows);
            assert(other@.rows =~= Seq::<RowView>::empty());
        }

        Ok(())
    }
}

/// How a column answers a whole sequence of pushes from one caller: the
/// declared kind never moves, the rows of the matching kind land at the end
/// in call order, and the length grows by exactly the number of successful
/// pushes.
pub proof fn lemma_push_order(e: EntryView, rows: Seq<RowView>)
    ensures
        pushed(e, rows).value_type == e.value_type,
        pushed(e, rows).rows == e.rows + rows.filter(
            |r: RowView| r.value.kind() == e.value_type,
        ),
        pushed(e, rows).rows.len() == e.rows.len() + rows.filter(
            |r: RowView| r.value.kind() == e.value_type,
        ).len(),
    decreases rows.len(),
{
    let pred = |r: RowView| r.value.kind() == e.value_type;
    reveal(Seq::filter);
    if rows.len() == 0 {
        assert(rows.filter(pred) =~= Seq::<RowView>::empty());
        assert(pushed(e, rows).rows =~= e.rows + rows.filter(pred));
    } else {
        let init = rows.drop_last();
        let last = rows.last();
        lemma_push_order(e, init);
        if pred(last) {
            assert(pushed(e, rows).rows =~= e.rows + rows.filter(pred));
        } else {
            assert(pushed(e, rows).rows =~= e.rows + rows.filter(pred));
        }
    }
}

} // verus!
