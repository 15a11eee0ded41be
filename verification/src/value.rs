//! The value tree and its mathematical model.

use crate::literal::is_float_literal;
use vstd::prelude::*;

verus! {

/// A calendar date.
#[derive(Clone, Copy, Debug, PartialEq, Eq)]
pub struct Date {
    pub year: u16,
    pub month: u8,
    pub day: u8,
}

/// A time of day.
#[derive(Clone, Copy, Debug, PartialEq, Eq)]
pub struct Time {
    pub hour: u8,
    pub minute: u8,
    pub second: u8,
    pub nanosecond: u32,
}

/// An offset from UTC.
#[derive(Clone, Copy, Debug, PartialEq, Eq)]
pub enum Offset {
    Z,
    Custom { hours: i8, minutes: u8 },
}

/// A date, a time, or both, with an optional offset.
#[derive(Clone, Copy, Debug, PartialEq, Eq)]
pub struct Datetime {
    pub date: Option<Date>,
    pub time: Option<Time>,
    pub offset: Option<Offset>,
}

/// One member of a table: a key and the value stored under it.
#[derive(Debug, PartialEq, Eq)]
pub struct Member {
    pub key: String,
    pub value: Value,
}

/// A node of the value tree.
#[derive(Debug, PartialEq, Eq)]
pub enum Value {
    Boolean(bool),
    String(String),
    Integer(i64),
    /// A floating-point number, held as its literal.
    Float(String),
    Datetime(Datetime),
    Array(Vec<Value>),
    Table(Vec<Member>),
}

/// The model of a table member.
pub ghost struct MemberView {
    pub key: Seq<char>,
    pub value: ValueView,
}

/// The model of a value tree.
pub ghost enum ValueView {
    Boolean(bool),
    String(Seq<char>),
    Integer(int),
    Float(Seq<char>),
    Datetime(Datetime),
    Array(Seq<ValueView>),
    Table(Seq<MemberView>),
}

impl ValueView {
    /// Whether the tree is a valid value tree: the keys of each table differ
    /// from one another, and each floating-point value holds a
    /// floating-point literal.
    pub open spec fn well_formed(self) -> bool
        decreases self,
    {
        match self {
            ValueView::Float(text) => is_float_literal(text),
            ValueView::Array(items) => forall|i: int|
                0 <= i < items.len() ==> (#[trigger] items[i]).well_formed(),
            ValueView::Table(members) => {
                &&& forall|i: int, j: int|
                    0 <= i < j < members.len() ==> (#[trigger] members[i]).key
                        != (#[trigger] members[j]).key
                &&& forall|i: int|
                    0 <= i < members.len() ==> (#[trigger] members[i]).value.well_formed()
            },
            _ => true,
        }
    }
}

/// The model of a table member.
pub open spec fn member_view(member: Member) -> MemberView
    decreases member,
{
    MemberView { key: member.key@, value: value_view(member.value) }
}

/// The model of a value tree: the same tree, with the characters of each
/// string and the items of each list.
pub open spec fn value_view(value: Value) -> ValueView
    decreases value,
{
    match value {
        Value::Boolean(b) => ValueView::Boolean(b),
        Value::String(s) => ValueView::String(s@),
        Value::Integer(i) => ValueView::Integer(i as int),
        Value::Float(s) => ValueView::Float(s@),
        Value::Datetime(d) => ValueView::Datetime(d),
        Value::Array(items) => ValueView::Array(
            Seq::new(
                items.len() as nat,
                |i: int|
                    if 0 <= i < items.len() {
                        value_view(items[i])
                    } else {
                        ValueView::Boolean(false)
                    },
            ),
        ),
        Value::Table(members) => ValueView::Table(
            Seq::new(
                members.len() as nat,
                |i: int|
                    if 0 <= i < members.len() {
                        member_view(members[i])
                    } else {
                        MemberView { key: Seq::empty(), value: ValueView::Boolean(false) }
                    },
            ),
        ),
    }
}

impl View for Member {
    type V = MemberView;

    open spec fn view(&self) -> MemberView {
        member_view(*self)
    }
}

impl View for Value {
    type V = ValueView;

    open spec fn view(&self) -> ValueView {
        value_view(*self)
    }
}

/// The models of a list of values, one by one.
pub open spec fn values_view(values: Seq<Value>) -> Seq<ValueView> {
    Seq::new(values.len(), |i: int| values[i]@)
}

/// The models of a list of members, one by one.
pub open spec fn members_view(members: Seq<Member>) -> Seq<MemberView> {
    Seq::new(members.len(), |i: int| members[i]@)
}

/// An array's model lists the models of its items.
pub proof fn lemma_array_view(items: Vec<Value>)
    ensures
        Value::Array(items)@ == ValueView::Array(values_view(items@)),
{
    assert(Value::Array(items)@->Array_0 =~= values_view(items@));
}

/// A table's model lists the models of its members.
pub proof fn lemma_table_view(members: Vec<Member>)
    ensures
        Value::Table(members)@ == ValueView::Table(members_view(members@)),
{
    assert(Value::Table(members)@->Table_0 =~= members_view(members@));
}

} // verus!
