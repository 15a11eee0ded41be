//! From a value tree to a directory tree.
//!
//! A table becomes a directory with one entry for each key, an array a
//! directory whose entries are named `0`, `1`, ... after the positions of its
//! items, and a scalar a file that holds the scalar's literal.

use crate::error::{result_view, Error, ErrorKind, ErrorView};
use crate::implode::implode;
use crate::round_trip::{faithful, lemma_round_trip};
use crate::foreign::{
    is_plain, quoted, toml_datetime_text, toml_format_boolean, toml_format_datetime,
    toml_format_integer, toml_format_string, toml_string_text,
};
use crate::outcome::{collect, lemma_collect_ok, lemma_collect_push, lemma_collect_rest};
use crate::literal::{boolean_text, integer_text, is_float_literal, recognize_float};
use crate::node::{entries_view, lemma_directory_view, Entry, EntryView, Node, NodeView};
use crate::text::{decimal_string, decimal_text, lemma_decimal_text_injective};
use crate::value::{members_view, values_view, Member, MemberView, Value, ValueView};
use vstd::prelude::*;

verus! {

/// The literal of a string: the string between two double quotes where no
/// character of it is a control character, a double quote or a backslash,
/// and else what the document format writes for it, with its escapes.
pub open spec fn string_text(s: Seq<char>) -> Seq<char> {
    if is_plain(s) {
        quoted(s)
    } else {
        toml_string_text(s)
    }
}

/// The literal of a scalar: `true` or `false` for a truth value, the
/// literal of a string, the decimal notation of an integer, the literal that
/// a floating-point value holds, and what the document format writes for a
/// date and time. A collection has none, and a floating-point value has none
/// where it holds no floating-point literal.
pub open spec fn scalar_text(value: ValueView) -> Option<Seq<char>> {
    match value {
        ValueView::Boolean(b) => Some(boolean_text(b)),
        ValueView::String(s) => Some(string_text(s)),
        ValueView::Integer(i) => Some(integer_text(i)),
        ValueView::Float(text) => if is_float_literal(text) {
            Some(text)
        } else {
            None
        },
        ValueView::Datetime(d) => Some(toml_datetime_text(d)),
        ValueView::Array(_) => None,
        ValueView::Table(_) => None,
    }
}

/// The file that holds a literal; a failure of the document format where
/// there is no literal.
pub open spec fn leaf_of(text: Option<Seq<char>>) -> Result<NodeView, ErrorView> {
    match text {
        Some(t) => Ok(NodeView::File(t)),
        None => Err(ErrorView::at_root(ErrorKind::Format, Seq::empty())),
    }
}

/// The entry that stands for a subtree under `name`; a failure in the
/// subtree is placed under that name.
pub open spec fn entry_of(name: Seq<char>, node: Result<NodeView, ErrorView>) -> Result<
    EntryView,
    ErrorView,
> {
    match node {
        Ok(n) => Ok(EntryView { name: Some(name), node: n }),
        Err(e) => Err(e.under(name)),
    }
}

/// The directory tree that stands for a value tree.
pub open spec fn explode(value: ValueView) -> Result<NodeView, ErrorView>
    decreases value, 0int,
{
    match value {
        ValueView::Array(items) => array_directory(items),
        ValueView::Table(members) => table_directory(members),
        _ => leaf_of(scalar_text(value)),
    }
}

/// The entries that stand for the items of an array: item `i` under the
/// decimal notation of `i`.
pub open spec fn item_entries(items: Seq<ValueView>) -> Seq<Result<EntryView, ErrorView>>
    decreases items, 0int,
{
    Seq::new(
        items.len(),
        |i: int|
            if 0 <= i < items.len() {
                entry_of(decimal_text(i as nat), explode(items[i]))
            } else {
                Err(ErrorView::at_root(ErrorKind::Format, Seq::empty()))
            },
    )
}

/// The entries that stand for the members of a table: each value under its
/// key, in the order of the table.
pub open spec fn member_entries(members: Seq<MemberView>) -> Seq<Result<EntryView, ErrorView>>
    decreases members, 0int,
{
    Seq::new(
        members.len(),
        |i: int|
            if 0 <= i < members.len() {
                entry_of(members[i].key, explode(members[i].value))
            } else {
                Err(ErrorView::at_root(ErrorKind::Format, Seq::empty()))
            },
    )
}

/// The directory that lists `entries`; the first failure among them fails
/// the whole.
pub open spec fn directory_of(entries: Seq<Result<EntryView, ErrorView>>) -> Result<
    NodeView,
    ErrorView,
> {
    match collect(entries) {
        Ok(listed) => Ok(NodeView::Directory(listed)),
        Err(e) => Err(e),
    }
}

/// The directory that stands for an array.
pub open spec fn array_directory(items: Seq<ValueView>) -> Result<NodeView, ErrorView>
    decreases items, 1int,
{
    directory_of(item_entries(items))
}

/// The directory that stands for a table.
pub open spec fn table_directory(members: Seq<MemberView>) -> Result<NodeView, ErrorView>
    decreases members, 1int,
{
    directory_of(member_entries(members))
}

/// Every valid value tree has a directory tree that stands for it: only a
/// floating-point value that holds no floating-point literal is refused.
pub proof fn lemma_explode_succeeds(value: ValueView)
    requires
        value.well_formed(),
    ensures
        explode(value) is Ok,
    decreases value,
{
    match value {
        ValueView::Array(items) => {
            let written = item_entries(items);
            let entries = Seq::new(items.len(), |i: int| written[i]->Ok_0);
            assert forall|i: int| 0 <= i < written.len() implies #[trigger] written[i] == Ok::<
                EntryView,
                ErrorView,
            >(entries[i]) by {
                assert(items[i].well_formed());
                lemma_explode_succeeds(items[i]);
            }
            lemma_collect_ok(written, entries);
        },
        ValueView::Table(members) => {
            let written = member_entries(members);
            let entries = Seq::new(members.len(), |i: int| written[i]->Ok_0);
            assert forall|i: int| 0 <= i < written.len() implies #[trigger] written[i] == Ok::<
                EntryView,
                ErrorView,
            >(entries[i]) by {
                assert(members[i].value.well_formed());
                lemma_explode_succeeds(members[i].value);
            }
            lemma_collect_ok(written, entries);
        },
        _ => {},
    }
}

/// The directory tree that stands for a valid value tree is readable.
pub proof fn lemma_explode_readable(value: ValueView)
    requires
        value.well_formed(),
    ensures
        explode(value) matches Ok(node) ==> node.readable(),
    decreases value,
{
    match value {
        ValueView::Array(items) => {
            let written = item_entries(items);
            if collect(written) is Ok {
                let entries = collect(written)->Ok_0;
                lemma_collect_ok(written, entries);
                assert forall|i: int| 0 <= i < entries.len() implies (#[trigger] entries[i]).name
                    == Some(decimal_text(i as nat)) && entries[i].node.readable() by {
                    assert(written[i] == Ok::<EntryView, ErrorView>(entries[i]));
                    assert(items[i].well_formed());
                    lemma_explode_readable(items[i]);
                }
                assert forall|i: int, j: int| 0 <= i < j < entries.len() implies (
                #[trigger] entries[i]).name != (#[trigger] entries[j]).name by {
                    if decimal_text(i as nat) == decimal_text(j as nat) {
                        lemma_decimal_text_injective(i as nat, j as nat);
                    }
                }
            }
        },
        ValueView::Table(members) => {
            let written = member_entries(members);
            if collect(written) is Ok {
                let entries = collect(written)->Ok_0;
                lemma_collect_ok(written, entries);
                assert forall|i: int| 0 <= i < entries.len() implies (#[trigger] entries[i]).name
                    == Some(members[i].key) && entries[i].node.readable() by {
                    assert(written[i] == Ok::<EntryView, ErrorView>(entries[i]));
                    assert(members[i].value.well_formed());
                    lemma_explode_readable(members[i].value);
                }
                assert forall|i: int, j: int| 0 <= i < j < entries.len() implies (
                #[trigger] entries[i]).name != (#[trigger] entries[j]).name by {
                    assert(members[i].key != members[j].key);
                }
            }
        },
        _ => {},
    }
}

/// The file that holds the literal `text`; a failure of the document format
/// where `text` is `None`.
pub fn leaf_from_text(text: Option<String>) -> (r: Result<Node, Error>)
    ensures
        result_view(r) == leaf_of(
            match text {
                Some(t) => Some(t@),
                None => None,
            },
        ),
{
    match text {
        Some(t) => Ok(Node::File(t)),
        None => Err(Error::new(ErrorKind::Format)),
    }
}

/// The file that stands for a scalar: it holds the scalar's literal. A
/// collection has no literal, and is refused, and so is a floating-point
/// value that holds no floating-point literal.
pub fn visit_serialize(value: &Value) -> (r: Result<Node, Error>)
    ensures
        result_view(r) == leaf_of(scalar_text(value@)),
{
    let text = match value {
        Value::Boolean(b) => toml_format_boolean(*b),
        Value::String(s) => toml_format_string(s.as_str()),
        Value::Integer(i) => toml_format_integer(*i),
        Value::Float(text) => if recognize_float(text.as_str()) {
            Some(text.clone())
        } else {
            None
        },
        Value::Datetime(d) => toml_format_datetime(d),
        Value::Array(_) => None,
        Value::Table(_) => None,
    };
    leaf_from_text(text)
}

/// The directory that stands for a table.
pub fn visit_table(table: &Vec<Member>) -> (r: Result<Node, Error>)
    ensures
        result_view(r) == table_directory(members_view(table@)),
    decreases table, 0int,
{
    let n = table.len();
    let ghost results = member_entries(members_view(table@));
    let mut entries: Vec<Entry> = Vec::new();
    let mut i: usize = 0;
    assert(results.take(0) =~= Seq::empty());
    assert(entries_view(entries@) =~= Seq::empty());
    while i < n
        invariant
            i <= n,
            n == table.len(),
            results == member_entries(members_view(table@)),
            collect(results.take(i as int)) == Ok::<Seq<EntryView>, ErrorView>(
                entries_view(entries@),
            ),
        decreases n - i,
    {
        let member = &table[i];
        proof {
            assert(results.take(i as int).push(results[i as int]) =~= results.take(i + 1));
            lemma_collect_push(results.take(i as int), results[i as int]);
            assert(members_view(table@)[i as int] == member@);
        }
        let ghost before = entries@;
        match visit_value(&member.value) {
            Ok(node) => {
                let entry = Entry { name: Some(member.key.clone()), node };
                assert(entry@ == EntryView { name: Some(member.key@), node: node@ });
                entries.push(entry);
                assert(entries_view(entries@) =~= entries_view(before).push(entry@));
            },
            Err(e) => {
                proof {
                    lemma_collect_rest(results, i + 1);
                }
                return Err(e.under(&member.key));
            },
        }
        i += 1;
    }
    proof {
        assert(results.take(n as int) =~= results);
        lemma_directory_view(entries);
    }
    Ok(Node::Directory(entries))
}

/// The directory that stands for an array.
pub fn visit_array(array: &Vec<Value>) -> (r: Result<Node, Error>)
    ensures
        result_view(r) == array_directory(values_view(array@)),
    decreases array, 0int,
{
    let n = array.len();
    let ghost results = item_entries(values_view(array@));
    let mut entries: Vec<Entry> = Vec::new();
    let mut i: usize = 0;
    assert(results.take(0) =~= Seq::empty());
    assert(entries_view(entries@) =~= Seq::empty());
    while i < n
        invariant
            i <= n,
            n == array.len(),
            results == item_entries(values_view(array@)),
            collect(results.take(i as int)) == Ok::<Seq<EntryView>, ErrorView>(
                entries_view(entries@),
            ),
        decreases n - i,
    {
        let item = &array[i];
        proof {
            assert(results.take(i as int).push(results[i as int]) =~= results.take(i + 1));
            lemma_collect_push(results.take(i as int), results[i as int]);
            assert(values_view(array@)[i as int] == item@);
        }
        let ghost before = entries@;
        let name = decimal_string(i);
        match visit_value(item) {
            Ok(node) => {
                let entry = Entry { name: Some(name), node };
                assert(entry@ == EntryView { name: Some(decimal_text(i as nat)), node: node@ });
                entries.push(entry);
                assert(entries_view(entries@) =~= entries_view(before).push(entry@));
            },
            Err(e) => {
                proof {
                    lemma_collect_rest(results, i + 1);
                }
                return Err(e.under(&name));
            },
        }
        i += 1;
    }
    proof {
        assert(results.take(n as int) =~= results);
        lemma_directory_view(entries);
    }
    Ok(Node::Directory(entries))
}

/// The directory tree that stands for a value tree. Every valid value tree
/// has one, and it is readable; a faithful value tree is read from its
/// directory tree again.
pub fn visit_value(value: &Value) -> (r: Result<Node, Error>)
    ensures
        result_view(r) == explode(value@),
        value@.well_formed() ==> (r matches Ok(node) && node@.readable()),
        faithful(value@) ==> (r matches Ok(node) && implode(node@) == Ok::<ValueView, ErrorView>(
            value@,
        )),
    decreases value, 1int,
{
    proof {
        if value@.well_formed() {
            lemma_explode_succeeds(value@);
            lemma_explode_readable(value@);
        }
        lemma_round_trip(value@);
    }
    match value {
        Value::Table(table) => {
            proof {
                crate::value::lemma_table_view(*table);
            }
            visit_table(table)
        },
        Value::Array(array) => {
            proof {
                crate::value::lemma_array_view(*array);
            }
            visit_array(array)
        },
        _ => visit_serialize(value),
    }
}

} // verus!
