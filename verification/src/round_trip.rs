//! Which value trees come back unchanged from the directory tree that
//! stands for them.

use crate::error::ErrorView;
use crate::explode::{explode, item_entries, member_entries, scalar_text, string_text};
use crate::implode::{
    array_of, child_results, collection_of, entry_result, implode, item_results, members_of,
    scalar_of,
};
use crate::listing::{
    denotes, in_range, index_at, is_array_listing, is_table_listing, lemma_position_of,
    position_of,
};
use crate::foreign::{is_plain, quoted, toml_datetime_text};
use crate::literal::{
    boolean_literal, boolean_text, index_literal, integer_literal, integer_text, is_float_literal,
    is_quoted, lemma_float_literal_ends, line_ending_stripped, signed_decimal, without_sign,
};
use crate::node::{entry_names, EntryView, NodeView};
use crate::outcome::{collect, lemma_collect_err, lemma_collect_ok};
use crate::text::{decimal_text, is_digit, lemma_decimal_text};
use crate::value::{MemberView, ValueView};
use vstd::prelude::*;

verus! {

/// The keys of a table as the names of a listing.
pub open spec fn key_names(members: Seq<MemberView>) -> Seq<Option<Seq<char>>> {
    Seq::new(members.len(), |i: int| Some(members[i].key))
}

/// Whether a value tree comes back from its directory tree: the directory
/// tree exists, and reading it yields the value tree again.
pub open spec fn round_trips(value: ValueView) -> bool {
    match explode(value) {
        Ok(node) => implode(node) == Ok::<ValueView, ErrorView>(value),
        Err(_) => false,
    }
}

/// Whether nothing in a value tree is lost on the way through a directory
/// tree:
/// - each scalar has a literal, and the literal is read as that scalar;
/// - the keys of each table differ from one another;
/// - the keys of no table are the names of an array's listing, as those of
///   the empty table are.
pub open spec fn faithful(value: ValueView) -> bool
    decreases value,
{
    match value {
        ValueView::Array(items) => forall|i: int|
            0 <= i < items.len() ==> faithful(#[trigger] items[i]),
        ValueView::Table(members) => {
            &&& is_table_listing(key_names(members))
            &&& !is_array_listing(key_names(members))
            &&& forall|i: int| 0 <= i < members.len() ==> faithful((#[trigger] members[i]).value)
        },
        _ => match scalar_text(value) {
            Some(text) => scalar_of(text) == Ok::<ValueView, ErrorView>(value),
            None => false,
        },
    }
}

/// The decimal notation of `k` is an entry name that denotes the index `k`.
pub proof fn lemma_index_name(k: nat)
    ensures
        index_literal(decimal_text(k)) == Some(k),
{
    lemma_decimal_text(k);
    let s = decimal_text(k);
    assert(is_digit(s[0]));
}

/// The names `0`, `1`, ... in this order are the listing of an array, and
/// the name at position `k` denotes `k`.
pub proof fn lemma_index_names(names: Seq<Option<Seq<char>>>)
    requires
        forall|i: int| 0 <= i < names.len() ==> #[trigger] names[i] == Some(decimal_text(i as nat)),
    ensures
        is_array_listing(names),
        forall|k: int| 0 <= k < names.len() ==> position_of(names, k) == k,
{
    assert forall|i: int| 0 <= i < names.len() implies index_at(names, i) == i by {
        lemma_index_name(i as nat);
    }
    assert forall|i: int| 0 <= i < names.len() implies #[trigger] in_range(names, i) by {
        assert(index_at(names, i) == i);
    }
    assert forall|k: int| 0 <= k < names.len() implies position_of(names, k) == k by {
        assert(denotes(names, k, k));
        lemma_position_of(names, k, k);
    }
}

/// Every truth value is faithful.
pub proof fn lemma_boolean_faithful(b: bool)
    ensures
        faithful(ValueView::Boolean(b)),
{
    let text = boolean_text(b);
    assert(line_ending_stripped(text) == text);
}

/// Every 64-bit signed integer is faithful.
pub proof fn lemma_integer_faithful(v: int)
    requires
        i64::MIN <= v <= i64::MAX,
    ensures
        faithful(ValueView::Integer(v)),
{
    let text = integer_text(v);
    let magnitude = if v < 0 {
        (-v) as nat
    } else {
        v as nat
    };
    let digits = decimal_text(magnitude);
    lemma_decimal_text(magnitude);
    assert(is_digit(digits[0]));
    assert(is_digit(digits[digits.len() - 1]));
    if v < 0 {
        assert(text.skip(1) =~= digits);
        assert(text[text.len() - 1] == digits[digits.len() - 1]);
    }
    assert(without_sign(text) == digits);
    assert(line_ending_stripped(text) == text);
    assert(boolean_literal(text) is None);
    assert(!is_quoted(text));
    assert(signed_decimal(text) == Some(v));
}

/// A floating-point value is faithful exactly where it holds a
/// floating-point literal that is not an integer literal as well.
pub proof fn lemma_float_faithful(text: Seq<char>)
    ensures
        faithful(ValueView::Float(text)) <==> is_float_literal(text) && integer_literal(text)
            is None,
{
    if is_float_literal(text) {
        lemma_float_literal_ends(text);
        assert(line_ending_stripped(text) == text);
        assert(boolean_literal(text) is None);
        assert(!is_quoted(text));
    }
}

/// A string is faithful where its literal is the string itself between two
/// double quotes. That is so of every string that holds no control
/// character, no double quote and no backslash, the empty string among them.
pub proof fn lemma_string_faithful(s: Seq<char>)
    ensures
        string_text(s) == quoted(s) ==> faithful(ValueView::String(s)),
        is_plain(s) ==> faithful(ValueView::String(s)),
{
    let text = quoted(s);
    assert(text.len() == s.len() + 2);
    assert(text[0] == '"');
    assert(text[text.len() - 1] == '"');
    assert(is_quoted(text));
    assert(text.subrange(1, text.len() - 1) =~= s);
    assert(line_ending_stripped(text) == text);
    assert(boolean_literal(text) is None);
}

/// The empty array and the empty table both become the empty directory,
/// and the empty directory is read as the empty array: the empty array is
/// faithful, the empty table is not.
pub proof fn lemma_empty_collections()
    ensures
        !faithful(ValueView::Table(Seq::empty())),
        explode(ValueView::Table(Seq::empty())) == Ok::<NodeView, ErrorView>(
            NodeView::Directory(Seq::empty()),
        ),
        explode(ValueView::Array(Seq::empty())) == Ok::<NodeView, ErrorView>(
            NodeView::Directory(Seq::empty()),
        ),
        faithful(ValueView::Array(Seq::empty())),
{
    let members = Seq::<MemberView>::empty();
    assert(is_array_listing(key_names(members)));
    assert(member_entries(members) =~= Seq::empty());
    assert(item_entries(Seq::<ValueView>::empty()) =~= Seq::empty());
}

/// A value tree comes back unchanged from its directory tree exactly where
/// it is faithful.
pub proof fn lemma_round_trip(value: ValueView)
    ensures
        round_trips(value) <==> faithful(value),
    decreases value,
{
    match value {
        ValueView::Array(items) => {
            lemma_round_trip_array(items);
        },
        ValueView::Table(members) => {
            lemma_round_trip_table(members);
        },
        _ => {},
    }
}

/// The round trip of an array.
proof fn lemma_round_trip_array(items: Seq<ValueView>)
    ensures
        round_trips(ValueView::Array(items)) <==> faithful(ValueView::Array(items)),
    decreases items,
{
    let value = ValueView::Array(items);
    let n = items.len() as int;
    let written = item_entries(items);
    assert forall|i: int| 0 <= i < n implies (round_trips(#[trigger] items[i]) <==> faithful(
        items[i],
    )) by {
        lemma_round_trip(items[i]);
    }
    if collect(written) is Err {
        let at = lemma_collect_err(written);
        assert(explode(items[at]) is Err);
        assert(!round_trips(items[at]));
        assert(!faithful(items[at]));
    } else {
        let entries = collect(written)->Ok_0;
        lemma_collect_ok(written, entries);
        let names = entry_names(entries);
        assert forall|i: int| 0 <= i < n implies #[trigger] entries[i] == (EntryView {
            name: Some(decimal_text(i as nat)),
            node: explode(items[i])->Ok_0,
        }) && explode(items[i]) is Ok by {
            assert(written[i] == Ok::<EntryView, ErrorView>(entries[i]));
        }
        assert forall|i: int| 0 <= i < names.len() implies #[trigger] names[i] == Some(
            decimal_text(i as nat),
        ) by {
            assert(entries[i].name == Some(decimal_text(i as nat)));
        }
        lemma_index_names(names);
        let read = item_results(entries);
        assert forall|k: int| 0 <= k < n implies #[trigger] read[k] == entry_result(
            entries[k],
        ) by {
            assert(position_of(names, k) == k);
        }
        assert forall|k: int| 0 <= k < n implies (#[trigger] read[k] == Ok::<
            ValueView,
            ErrorView,
        >(items[k]) <==> round_trips(items[k])) by {
            assert(read[k] == entry_result(entries[k]));
            assert(entries[k].node == explode(items[k])->Ok_0);
        }
        lemma_collect_ok(read, items);
        assert(implode(NodeView::Directory(entries)) == array_of(entries));
        if round_trips(value) {
            assert(collect(read) == Ok::<Seq<ValueView>, ErrorView>(items));
            assert forall|i: int| 0 <= i < n implies faithful(#[trigger] items[i]) by {
                assert(read[i] == Ok::<ValueView, ErrorView>(items[i]));
                assert(round_trips(items[i]));
            }
        }
        if faithful(value) {
            assert forall|k: int| 0 <= k < n implies #[trigger] read[k] == Ok::<
                ValueView,
                ErrorView,
            >(items[k]) by {
                assert(faithful(items[k]));
                assert(round_trips(items[k]));
            }
        }
    }
}

/// The round trip of a table.
proof fn lemma_round_trip_table(members: Seq<MemberView>)
    ensures
        round_trips(ValueView::Table(members)) <==> faithful(ValueView::Table(members)),
    decreases members,
{
    let value = ValueView::Table(members);
    let n = members.len() as int;
    let written = member_entries(members);
    assert forall|i: int| 0 <= i < n implies (round_trips((#[trigger] members[i]).value)
        <==> faithful(members[i].value)) by {
        lemma_round_trip(members[i].value);
    }
    if collect(written) is Err {
        let at = lemma_collect_err(written);
        assert(explode(members[at].value) is Err);
        assert(!round_trips(members[at].value));
        assert(!faithful(members[at].value));
    } else {
        let entries = collect(written)->Ok_0;
        lemma_collect_ok(written, entries);
        let names = entry_names(entries);
        assert forall|i: int| 0 <= i < n implies #[trigger] entries[i] == (EntryView {
            name: Some(members[i].key),
            node: explode(members[i].value)->Ok_0,
        }) && explode(members[i].value) is Ok by {
            assert(written[i] == Ok::<EntryView, ErrorView>(entries[i]));
        }
        assert(names =~= key_names(members));
        assert(implode(NodeView::Directory(entries)) == collection_of(entries));
        if !is_array_listing(names) && is_table_listing(names) {
            let read = child_results(entries);
            let values = Seq::new(members.len(), |i: int| members[i].value);
            assert forall|i: int| 0 <= i < n implies (#[trigger] read[i] == Ok::<
                ValueView,
                ErrorView,
            >(values[i]) <==> round_trips(members[i].value)) by {
                assert(read[i] == entry_result(entries[i]));
                assert(entries[i].node == explode(members[i].value)->Ok_0);
            }
            lemma_collect_ok(read, values);
            assert(members_of(names, values) =~= members);
            if round_trips(value) {
                let got = collect(read)->Ok_0;
                lemma_collect_ok(read, got);
                assert(members_of(names, got) == members);
                assert(got =~= values) by {
                    assert forall|i: int| 0 <= i < n implies got[i] == values[i] by {
                        assert(members_of(names, got)[i].value == got[i]);
                    }
                }
                assert forall|i: int| 0 <= i < n implies faithful(
                    (#[trigger] members[i]).value,
                ) by {
                    assert(read[i] == Ok::<ValueView, ErrorView>(values[i]));
                    assert(round_trips(members[i].value));
                }
            }
            if faithful(value) {
                assert forall|i: int| 0 <= i < n implies #[trigger] read[i] == Ok::<
                    ValueView,
                    ErrorView,
                >(values[i]) by {
                    assert(faithful(members[i].value));
                    assert(round_trips(members[i].value));
                }
            }
        }
    }
}

/// Whether a value tree is made of what is known to come back:
/// - truth values and 64-bit signed integers;
/// - strings that hold no control character, no double quote and no
///   backslash;
/// - floating-point literals that are not integer literals as well;
/// - dates and times whose literal the document format reads as that date
///   and time, and that no earlier grammar accepts;
/// - arrays of such values;
/// - tables of such values whose keys differ from one another and are not
///   the names of an array's listing, as those of the empty table are.
pub open spec fn portable(value: ValueView) -> bool
    decreases value,
{
    match value {
        ValueView::Boolean(_) => true,
        ValueView::Integer(v) => i64::MIN <= v <= i64::MAX,
        ValueView::String(s) => is_plain(s),
        ValueView::Float(text) => is_float_literal(text) && integer_literal(text) is None,
        ValueView::Datetime(d) => scalar_of(toml_datetime_text(d)) == Ok::<ValueView, ErrorView>(
            value,
        ),
        ValueView::Array(items) => forall|i: int|
            0 <= i < items.len() ==> portable(#[trigger] items[i]),
        ValueView::Table(members) => {
            &&& is_table_listing(key_names(members))
            &&& !is_array_listing(key_names(members))
            &&& forall|i: int| 0 <= i < members.len() ==> portable((#[trigger] members[i]).value)
        },
    }
}

/// A portable value tree is faithful.
pub proof fn lemma_portable_faithful(value: ValueView)
    requires
        portable(value),
    ensures
        faithful(value),
    decreases value,
{
    match value {
        ValueView::Boolean(b) => {
            lemma_boolean_faithful(b);
        },
        ValueView::Integer(v) => {
            lemma_integer_faithful(v);
        },
        ValueView::String(s) => {
            lemma_string_faithful(s);
        },
        ValueView::Float(text) => {
            lemma_float_faithful(text);
        },
        ValueView::Datetime(_) => {},
        ValueView::Array(items) => {
            assert forall|i: int| 0 <= i < items.len() implies faithful(#[trigger] items[i]) by {
                lemma_portable_faithful(items[i]);
            }
        },
        ValueView::Table(members) => {
            assert forall|i: int| 0 <= i < members.len() implies faithful(
                (#[trigger] members[i]).value,
            ) by {
                lemma_portable_faithful(members[i].value);
            }
        },
    }
}

/// A portable value tree comes back unchanged from its directory tree.
pub proof fn lemma_portable_round_trip(value: ValueView)
    requires
        portable(value),
    ensures
        round_trips(value),
{
    lemma_portable_faithful(value);
    lemma_round_trip(value);
}

} // verus!
