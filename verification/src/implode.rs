//! From a directory tree to a value tree.
//!
//! A file becomes the scalar that its content spells; a directory becomes an
//! array where its entry names are the indices `0`, `1`, ... of an array,
//! and a table otherwise.

use crate::error::{result_view, Error, ErrorKind, ErrorView};
use crate::foreign::{regex_first_group, toml_datetime, toml_parse_datetime};
use crate::literal::{
    boolean_literal, integer_literal, is_float_literal, line_ending_stripped, parse_boolean,
    parse_integer, quoted_content, recognize_float, strip_line_ending,
};
use crate::listing::{
    array_order, denotes, in_range, index_at, is_array_listing, is_table_listing,
    lemma_every_index_named, lemma_position_of, name_text, position_of, table_names,
};
use crate::node::{
    entries_view, entry_names, lemma_directory_view, Entry, EntryView, Node, NodeView,
};
use crate::outcome::{
    collect, lemma_collect_err, lemma_collect_ok, lemma_collect_push, lemma_collect_rest,
};
use crate::value::{
    lemma_array_view, lemma_table_view, members_view, values_view, Member, MemberView, Value,
    ValueView,
};
use vstd::prelude::*;

verus! {

/// The outcome for text that a grammar does not accept.
pub open spec fn no_scalar(content: Seq<char>) -> Result<ValueView, ErrorView> {
    Err(ErrorView::at_root(ErrorKind::ScalarInference, content))
}

/// What `input` is as a truth value.
pub open spec fn boolean_of(input: Seq<char>) -> Result<ValueView, ErrorView> {
    match boolean_literal(input) {
        Some(b) => Ok(ValueView::Boolean(b)),
        None => no_scalar(input),
    }
}

/// What `input` is as a quoted string.
pub open spec fn string_of(input: Seq<char>) -> Result<ValueView, ErrorView> {
    match quoted_content(input) {
        Some(content) => Ok(ValueView::String(content)),
        None => no_scalar(input),
    }
}

/// What `input` is as an integer.
pub open spec fn integer_of(input: Seq<char>) -> Result<ValueView, ErrorView> {
    match integer_literal(input) {
        Some(v) => Ok(ValueView::Integer(v)),
        None => no_scalar(input),
    }
}

/// What `input` is as a floating-point number.
pub open spec fn float_of(input: Seq<char>) -> Result<ValueView, ErrorView> {
    if is_float_literal(input) {
        Ok(ValueView::Float(input))
    } else {
        no_scalar(input)
    }
}

/// What `input` is as a date and time.
pub open spec fn datetime_of(input: Seq<char>) -> Result<ValueView, ErrorView> {
    match toml_datetime(input) {
        Some(d) => Ok(ValueView::Datetime(d)),
        None => no_scalar(input),
    }
}

/// The scalar that a file's content spells. One trailing line terminator is
/// set aside; then the grammars are tried in a fixed order, truth value,
/// quoted string, integer, floating-point number, date and time, and the
/// first that accepts the text decides.
pub open spec fn scalar_of(content: Seq<char>) -> Result<ValueView, ErrorView> {
    let text = line_ending_stripped(content);
    if boolean_of(text) is Ok {
        boolean_of(text)
    } else if string_of(text) is Ok {
        string_of(text)
    } else if integer_of(text) is Ok {
        integer_of(text)
    } else if float_of(text) is Ok {
        float_of(text)
    } else if datetime_of(text) is Ok {
        datetime_of(text)
    } else {
        no_scalar(content)
    }
}

/// Reads `input` as a truth value: exactly `true` or `false`.
pub fn deserialize_bool(input: &str) -> (r: Result<Value, Error>)
    ensures
        result_view(r) == boolean_of(input@),
{
    match parse_boolean(input) {
        Some(b) => Ok(Value::Boolean(b)),
        None => Err(Error::scalar_inference(input)),
    }
}

/// Reads `input` as a quoted string: text that begins and ends with a
/// double quote. What stands between the two is taken as it is, whatever it
/// holds, and may be nothing.
pub fn deserialize_str(input: &str) -> (r: Result<Value, Error>)
    ensures
        result_view(r) == string_of(input@),
{
    match regex_first_group("(?s)^\"(.*)\"$", input) {
        Some(content) => Ok(Value::String(content)),
        None => Err(Error::scalar_inference(input)),
    }
}

/// Reads `input` as a 64-bit signed integer in decimal notation.
pub fn deserialize_i64(input: &str) -> (r: Result<Value, Error>)
    ensures
        result_view(r) == integer_of(input@),
{
    match parse_integer(input) {
        Some(v) => Ok(Value::Integer(v)),
        None => Err(Error::scalar_inference(input)),
    }
}

/// Reads `input` as a floating-point literal, and keeps the literal.
pub fn deserialize_f64(input: &str) -> (r: Result<Value, Error>)
    ensures
        result_view(r) == float_of(input@),
{
    if recognize_float(input) {
        Ok(Value::Float(input.to_owned()))
    } else {
        Err(Error::scalar_inference(input))
    }
}

/// Reads `input` as a date and time of the document format.
pub fn deserialize_datetime(input: &str) -> (r: Result<Value, Error>)
    ensures
        result_view(r) == datetime_of(input@),
{
    match toml_parse_datetime(input) {
        Some(d) => Ok(Value::Datetime(d)),
        None => Err(Error::scalar_inference(input)),
    }
}

/// The scalar that a file's content spells.
pub fn infer_scalar(content: &str) -> (r: Result<Value, Error>)
    ensures
        result_view(r) == scalar_of(content@),
{
    let text = strip_line_ending(content);
    match deserialize_bool(text) {
        Ok(v) => {
            return Ok(v);
        },
        Err(_) => {},
    }
    match deserialize_str(text) {
        Ok(v) => {
            return Ok(v);
        },
        Err(_) => {},
    }
    match deserialize_i64(text) {
        Ok(v) => {
            return Ok(v);
        },
        Err(_) => {},
    }
    match deserialize_f64(text) {
        Ok(v) => {
            return Ok(v);
        },
        Err(_) => {},
    }
    match deserialize_datetime(text) {
        Ok(v) => {
            return Ok(v);
        },
        Err(_) => {},
    }
    Err(Error::scalar_inference(content))
}

/// The failure of a directory that is neither an array nor a table.
pub open spec fn no_collection() -> Result<ValueView, ErrorView> {
    Err(ErrorView::at_root(ErrorKind::Structure, Seq::empty()))
}

/// The value tree that a directory tree stands for.
pub open spec fn implode(node: NodeView) -> Result<ValueView, ErrorView>
    decreases node, 0int,
{
    match node {
        NodeView::File(content) => scalar_of(content),
        NodeView::Directory(entries) => collection_of(entries),
        NodeView::Other => Err(ErrorView::at_root(ErrorKind::NotFileOrDirectory, Seq::empty())),
    }
}

/// The value that an entry's subtree stands for; a failure in it is placed
/// under the entry's name.
pub open spec fn entry_result(entry: EntryView) -> Result<ValueView, ErrorView>
    decreases entry, 0int,
{
    match implode(entry.node) {
        Ok(v) => Ok(v),
        Err(e) => match entry.name {
            Some(name) => Err(e.under(name)),
            None => Err(e),
        },
    }
}

/// The outcomes of the entries of a listing, in its order.
pub open spec fn child_results(entries: Seq<EntryView>) -> Seq<Result<ValueView, ErrorView>>
    decreases entries, 0int,
{
    Seq::new(
        entries.len(),
        |i: int|
            if 0 <= i < entries.len() {
                entry_result(entries[i])
            } else {
                no_collection()
            },
    )
}

/// The outcomes of the entries of an array's listing, in the order of the
/// indices that their names denote.
pub open spec fn item_results(entries: Seq<EntryView>) -> Seq<Result<ValueView, ErrorView>>
    decreases entries, 1int,
{
    Seq::new(
        entries.len(),
        |k: int| child_results(entries)[position_of(entry_names(entries), k)],
    )
}

/// The array that a listing of an array stands for: item `k` is what the
/// entry whose name denotes `k` stands for. The first failure, by index,
/// fails the whole.
pub open spec fn array_of(entries: Seq<EntryView>) -> Result<ValueView, ErrorView>
    decreases entries, 2int,
{
    match collect(item_results(entries)) {
        Ok(items) => Ok(ValueView::Array(items)),
        Err(e) => Err(e),
    }
}

/// The members of a table whose keys are `names` and whose values are
/// `values`, pair by pair.
pub open spec fn members_of(names: Seq<Option<Seq<char>>>, values: Seq<ValueView>) -> Seq<
    MemberView,
> {
    Seq::new(values.len(), |i: int| MemberView { key: name_text(names[i]), value: values[i] })
}

/// The table that a listing of a table stands for: each name is a key, in
/// the order of the listing, and its value is what the entry stands for. The
/// first failure, in that order, fails the whole.
pub open spec fn table_of(entries: Seq<EntryView>) -> Result<ValueView, ErrorView>
    decreases entries, 2int,
{
    match collect(child_results(entries)) {
        Ok(values) => Ok(ValueView::Table(members_of(entry_names(entries), values))),
        Err(e) => Err(e),
    }
}

/// The collection that a directory's listing stands for: an array where the
/// names are those of an array, else a table where they are those of a
/// table.
pub open spec fn collection_of(entries: Seq<EntryView>) -> Result<ValueView, ErrorView>
    decreases entries, 3int,
{
    if is_array_listing(entry_names(entries)) {
        array_of(entries)
    } else if is_table_listing(entry_names(entries)) {
        table_of(entries)
    } else {
        no_collection()
    }
}

/// The empty directory is read as the empty array.
pub proof fn lemma_empty_directory()
    ensures
        is_array_listing(Seq::empty()),
        implode(NodeView::Directory(Seq::empty())) == Ok::<ValueView, ErrorView>(
            ValueView::Array(Seq::empty()),
        ),
{
    let entries = Seq::<EntryView>::empty();
    assert(entry_names(entries) =~= Seq::empty());
    assert(item_results(entries) =~= Seq::empty());
}

/// An array is read from its listing whatever the order of the listing.
/// Let `shuffled` list the entries of `entries` in another order, `from`
/// saying for each position of `shuffled` where in `entries` its entry
/// stands. Where `entries` is the listing of an array, so is `shuffled`, and
/// the same array is read from both.
pub proof fn lemma_array_any_order(
    entries: Seq<EntryView>,
    shuffled: Seq<EntryView>,
    from: Seq<int>,
)
    requires
        shuffled.len() == entries.len(),
        from.len() == entries.len(),
        forall|i: int| 0 <= i < from.len() ==> 0 <= #[trigger] from[i] < entries.len(),
        forall|i: int, j: int| 0 <= i < j < from.len() ==> #[trigger] from[i] != #[trigger] from[j],
        forall|i: int| 0 <= i < shuffled.len() ==> #[trigger] shuffled[i] == entries[from[i]],
    ensures
        is_array_listing(entry_names(entries)) ==> is_array_listing(entry_names(shuffled))
            && array_of(shuffled) == array_of(entries),
{
    let names = entry_names(entries);
    let moved = entry_names(shuffled);
    if is_array_listing(names) {
        assert forall|i: int| 0 <= i < moved.len() implies index_at(moved, i) == index_at(
            names,
            from[i],
        ) by {
            assert(shuffled[i] == entries[from[i]]);
        }
        assert forall|i: int| 0 <= i < moved.len() implies #[trigger] in_range(moved, i) by {
            assert(in_range(names, from[i]));
        }
        assert forall|i: int, j: int| 0 <= i < j < moved.len() implies #[trigger] index_at(
            moved,
            i,
        ) != #[trigger] index_at(moved, j) by {
            assert(from[i] != from[j]);
            if from[i] < from[j] {
                assert(index_at(names, from[i]) != index_at(names, from[j]));
            } else {
                assert(index_at(names, from[j]) != index_at(names, from[i]));
            }
        }
        assert forall|k: int| 0 <= k < entries.len() implies #[trigger] item_results(shuffled)[k]
            == item_results(entries)[k] by {
            lemma_every_index_named(moved, k);
            let at = position_of(moved, k);
            assert(denotes(moved, at, k));
            assert(denotes(names, from[at], k));
            lemma_position_of(names, from[at], k);
            assert(shuffled[at] == entries[from[at]]);
        }
        assert(item_results(shuffled) =~= item_results(entries));
    }
}

/// A readable tree fails to be read only on the content of a file: where
/// reading it fails, some file in it spells no scalar.
pub proof fn lemma_readable_fails_on_content(node: NodeView)
    requires
        node.readable(),
    ensures
        implode(node) matches Err(e) ==> e.kind == ErrorKind::ScalarInference,
    decreases node,
{
    match node {
        NodeView::Directory(entries) => {
            let names = entry_names(entries);
            let read = child_results(entries);
            assert forall|i: int| 0 <= i < entries.len() implies (#[trigger] read[i] matches Err(e)
                ==> e.kind == ErrorKind::ScalarInference) by {
                assert(entries[i].node.readable());
                lemma_readable_fails_on_content(entries[i].node);
            }
            assert forall|i: int| 0 <= i < names.len() implies (#[trigger] names[i]) is Some by {
                assert(entries[i].name is Some);
            }
            assert forall|i: int, j: int| 0 <= i < j < names.len() implies names[i]
                != names[j] by {
                assert(entries[i].name != entries[j].name);
            }
            assert(is_table_listing(names));
            if is_array_listing(names) {
                let ordered = item_results(entries);
                if collect(ordered) is Err {
                    let k = lemma_collect_err(ordered);
                    lemma_every_index_named(names, k);
                    let at = position_of(names, k);
                    assert(denotes(names, at, k));
                    assert(ordered[k] == read[at]);
                }
            } else {
                if collect(read) is Err {
                    let at = lemma_collect_err(read);
                    assert(read[at] is Err);
                }
            }
        },
        _ => {},
    }
}

/// What is read from a directory tree is a valid value tree.
pub proof fn lemma_implode_well_formed(node: NodeView)
    ensures
        implode(node) matches Ok(value) ==> value.well_formed(),
    decreases node, 0int,
{
    match node {
        NodeView::Directory(entries) => {
            lemma_array_well_formed(entries);
            lemma_table_well_formed(entries);
        },
        _ => {},
    }
}

/// What is read from the entries of a listing is valid, entry by entry.
proof fn lemma_children_well_formed(entries: Seq<EntryView>)
    ensures
        forall|i: int|
            0 <= i < entries.len() ==> (#[trigger] child_results(entries)[i] matches Ok(v)
                ==> v.well_formed()),
    decreases entries, 0int,
{
    assert forall|i: int| 0 <= i < entries.len() implies (#[trigger] child_results(
        entries,
    )[i] matches Ok(v) ==> v.well_formed()) by {
        lemma_implode_well_formed(entries[i].node);
    }
}

/// The array that is read from a listing is a valid value tree.
pub proof fn lemma_array_well_formed(entries: Seq<EntryView>)
    ensures
        is_array_listing(entry_names(entries)) ==> (array_of(entries) matches Ok(value)
            ==> value.well_formed()),
    decreases entries, 1int,
{
    let names = entry_names(entries);
    let read = child_results(entries);
    let ordered = item_results(entries);
    lemma_children_well_formed(entries);
    if is_array_listing(names) && collect(ordered) is Ok {
        let items = collect(ordered)->Ok_0;
        lemma_collect_ok(ordered, items);
        assert forall|k: int| 0 <= k < items.len() implies (#[trigger] items[k]).well_formed() by {
            lemma_every_index_named(names, k);
            let at = position_of(names, k);
            assert(denotes(names, at, k));
            assert(ordered[k] == read[at]);
        }
    }
}

/// The table that is read from a listing is a valid value tree.
pub proof fn lemma_table_well_formed(entries: Seq<EntryView>)
    ensures
        is_table_listing(entry_names(entries)) ==> (table_of(entries) matches Ok(value)
            ==> value.well_formed()),
    decreases entries, 1int,
{
    let names = entry_names(entries);
    let read = child_results(entries);
    lemma_children_well_formed(entries);
    if is_table_listing(names) && collect(read) is Ok {
        let values = collect(read)->Ok_0;
        lemma_collect_ok(read, values);
        let members = members_of(names, values);
        assert forall|i: int| 0 <= i < members.len() implies (
        #[trigger] members[i]).value.well_formed() by {
            assert(read[i] == Ok::<ValueView, ErrorView>(values[i]));
        }
        assert forall|i: int, j: int| 0 <= i < j < members.len() implies (
        #[trigger] members[i]).key != (#[trigger] members[j]).key by {
            assert(names[i] != names[j]);
            assert(names[i] is Some);
            assert(names[j] is Some);
        }
    }
}

/// Reads the entries of an array's listing in the order of their indices.
fn array_from_order(files: &Vec<Entry>, order: &Vec<usize>) -> (r: Result<Value, Error>)
    requires
        is_array_listing(entry_names(entries_view(files@))),
        order.len() == files.len(),
        forall|k: int|
            0 <= k < order.len() ==> denotes(
                entry_names(entries_view(files@)),
                #[trigger] order[k] as int,
                k,
            ),
    ensures
        result_view(r) == array_of(entries_view(files@)),
    decreases files, 0int,
{
    let n = files.len();
    let ghost entries = entries_view(files@);
    let ghost names = entry_names(entries);
    let ghost results = item_results(entries);
    let mut items: Vec<Value> = Vec::new();
    let mut k: usize = 0;
    assert(results.take(0) =~= Seq::empty());
    assert(values_view(items@) =~= Seq::empty());
    while k < n
        invariant
            k <= n,
            n == files.len(),
            order.len() == n,
            entries == entries_view(files@),
            names == entry_names(entries),
            results == item_results(entries),
            is_array_listing(names),
            forall|m: int| 0 <= m < order.len() ==> denotes(names, #[trigger] order[m] as int, m),
            collect(results.take(k as int)) == Ok::<Seq<ValueView>, ErrorView>(values_view(items@)),
        decreases n - k,
    {
        let at = order[k];
        assert(denotes(names, at as int, k as int));
        let entry = &files[at];
        proof {
            lemma_position_of(names, at as int, k as int);
            assert(results[k as int] == entry_result(entry@));
            assert(results.take(k as int).push(results[k as int]) =~= results.take(k + 1));
            lemma_collect_push(results.take(k as int), results[k as int]);
        }
        let ghost before = items@;
        match deserialize_any(&entry.node) {
            Ok(v) => {
                items.push(v);
                assert(values_view(items@) =~= values_view(before).push(v@));
            },
            Err(e) => {
                proof {
                    lemma_collect_rest(results, k + 1);
                    assert(results.take(n as int) =~= results);
                }
                match &entry.name {
                    Some(name) => {
                        return Err(e.under(name));
                    },
                    None => {
                        return Err(e);
                    },
                }
            },
        }
        k += 1;
    }
    proof {
        assert(results.take(n as int) =~= results);
        lemma_array_view(items);
    }
    Ok(Value::Array(items))
}

/// Reads a directory's entries as the items of an array. The listing must
/// be that of an array: the names denote the indices from 0 up to the number
/// of entries, each once.
pub fn deserialize_array(files: &Vec<Entry>) -> (r: Result<Value, Error>)
    ensures
        result_view(r) == (if is_array_listing(entry_names(entries_view(files@))) {
            array_of(entries_view(files@))
        } else {
            no_collection()
        }),
        r matches Ok(value) ==> value@.well_formed(),
    decreases files, 1int,
{
    proof {
        lemma_array_well_formed(entries_view(files@));
    }
    match array_order(files) {
        Some(order) => array_from_order(files, &order),
        None => Err(Error::new(ErrorKind::Structure)),
    }
}

/// Reads a directory's entries as the members of a table. Every name must
/// be text, and no name may occur twice.
pub fn deserialize_table(files: &Vec<Entry>) -> (r: Result<Value, Error>)
    ensures
        result_view(r) == (if is_table_listing(entry_names(entries_view(files@))) {
            table_of(entries_view(files@))
        } else {
            no_collection()
        }),
        r matches Ok(value) ==> value@.well_formed(),
    decreases files, 1int,
{
    proof {
        lemma_table_well_formed(entries_view(files@));
    }
    if !table_names(files) {
        return Err(Error::new(ErrorKind::Structure));
    }
    let n = files.len();
    let ghost entries = entries_view(files@);
    let ghost names = entry_names(entries);
    let ghost results = child_results(entries);
    let mut members: Vec<Member> = Vec::new();
    let mut i: usize = 0;
    assert(results.take(0) =~= Seq::empty());
    let ghost mut values: Seq<ValueView> = Seq::empty();
    while i < n
        invariant
            i <= n,
            n == files.len(),
            entries == entries_view(files@),
            names == entry_names(entries),
            results == child_results(entries),
            is_table_listing(names),
            collect(results.take(i as int)) == Ok::<Seq<ValueView>, ErrorView>(values),
            values.len() == i,
            members.len() == i,
            members_view(members@) == members_of(names, values),
        decreases n - i,
    {
        let entry = &files[i];
        proof {
            assert(results[i as int] == entry_result(entry@));
            assert(results.take(i as int).push(results[i as int]) =~= results.take(i + 1));
            lemma_collect_push(results.take(i as int), results[i as int]);
            assert(names[i as int] == entry@.name);
        }
        let ghost before = members@;
        match &entry.name {
            Some(name) => match deserialize_any(&entry.node) {
                Ok(v) => {
                    proof {
                        values = values.push(v@);
                    }
                    let key = name.clone();
                    assert(key@ == name@);
                    members.push(Member { key, value: v });
                    assert(members@ == before.push(members@[i as int]));
                    assert(members@[i as int]@ == MemberView { key: name@, value: v@ });
                    assert(name_text(names[i as int]) == name@);
                    assert forall|j: int| 0 <= j < i + 1 implies members_view(members@)[j]
                        == members_of(names, values)[j] by {
                        if j < i {
                            assert(members_view(before)[j] == members_of(
                                names,
                                values.drop_last(),
                            )[j]);
                        }
                    }
                    assert(members_view(members@) =~= members_of(names, values));
                },
                Err(e) => {
                    proof {
                        lemma_collect_rest(results, i + 1);
                    }
                    return Err(e.under(name));
                },
            },
            None => {
                assert(names[i as int] is Some);
                return Err(Error::new(ErrorKind::Structure));
            },
        }
        i += 1;
    }
    proof {
        assert(results.take(n as int) =~= results);
        lemma_table_view(members);
    }
    Ok(Value::Table(members))
}

/// Reads a directory tree as a value tree.
pub fn deserialize_any(node: &Node) -> (r: Result<Value, Error>)
    ensures
        result_view(r) == implode(node@),
        r matches Ok(value) ==> value@.well_formed(),
    decreases node, 0int,
{
    proof {
        lemma_implode_well_formed(node@);
    }
    match node {
        Node::File(content) => infer_scalar(content.as_str()),
        Node::Directory(entries) => {
            proof {
                lemma_directory_view(*entries);
            }
            match array_order(entries) {
                Some(order) => array_from_order(entries, &order),
                None => deserialize_table(entries),
            }
        },
        Node::Other => Err(Error::new(ErrorKind::NotFileOrDirectory)),
    }
}

} // verus!
