//! What the names of a directory's entries say of the directory: whether it
//! stands for an array or for a table.

use crate::literal::{index_literal, parse_index};
use crate::node::{entries_view, entry_names, Entry};
use crate::text::same_text;
use vstd::prelude::*;
use vstd::set_lib::{lemma_int_range, lemma_subset_equality, set_int_range};

verus! {

/// The array index that an entry name denotes.
pub open spec fn entry_index(name: Option<Seq<char>>) -> Option<nat> {
    match name {
        Some(text) => index_literal(text),
        None => None,
    }
}

/// The index that the name at position `i` of a listing denotes; `-1` where
/// it denotes none.
pub open spec fn index_at(names: Seq<Option<Seq<char>>>, i: int) -> int {
    match entry_index(names[i]) {
        Some(k) => k as int,
        None => -1,
    }
}

/// Whether the name at position `i` of a listing denotes an index below the
/// number of names.
pub open spec fn in_range(names: Seq<Option<Seq<char>>>, i: int) -> bool {
    0 <= index_at(names, i) < names.len()
}

/// Whether a listing is that of an array: every name denotes an index below
/// the number of names, and no two names denote the same index. The indices
/// are then `0`, `1`, ... up to the number of names, each once, in whatever
/// order the names are listed. The empty listing is that of the empty array.
pub open spec fn is_array_listing(names: Seq<Option<Seq<char>>>) -> bool {
    &&& forall|i: int| 0 <= i < names.len() ==> #[trigger] in_range(names, i)
    &&& forall|i: int, j: int|
        0 <= i < j < names.len() ==> #[trigger] index_at(names, i) != #[trigger] index_at(
            names,
            j,
        )
}

/// Whether the name at position `i` of a listing denotes the index `k`.
pub open spec fn denotes(names: Seq<Option<Seq<char>>>, i: int, k: int) -> bool {
    0 <= i < names.len() && 0 <= k && index_at(names, i) == k
}

/// Whether some name of a listing denotes the index `k`.
pub open spec fn has_position(names: Seq<Option<Seq<char>>>, k: int) -> bool {
    exists|i: int| denotes(names, i, k)
}

/// The position in the listing of the entry whose name denotes `k`.
pub open spec fn position_of(names: Seq<Option<Seq<char>>>, k: int) -> int {
    choose|i: int| denotes(names, i, k)
}

/// Whether a listing is that of a table: every name is text, and no name
/// occurs twice.
pub open spec fn is_table_listing(names: Seq<Option<Seq<char>>>) -> bool {
    &&& forall|i: int| 0 <= i < names.len() ==> (#[trigger] names[i]) is Some
    &&& forall|i: int, j: int|
        #![trigger names[i], names[j]]
        0 <= i < j < names.len() ==> names[i] != names[j]
}

/// The text of a name; empty for a name that is no text.
pub open spec fn name_text(name: Option<Seq<char>>) -> Seq<char> {
    match name {
        Some(text) => text,
        None => Seq::empty(),
    }
}

/// In the listing of an array no index is left out: each index below the
/// number of names is denoted by some name.
pub proof fn lemma_every_index_named(names: Seq<Option<Seq<char>>>, k: int)
    requires
        is_array_listing(names),
        0 <= k < names.len(),
    ensures
        has_position(names, k),
{
    let n = names.len() as int;
    let indices = Seq::new(names.len(), |i: int| index_at(names, i));
    assert forall|i: int, j: int| 0 <= i < indices.len() && 0 <= j < indices.len() && i
        != j implies indices[i] != indices[j] by {
        if i < j {
            assert(index_at(names, i) != index_at(names, j));
        } else {
            assert(index_at(names, j) != index_at(names, i));
        }
    }
    indices.unique_seq_to_set();
    lemma_int_range(0, n);
    let range = set_int_range(0, n);
    assert forall|v: int| indices.to_set().contains(v) implies range.contains(v) by {
        let i = choose|i: int| 0 <= i < indices.len() && indices[i] == v;
        assert(in_range(names, i));
    }
    lemma_subset_equality(indices.to_set(), range);
    assert(range.contains(k));
    assert(indices.contains(k));
    let at = choose|i: int| 0 <= i < indices.len() && indices[i] == k;
    assert(denotes(names, at, k));
}

/// In the listing of an array, one position only holds the name that
/// denotes a given index.
pub proof fn lemma_position_of(names: Seq<Option<Seq<char>>>, i: int, k: int)
    requires
        is_array_listing(names),
        denotes(names, i, k),
    ensures
        position_of(names, k) == i,
{
    let p = position_of(names, k);
    assert(denotes(names, p, k));
    if p < i {
        assert(index_at(names, p) != index_at(names, i));
    } else if i < p {
        assert(index_at(names, i) != index_at(names, p));
    }
}

/// Two names that denote the same index keep a listing from being that of
/// an array, though each alone is the name of an index: `01` beside `1`.
pub proof fn lemma_duplicate_index(names: Seq<Option<Seq<char>>>, i: int, j: int)
    requires
        0 <= i < j < names.len(),
        index_at(names, i) == index_at(names, j),
    ensures
        !is_array_listing(names),
{
}

/// An index below the number of names that no name denotes keeps a listing
/// from being that of an array: `0` beside `2`.
pub proof fn lemma_missing_index(names: Seq<Option<Seq<char>>>, k: int)
    requires
        0 <= k < names.len(),
        forall|i: int| 0 <= i < names.len() ==> #[trigger] index_at(names, i) != k,
    ensures
        !is_array_listing(names),
{
    if is_array_listing(names) {
        lemma_every_index_named(names, k);
        let at = choose|i: int| denotes(names, i, k);
        assert(index_at(names, at) != k);
    }
}

/// A name that denotes no index, or an index that is not below the number
/// of names, keeps a listing from being that of an array.
pub proof fn lemma_foreign_name(names: Seq<Option<Seq<char>>>, i: int)
    requires
        0 <= i < names.len(),
        !(0 <= index_at(names, i) < names.len()),
    ensures
        !is_array_listing(names),
{
    assert(!in_range(names, i));
}

/// In the listing of an array the smallest index is zero and the largest is
/// the number of names less one.
pub proof fn lemma_array_listing_bounds(names: Seq<Option<Seq<char>>>)
    requires
        is_array_listing(names),
        names.len() > 0,
    ensures
        has_position(names, 0),
        has_position(names, names.len() - 1),
        forall|i: int|
            0 <= i < names.len() ==> 0 <= #[trigger] index_at(names, i) <= names.len() - 1,
{
    lemma_every_index_named(names, 0);
    lemma_every_index_named(names, names.len() - 1);
    assert forall|i: int| 0 <= i < names.len() implies 0 <= #[trigger] index_at(names, i)
        <= names.len() - 1 by {
        assert(in_range(names, i));
    }
}

/// For each index of an array, the position in `files` of the entry whose
/// name denotes it; `None` where the listing is not that of an array.
pub fn array_order(files: &Vec<Entry>) -> (r: Option<Vec<usize>>)
    ensures
        match r {
            Some(order) => {
                &&& is_array_listing(entry_names(entries_view(files@)))
                &&& order.len() == files.len()
                &&& forall|k: int|
                    0 <= k < order.len() ==> denotes(
                        entry_names(entries_view(files@)),
                        #[trigger] order[k] as int,
                        k,
                    )
            },
            None => !is_array_listing(entry_names(entries_view(files@))),
        },
{
    let n = files.len();
    let ghost names = entry_names(entries_view(files@));
    let mut slots: Vec<usize> = Vec::new();
    let mut k: usize = 0;
    while k < n
        invariant
            k <= n,
            slots.len() == k,
            forall|m: int| 0 <= m < k ==> slots[m] == n,
        decreases n - k,
    {
        slots.push(n);
        k += 1;
    }
    let mut i: usize = 0;
    while i < n
        invariant
            i <= n,
            n == files.len(),
            n == names.len(),
            slots.len() == n,
            names == entry_names(entries_view(files@)),
            forall|j: int|
                0 <= j < i ==> #[trigger] in_range(names, j) && slots[index_at(names, j)] == j,
            forall|m: int|
                0 <= m < n ==> #[trigger] slots[m] == n || (slots[m] < i && index_at(
                    names,
                    slots[m] as int,
                ) == m),
        decreases n - i,
    {
        assert(names[i as int] == files@[i as int]@.name);
        match &files[i].name {
            None => {
                assert(!in_range(names, i as int));
                return None;
            },
            Some(name) => match parse_index(name.as_str(), n) {
                None => {
                    assert(!in_range(names, i as int));
                    return None;
                },
                Some(k) => {
                    assert(index_at(names, i as int) == k);
                    if slots[k] != n {
                        let ghost earlier = slots[k as int] as int;
                        assert(index_at(names, earlier) == index_at(names, i as int));
                        return None;
                    }
                    let ghost before = slots@;
                    slots.set(k, i);
                    assert forall|j: int| 0 <= j < i + 1 implies #[trigger] in_range(names, j)
                        && slots[index_at(names, j)] == j by {
                        if j < i {
                            assert(in_range(names, j));
                            assert(before[index_at(names, j)] == j);
                        }
                    }
                },
            },
        }
        i += 1;
    }
    proof {
        assert forall|i: int, j: int| 0 <= i < j < names.len() implies #[trigger] index_at(
            names,
            i,
        ) != #[trigger] index_at(names, j) by {
            assert(in_range(names, i));
            assert(in_range(names, j));
        }
        assert forall|k: int| 0 <= k < slots.len() implies denotes(
            names,
            #[trigger] slots[k] as int,
            k,
        ) by {
            lemma_every_index_named(names, k);
            let at = choose|i: int| denotes(names, i, k);
            assert(in_range(names, at));
            assert(slots[index_at(names, at)] == at);
        }
    }
    Some(slots)
}

/// Whether the listing is that of a table.
pub fn table_names(files: &Vec<Entry>) -> (r: bool)
    ensures
        r == is_table_listing(entry_names(entries_view(files@))),
{
    let n = files.len();
    let ghost names = entry_names(entries_view(files@));
    let mut i: usize = 0;
    while i < n
        invariant
            i <= n,
            n == files.len(),
            names == entry_names(entries_view(files@)),
            forall|a: int| 0 <= a < i ==> (#[trigger] names[a]) is Some,
            forall|a: int, b: int|
                #![trigger names[a], names[b]]
                0 <= a < b < i ==> names[a] != names[b],
        decreases n - i,
    {
        assert(names[i as int] == files@[i as int]@.name);
        match &files[i].name {
            None => {
                return false;
            },
            Some(name) => {
                let mut j: usize = 0;
                while j < i
                    invariant
                        j <= i,
                        i < n,
                        n == files.len(),
                        names == entry_names(entries_view(files@)),
                        names[i as int] == Some(name@),
                        forall|a: int| 0 <= a < j ==> #[trigger] names[a] != names[i as int],
                    decreases i - j,
                {
                    assert(names[j as int] == files@[j as int]@.name);
                    match &files[j].name {
                        Some(other) => {
                            if same_text(other.as_str(), name.as_str()) {
                                assert(names[j as int] == names[i as int]);
                                return false;
                            }
                        },
                        None => {},
                    }
                    j += 1;
                }
            },
        }
        i += 1;
    }
    true
}

} // verus!
