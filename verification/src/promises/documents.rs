//! Documents, and what they hold.

use crate::database;
use crate::index;
use crate::index::EntryView;
use crate::json;
use crate::json::{Json, JsonView};
use crate::promises::texts;
use crate::text;
use vstd::prelude::*;

verus! {

/// What an object holds under a key.
pub open spec fn at(v: JsonView, key: Seq<char>) -> Option<JsonView> {
    if v is Object && v->Object_0.dom().contains(key) {
        Some(v->Object_0[key])
    } else {
        None
    }
}

/// Each ticker comes before the next, so that none is there twice.
pub open spec fn in_order(entries: Seq<EntryView>) -> bool {
    forall|i: int, j: int|
        0 <= i < j < entries.len() ==> texts::precedes(
            (#[trigger] entries[i]).ticker,
            (#[trigger] entries[j]).ticker,
        )
}

pub proof fn lemma_in_order(entries: Seq<EntryView>)
    ensures
        in_order(entries) <==> index::strictly_sorted(entries),
{
    assert forall|i: int, j: int| 0 <= i < j < entries.len() implies (texts::precedes(
        (#[trigger] entries[i]).ticker,
        (#[trigger] entries[j]).ticker,
    ) <==> text::before(entries[i].ticker, entries[j].ticker)) by {
        texts::law_order_is_by_bytes(entries[i].ticker, entries[j].ticker);
    }
    if in_order(entries) {
        assert forall|i: int, j: int| 0 <= i < j < entries.len() implies text::before(
            (#[trigger] entries[i]).ticker,
            (#[trigger] entries[j]).ticker,
        ) by {
            assert(texts::precedes(entries[i].ticker, entries[j].ticker));
        }
    }
}

/// The bytes that an entry stands for.
pub open spec fn bytes_of(log: Seq<u8>, entry: EntryView) -> Seq<u8> {
    log.subrange(entry.offset as int, entry.offset + entry.len)
}

/// The log holds the record of this entry, and the record is this document.
pub open spec fn holds(log: Seq<u8>, entry: EntryView, doc: JsonView) -> bool {
    &&& entry.offset + entry.len <= log.len()
    &&& json::json_parsed(bytes_of(log, entry)) == Ok::<JsonView, Seq<char>>(doc)
}

/// Reading a record gives the document that the log holds for its entry, and fails where
/// there is none.
pub proof fn law_records_are_read_where_they_stand(log: Seq<u8>, entry: EntryView, doc: JsonView)
    ensures
        holds(log, entry, doc) <==> database::record_value(log, entry) == Ok::<
            JsonView,
            Seq<char>,
        >(doc),
        entry.offset + entry.len <= log.len() ==> database::raw_record(log, entry) == Some(
            bytes_of(log, entry),
        ),
        entry.offset + entry.len > log.len() ==> database::raw_record(log, entry) is None,
{
}

/// The `i`th pair is the last one with its key.
pub open spec fn is_last_pair(pairs: Seq<(String, Json)>, i: int) -> bool {
    &&& 0 <= i < pairs.len()
    &&& forall|j: int| i < j < pairs.len() ==> (#[trigger] pairs[j]).0@ != pairs[i].0@
}

/// An object holds under each key the value of the last pair with that key, and nothing
/// under any other.
pub proof fn law_object_holds_the_last_pairs(pairs: Seq<(String, Json)>, key: Seq<char>)
    ensures
        forall|i: int| #[trigger]
            is_last_pair(pairs, i) && pairs[i].0@ == key ==> at(
                JsonView::Object(json::fields_view(pairs)),
                key,
            ) == Some(pairs[i].1@),
        (forall|i: int| 0 <= i < pairs.len() ==> (#[trigger] pairs[i]).0@ != key) ==> at(
            JsonView::Object(json::fields_view(pairs)),
            key,
        ) is None,
    decreases pairs.len(),
{
    if pairs.len() > 0 {
        let rest = pairs.drop_last();
        let n = pairs.len() - 1;
        law_object_holds_the_last_pairs(rest, key);
        assert forall|i: int| #[trigger] is_last_pair(pairs, i) && pairs[i].0@ == key implies at(
            JsonView::Object(json::fields_view(pairs)),
            key,
        ) == Some(pairs[i].1@) by {
            if i < n {
                assert(pairs[n].0@ != key);
                assert(rest[i] == pairs[i]);
                assert forall|j: int| i < j < rest.len() implies (#[trigger] rest[j]).0@
                    != rest[i].0@ by {
                    assert(pairs[j].0@ != pairs[i].0@);
                }
                assert(is_last_pair(rest, i));
            }
        }
        if forall|i: int| 0 <= i < pairs.len() ==> (#[trigger] pairs[i]).0@ != key {
            assert(pairs[n].0@ != key);
            assert forall|i: int| 0 <= i < rest.len() implies (#[trigger] rest[i]).0@ != key by {
                assert(pairs[i].0@ != key);
            }
        }
    }
}

/// A list holds its items, in order.
pub proof fn law_list_holds_its_items(items: Seq<Json>)
    ensures
        json::items_view(items).len() == items.len(),
        forall|i: int|
            0 <= i < items.len() ==> #[trigger] json::items_view(items)[i] == items[i]@,
    decreases items.len(),
{
    if items.len() > 0 {
        law_list_holds_its_items(items.drop_last());
    }
}

} // verus!
