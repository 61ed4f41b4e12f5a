//! The entries of an outline that have no title. `lopdf` passes over such entries when it reads an
//! outline; with an empty title put in they are read like the others.

use crate::access;
use crate::document;
use crate::outline;
use crate::outline::ObjectId;
use crate::subset;
use std::collections::BTreeSet;
use vstd::prelude::*;

verus! {

/// The entry of an outline that the dictionary `from` names as its first or as the next.
pub open spec fn follows(from: document::Entries, to: ObjectId) -> bool {
    ||| document::reference_at(from, document::key("First")) == Some(to)
    ||| document::reference_at(from, document::key("Next")) == Some(to)
}

/// `path` leads from the top of the outline to its last entry, each entry named by the one before.
pub open spec fn winds(
    objects: document::Objects,
    trailer: document::Entries,
    path: Seq<ObjectId>,
) -> bool {
    &&& path.len() > 0
    &&& document::outlines(objects, trailer) matches Some(top) && follows(top, path[0])
    &&& forall|i: int|
        0 <= i < path.len() ==> document::found_dictionary(objects, #[trigger] path[i]) is Some
    &&& forall|i: int, j: int|
        0 <= i && j == i + 1 && j < path.len() ==> follows(
            document::found_dictionary(objects, #[trigger] path[i])->0,
            #[trigger] path[j],
        )
}

/// The dictionary that `id` stands for is an entry of the outline: references lead to it from the
/// top.
pub open spec fn is_entry(
    objects: document::Objects,
    trailer: document::Entries,
    id: ObjectId,
) -> bool {
    exists|path: Seq<ObjectId>| #[trigger] winds(objects, trailer, path) && path.last() == id
}

/// An object, with an empty title put in where it is a dictionary without one.
pub open spec fn entitled_value(value: document::Value) -> document::Value {
    match value {
        document::Value::Dictionary(entries) => if entries.dom().contains(document::key("Title")) {
            value
        } else {
            document::Value::Dictionary(
                entries.insert(document::key("Title"), document::Value::Text(Seq::empty())),
            )
        },
        _ => value,
    }
}

/// The object is what an entry of the outline stands for.
pub open spec fn holds_entry(
    objects: document::Objects,
    trailer: document::Entries,
    end: ObjectId,
) -> bool {
    exists|id: ObjectId| #[trigger]
        is_entry(objects, trailer, id) && document::end_id(objects, id) == Some(end)
}

/// The objects, with an empty title put into every entry of the outline without one.
pub open spec fn entitled(
    objects: document::Objects,
    trailer: document::Entries,
) -> document::Objects {
    objects.map_entries(
        |id: ObjectId, value: document::Value|
            if holds_entry(objects, trailer, id) {
                entitled_value(value)
            } else {
                value
            },
    )
}

/// Every entry of the outline has a title.
pub open spec fn every_entry_is_titled(
    objects: document::Objects,
    trailer: document::Entries,
) -> bool {
    forall|id: ObjectId| #[trigger]
        is_entry(objects, trailer, id) ==> document::found_dictionary(
            objects,
            id,
        )->0.dom().contains(document::key("Title"))
}

/// Where every entry of the outline has a title, nothing is put in.
pub proof fn titled_outline_is_unchanged(objects: document::Objects, trailer: document::Entries)
    requires
        every_entry_is_titled(objects, trailer),
    ensures
        entitled(objects, trailer) == objects,
{
    let now = entitled(objects, trailer);
    assert forall|end: ObjectId| objects.dom().contains(end) implies #[trigger] now[end]
        == objects[end] by {
        if holds_entry(objects, trailer, end) {
            let id = choose|id: ObjectId| #[trigger]
                is_entry(objects, trailer, id) && document::end_id(objects, id) == Some(end);
            assert(document::found(objects, id) == Some(objects[end]));
        }
    }
    assert(now =~= objects);
}

/// The numbers are those of the identifiers.
spec fn records(seen: Set<u64>, ids: Seq<ObjectId>) -> bool {
    forall|id: ObjectId| #[trigger]
        seen.contains(outline::id_key(id) as u64) <==> ids.contains(id)
}

/// Adds the entry that a dictionary names under a name to those found so far, unless it was found
/// before or is no dictionary.
fn add_named(
    doc: &lopdf::Document,
    from: &lopdf::Dictionary,
    name: &str,
    ids: &mut Vec<ObjectId>,
    seen: &mut BTreeSet<u64>,
)
    requires
        records(old(seen)@, old(ids)@),
    ensures
        records(final(seen)@, final(ids)@),
        final(ids)@ == (match document::reference_at(
            document::dictionary_entries(*from),
            document::key(name),
        ) {
            Some(id) => if document::found_dictionary(document::document_objects(*doc), id) is None
                || old(ids)@.contains(id) {
                old(ids)@
            } else {
                old(ids)@.push(id)
            },
            None => old(ids)@,
        }),
        forall|id: ObjectId| old(ids)@.contains(id) ==> #[trigger] final(ids)@.contains(id),
        document::reference_at(
            document::dictionary_entries(*from),
            document::key(name),
        ) matches Some(id) ==> document::found_dictionary(
            document::document_objects(*doc),
            id,
        ) is None || final(ids)@.contains(id),
{
    broadcast use vstd::std_specs::btree::group_btree_axioms;

    if let Ok(id) = access::get_reference(from, name) {
        if access::get_dictionary(doc, id).is_ok() {
            let number: u64 = outline::object_key(id);
            assert(seen@.contains(outline::id_key(id) as u64) <==> ids@.contains(id));
            if !seen.contains(&number) {
                let ghost before = ids@;
                let ghost known = seen@;
                ids.push(id);
                seen.insert(number);
                proof {
                    assert forall|other: ObjectId| before.contains(
                        other,
                    ) implies #[trigger] ids@.contains(other) by {
                        outline::lemma_push_contains(before, id, other);
                    }
                    outline::lemma_push_contains(before, id, id);
                    assert forall|other: ObjectId| #[trigger]
                        seen@.contains(outline::id_key(other) as u64) <==> ids@.contains(
                            other,
                        ) by {
                        outline::lemma_push_contains(before, id, other);
                        assert(known.contains(outline::id_key(other) as u64) <==> before.contains(
                            other,
                        ));
                    }
                }
            }
        }
    }
}

proof fn lemma_longer_way(
    objects: document::Objects,
    trailer: document::Entries,
    from: ObjectId,
    to: ObjectId,
)
    requires
        is_entry(objects, trailer, from),
        document::found_dictionary(objects, from) matches Some(node) && follows(node, to),
        document::found_dictionary(objects, to) is Some,
    ensures
        is_entry(objects, trailer, to),
{
    let path = choose|path: Seq<ObjectId>| #[trigger]
        winds(objects, trailer, path) && path.last() == from;
    let longer = path.push(to);
    assert forall|i: int| 0 <= i < longer.len() implies document::found_dictionary(
        objects,
        #[trigger] longer[i],
    ) is Some by {
        if i < path.len() {
            assert(longer[i] == path[i]);
        }
    }
    assert forall|i: int, j: int| 0 <= i && j == i + 1 && j < longer.len() implies follows(
        document::found_dictionary(objects, #[trigger] longer[i])->0,
        #[trigger] longer[j],
    ) by {
        assert(longer[i] == path[i]);
        if j < path.len() {
            assert(longer[j] == path[j]);
        }
    }
    assert(longer[0] == path[0]);
    assert(winds(objects, trailer, longer));
    assert(longer.last() == to);
}

/// The identifiers hold every entry that `from` names.
spec fn holds_named(
    objects: document::Objects,
    ids: Seq<ObjectId>,
    from: document::Entries,
) -> bool {
    forall|to: ObjectId|
        follows(from, to) && document::found_dictionary(objects, to) is Some ==> #[trigger] ids.contains(
            to,
        )
}

/// Identifiers that hold what the top names, and what each of them names, hold every entry.
proof fn lemma_all_found(
    objects: document::Objects,
    trailer: document::Entries,
    ids: Seq<ObjectId>,
    path: Seq<ObjectId>,
    n: nat,
)
    requires
        winds(objects, trailer, path),
        n < path.len(),
        document::outlines(objects, trailer) matches Some(top) && holds_named(objects, ids, top),
        forall|k: int|
            0 <= k < ids.len() ==> holds_named(
                objects,
                ids,
                document::found_dictionary(objects, #[trigger] ids[k])->0,
            ),
    ensures
        ids.contains(path[n as int]),
    decreases n,
{
    assert(document::found_dictionary(objects, path[n as int]) is Some);
    if n > 0 {
        lemma_all_found(objects, trailer, ids, path, (n - 1) as nat);
        let k = choose|k: int| 0 <= k < ids.len() && ids[k] == path[n - 1];
        assert(holds_named(objects, ids, document::found_dictionary(objects, ids[k])->0));
        assert(follows(document::found_dictionary(objects, path[n - 1])->0, path[n as int]));
    }
}

/// The entries of the outline.
fn list_outline(doc: &lopdf::Document) -> (ids: Vec<ObjectId>)
    ensures
        forall|id: ObjectId|
            is_entry(document::document_objects(*doc), document::document_trailer(*doc), id)
                <==> #[trigger] ids@.contains(id),
{
    broadcast use vstd::std_specs::btree::group_btree_axioms;

    let ghost objects = document::document_objects(*doc);
    let ghost trailer = document::document_trailer(*doc);
    let mut ids: Vec<ObjectId> = Vec::new();
    let mut seen: BTreeSet<u64> = BTreeSet::new();
    let top: &lopdf::Dictionary = match access::get_outlines_top(doc) {
        Some(top) => top,
        None => {
            return ids;
        },
    };
    let ghost above = document::dictionary_entries(*top);
    let total: usize = access::count_objects(doc);
    add_named(doc, top, "First", &mut ids, &mut seen);
    add_named(doc, top, "Next", &mut ids, &mut seen);
    proof {
        assert forall|k: int| 0 <= k < ids@.len() implies is_entry(
            objects,
            trailer,
            #[trigger] ids@[k],
        ) && document::found_dictionary(objects, ids@[k]) is Some by {
            let path = seq![ids@[k]];
            assert(winds(objects, trailer, path));
            assert(path.last() == ids@[k]);
        }
    }
    let mut i: usize = 0;
    while i < ids.len()
        invariant
            i <= ids@.len(),
            objects == document::document_objects(*doc),
            trailer == document::document_trailer(*doc),
            total == objects.dom().len(),
            objects.dom().finite(),
            records(seen@, ids@),
            ids@.no_duplicates(),
            forall|k: int|
                0 <= k < ids@.len() ==> is_entry(objects, trailer, #[trigger] ids@[k])
                    && document::found_dictionary(objects, ids@[k]) is Some,
            holds_named(objects, ids@, above),
            forall|k: int|
                0 <= k < i ==> holds_named(
                    objects,
                    ids@,
                    document::found_dictionary(objects, #[trigger] ids@[k])->0,
                ),
        decreases total - i,
    {
        let ghost before = ids@;
        proof {
            lemma_no_more_than(objects, ids@);
        }
        let at: ObjectId = ids[i];
        assert(document::found_dictionary(objects, ids@[i as int]) is Some);
        if let Ok(node) = access::get_dictionary(doc, at) {
            add_named(doc, node, "First", &mut ids, &mut seen);
            add_named(doc, node, "Next", &mut ids, &mut seen);
        }
        proof {
            let node = document::found_dictionary(objects, at)->0;
            assert(forall|id: ObjectId| before.contains(id) ==> #[trigger] ids@.contains(id));
            assert forall|k: int| 0 <= k < ids@.len() implies is_entry(
                objects,
                trailer,
                #[trigger] ids@[k],
            ) && document::found_dictionary(objects, ids@[k]) is Some by {
                if k < before.len() {
                    assert(ids@[k] == before[k]);
                } else {
                    assert(before[i as int] == at);
                    lemma_longer_way(objects, trailer, at, ids@[k]);
                }
            }
            assert(holds_named(objects, ids@, node));
            assert forall|k: int| 0 <= k < i + 1 implies holds_named(
                objects,
                ids@,
                document::found_dictionary(objects, #[trigger] ids@[k])->0,
            ) by {
                assert(ids@[k] == before[k]);
                if k < i {
                    assert(holds_named(
                        objects,
                        before,
                        document::found_dictionary(objects, before[k])->0,
                    ));
                }
            }
        }
        i = i + 1;
    }
    proof {
        assert forall|id: ObjectId| is_entry(objects, trailer, id) implies #[trigger] ids@.contains(
            id,
        ) by {
            let path = choose|path: Seq<ObjectId>| #[trigger]
                winds(objects, trailer, path) && path.last() == id;
            lemma_all_found(objects, trailer, ids@, path, (path.len() - 1) as nat);
        }
    }
    ids
}

proof fn lemma_no_more_than(objects: document::Objects, ids: Seq<ObjectId>)
    requires
        objects.dom().finite(),
        ids.no_duplicates(),
        forall|k: int|
            0 <= k < ids.len() ==> document::found_dictionary(objects, #[trigger] ids[k]) is Some,
    ensures
        ids.len() <= objects.dom().len(),
{
    ids.unique_seq_to_set();
    assert(ids.to_set().subset_of(objects.dom())) by {
        assert forall|id: ObjectId| ids.to_set().contains(id) implies objects.dom().contains(
            id,
        ) by {
            let k = choose|k: int| 0 <= k < ids.len() && ids[k] == id;
            assert(document::found_dictionary(objects, ids[k]) is Some);
        }
    }
    vstd::set_lib::lemma_len_subset(ids.to_set(), objects.dom());
}

/// A copy of the document with an empty title in every entry of the outline without one.
pub(crate) fn entitle(doc: &lopdf::Document) -> (copy: lopdf::Document)
    ensures
        document::document_objects(copy) == entitled(
            document::document_objects(*doc),
            document::document_trailer(*doc),
        ),
        document::document_trailer(copy) == document::document_trailer(*doc),
{
    let ghost objects = document::document_objects(*doc);
    let ghost trailer = document::document_trailer(*doc);
    let ids: Vec<ObjectId> = list_outline(doc);
    let mut copy: lopdf::Document = document::copy_document(doc);
    let mut i: usize = 0;
    while i < ids.len()
        invariant
            i <= ids@.len(),
            document::document_trailer(copy) == trailer,
            subset::same_references(objects, document::document_objects(copy)),
            forall|end: ObjectId|
                objects.dom().contains(end) ==> #[trigger] document::document_objects(copy)[end]
                    == (if subset::is_end(objects, ids@.take(i as int), end) {
                    entitled_value(objects[end])
                } else {
                    objects[end]
                }),
        decreases ids@.len() - i,
    {
        let ghost before = document::document_objects(copy);
        let ghost id = ids@[i as int];
        proof {
            document::lemma_target(objects, id, document::hop_limit());
            subset::lemma_same_end(objects, before, id, document::hop_limit());
        }
        if let Ok(dict) = subset::get_dictionary_mut(&mut copy, ids[i]) {
            if document::get_entry(dict, "Title").is_err() {
                document::set_entry(dict, "Title", document::text(Vec::new()));
            }
        }
        proof {
            let now = document::document_objects(copy);
            match document::end_id(objects, id) {
                Some(at) => {
                    assert(now =~= before.insert(at, entitled_value(before[at])));
                    assert(now.dom() =~= objects.dom());
                },
                None => {
                    assert(now =~= before);
                },
            }
            assert forall|end: ObjectId| objects.dom().contains(end) implies #[trigger] now[end]
                == (if subset::is_end(objects, ids@.take(i + 1), end) {
                entitled_value(objects[end])
            } else {
                objects[end]
            }) by {
                lemma_next_end(objects, ids@, i as int, end);
            }
        }
        i = i + 1;
    }
    proof {
        let now = document::document_objects(copy);
        assert(ids@.take(i as int) =~= ids@);
        assert forall|end: ObjectId| objects.dom().contains(end) implies #[trigger] now[end]
            == entitled(objects, trailer)[end] by {
            if subset::is_end(objects, ids@, end) {
                let k = choose|k: int|
                    0 <= k < ids@.len() && document::end_id(objects, #[trigger] ids@[k]) == Some(
                        end,
                    );
                assert(ids@.contains(ids@[k]));
                assert(holds_entry(objects, trailer, end));
            }
            if holds_entry(objects, trailer, end) {
                let id = choose|id: ObjectId| #[trigger]
                    is_entry(objects, trailer, id) && document::end_id(objects, id) == Some(end);
                assert(ids@.contains(id));
                let k = choose|k: int| 0 <= k < ids@.len() && ids@[k] == id;
                assert(document::end_id(objects, ids@[k]) == Some(end));
            }
        }
        assert(now =~= entitled(objects, trailer));
    }
    copy
}

proof fn lemma_next_end(objects: document::Objects, ids: Seq<ObjectId>, i: int, end: ObjectId)
    requires
        0 <= i < ids.len(),
    ensures
        subset::is_end(objects, ids.take(i + 1), end) <==> subset::is_end(
            objects,
            ids.take(i),
            end,
        ) || document::end_id(objects, ids[i]) == Some(end),
{
    let before = ids.take(i);
    let now = ids.take(i + 1);
    if subset::is_end(objects, before, end) {
        let k = choose|k: int|
            0 <= k < before.len() && document::end_id(objects, #[trigger] before[k]) == Some(end);
        assert(document::end_id(objects, now[k]) == Some(end));
    }
    assert(now[i] == ids[i]);
    if subset::is_end(objects, now, end) && document::end_id(objects, ids[i]) != Some(end) {
        let k = choose|k: int|
            0 <= k < now.len() && document::end_id(objects, #[trigger] now[k]) == Some(end);
        assert(document::end_id(objects, before[k]) == Some(end));
    }
}

/// In an outline of which the entries without a title were given one every entry has a title: its own
/// where it had one, else an empty one. Of the entries nothing else is changed, and of the other
/// objects nothing at all.
pub proof fn entries_get_empty_titles(
    objects: document::Objects,
    trailer: document::Entries,
    end: ObjectId,
    key: Seq<u8>,
)
    requires
        objects.dom().contains(end),
    ensures
        entitled(objects, trailer).dom() == objects.dom(),
        (forall|id: ObjectId| #[trigger]
            is_entry(objects, trailer, id) ==> document::end_id(objects, id) != Some(end))
            ==> entitled(objects, trailer)[end] == objects[end],
        (exists|id: ObjectId| #[trigger]
            is_entry(objects, trailer, id) && document::end_id(objects, id) == Some(end)) ==> (
        objects[end] matches document::Value::Dictionary(before) && (entitled(
            objects,
            trailer,
        )[end] matches document::Value::Dictionary(after) && {
            &&& after.dom().contains(document::key("Title"))
            &&& before.dom().contains(document::key("Title")) ==> after == before
            &&& !before.dom().contains(document::key("Title"))
                ==> after[document::key("Title")] == document::Value::Text(Seq::empty())
            &&& key != document::key("Title") ==> (after.dom().contains(key)
                <==> before.dom().contains(key)) && (before.dom().contains(key) ==> after[key]
                == before[key])
        })),
{
    assert(entitled(objects, trailer).dom() =~= objects.dom());
    if exists|id: ObjectId| #[trigger]
        is_entry(objects, trailer, id) && document::end_id(objects, id) == Some(end) {
        let id = choose|id: ObjectId| #[trigger]
            is_entry(objects, trailer, id) && document::end_id(objects, id) == Some(end);
        assert(holds_entry(objects, trailer, end));
        let path = choose|path: Seq<ObjectId>| #[trigger]
            winds(objects, trailer, path) && path.last() == id;
        assert(document::found_dictionary(objects, path[path.len() - 1]) is Some);
    }
}

/// What the top of an outline names as first or next is an entry, and so is what an entry names, if it
/// is a dictionary.
pub proof fn entries_name_entries(
    objects: document::Objects,
    trailer: document::Entries,
    from: ObjectId,
    to: ObjectId,
)
    requires
        document::found_dictionary(objects, to) is Some,
    ensures
        document::outlines(objects, trailer) matches Some(top) ==> (document::reference_at(
            top,
            document::key("First"),
        ) == Some(to) ==> is_entry(objects, trailer, to)),
        is_entry(objects, trailer, from) && (document::found_dictionary(objects, from) matches Some(
            node,
        ) && (document::reference_at(node, document::key("First")) == Some(to)
            || document::reference_at(node, document::key("Next")) == Some(to))) ==> is_entry(
            objects,
            trailer,
            to,
        ),
{
    if let Some(top) = document::outlines(objects, trailer) {
        if follows(top, to) {
            let path = seq![to];
            assert(winds(objects, trailer, path));
            assert(path.last() == to);
        }
    }
    if let Some(node) = document::found_dictionary(objects, from) {
        if is_entry(objects, trailer, from) && follows(node, to) {
            lemma_longer_way(objects, trailer, from, to);
        }
    }
}

} // verus!
