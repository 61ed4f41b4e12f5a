//! PDF documents: what they hold, as mathematical values, and what the `lopdf` crate does with
//! them.
//!
//! Everything in this file that Verus believes without proof is about `lopdf`: the types that it
//! declares, the names for what a document, a dictionary, an object or an outline holds, and the
//! contracts of the functions that call it. How much memory and stack these calls take is not stated.

use crate::outline::{ObjectId, OutlineItem, OutlineNode, Target, Title};
use vstd::prelude::*;
use vstd::string::*;

verus! {

/// `lopdf`'s document: its objects by identifier, its trailer, its version and the largest number of
/// an object. Of its cross-reference table, its binary mark, its own list of bookmarks and its
/// encryption state nothing is stated.
#[verifier::external_type_specification]
#[verifier::external_body]
pub struct ExDocument(lopdf::Document);

/// `lopdf`'s dictionary: objects by key.
#[verifier::external_type_specification]
#[verifier::external_body]
pub struct ExDictionary(lopdf::Dictionary);

/// `lopdf`'s object.
#[verifier::external_type_specification]
#[verifier::external_body]
pub struct ExObject(lopdf::Object);

/// `lopdf`'s error.
#[verifier::external_type_specification]
#[verifier::external_body]
pub struct ExError(lopdf::Error);

/// `lopdf`'s outline node.
#[verifier::external_type_specification]
#[verifier::external_body]
pub struct ExOutline(lopdf::Outline);

/// A dictionary, as a mathematical value.
pub type Entries = Map<Seq<u8>, Value>;

/// The objects of a document by identifier, as mathematical values.
pub type Objects = Map<ObjectId, Value>;

/// An object, as a mathematical value. The value of a real number and the notation of a text are
/// left out.
pub enum Value {
    Null,
    Boolean(bool),
    Integer(i64),
    Real,
    Name(Seq<u8>),
    Text(Seq<u8>),
    Array(Seq<Value>),
    Dictionary(Map<Seq<u8>, Value>),
    /// The entries of the stream's dictionary, and the stream's bytes.
    Stream(Map<Seq<u8>, Value>, Seq<u8>),
    Reference(ObjectId),
}

/// The bytes of a key.
pub open spec fn key(name: &str) -> Seq<u8> {
    name.spec_bytes()
}

/// Different names have different keys.
pub proof fn keys_differ(a: &str, b: &str)
    requires
        a@ != b@,
    ensures
        key(a) != key(b),
{
    vstd::utf8::encode_utf8_decode_utf8(a@);
    vstd::utf8::encode_utf8_decode_utf8(b@);
}

/// The objects that a document holds.
pub uninterp spec fn document_objects(doc: lopdf::Document) -> Map<ObjectId, Value>;

/// The entries of a document's trailer.
pub uninterp spec fn document_trailer(doc: lopdf::Document) -> Map<Seq<u8>, Value>;

/// The version of PDF that a document declares.
pub uninterp spec fn document_version(doc: lopdf::Document) -> Seq<char>;

/// The largest number that an object of a document was given.
pub uninterp spec fn document_max_id(doc: lopdf::Document) -> u32;

/// The entries of a dictionary.
pub uninterp spec fn dictionary_entries(dict: lopdf::Dictionary) -> Map<Seq<u8>, Value>;

/// What an object holds.
pub uninterp spec fn object_value(object: lopdf::Object) -> Value;

/// What a node of an outline holds.
pub uninterp spec fn outline_value(node: lopdf::Outline) -> OutlineNode;

/// The identifiers of a document's pages, in the order in which `lopdf::Document::page_iter`
/// walks the page tree.
pub uninterp spec fn page_order(objects: Map<ObjectId, Value>, trailer: Map<Seq<u8>, Value>) -> Seq<
    ObjectId,
>;

/// The outline that `lopdf::Document::get_outlines` reads, if it finds one.
pub uninterp spec fn outline_tree(
    objects: Map<ObjectId, Value>,
    trailer: Map<Seq<u8>, Value>,
) -> Option<Seq<OutlineNode>>;

/// The identifier at which the references that start at `id` end, unless one of them leads
/// nowhere or there are more than `hops` of them.
pub open spec fn target_id(objects: Objects, id: ObjectId, hops: nat) -> Option<ObjectId>
    decreases hops,
{
    if !objects.dom().contains(id) {
        None
    } else {
        match objects[id] {
            Value::Reference(next) => if hops == 0 {
                None
            } else {
                target_id(objects, next, (hops - 1) as nat)
            },
            _ => Some(id),
        }
    }
}

/// Following references ends at an object of the document that is not a reference.
pub proof fn lemma_target(objects: Objects, id: ObjectId, hops: nat)
    ensures
        target_id(objects, id, hops) matches Some(end) ==> objects.dom().contains(end)
            && objects[end] !is Reference,
    decreases hops,
{
    if objects.dom().contains(id) && hops > 0 {
        if let Value::Reference(next) = objects[id] {
            lemma_target(objects, next, (hops - 1) as nat);
        }
    }
}

/// How many references in a row are followed.
pub open spec fn hop_limit() -> nat {
    128
}

/// The identifier of the object that `id` stands for, with references followed.
pub open spec fn end_id(objects: Objects, id: ObjectId) -> Option<ObjectId> {
    target_id(objects, id, hop_limit())
}

/// The object that `id` stands for, with references followed.
pub open spec fn found(objects: Objects, id: ObjectId) -> Option<Value> {
    match target_id(objects, id, hop_limit()) {
        Some(end) => Some(objects[end]),
        None => None,
    }
}

/// The dictionary that `id` stands for, with references followed.
pub open spec fn found_dictionary(objects: Objects, id: ObjectId) -> Option<Entries> {
    match found(objects, id) {
        Some(Value::Dictionary(entries)) => Some(entries),
        _ => None,
    }
}

/// The identifier that an entry refers to.
pub open spec fn reference_at(entries: Entries, key: Seq<u8>) -> Option<ObjectId> {
    if entries.dom().contains(key) {
        match entries[key] {
            Value::Reference(id) => Some(id),
            _ => None,
        }
    } else {
        None
    }
}

/// The dictionary that an entry holds itself.
pub open spec fn dictionary_at(entries: Entries, key: Seq<u8>) -> Option<Entries> {
    if entries.dom().contains(key) {
        match entries[key] {
            Value::Dictionary(inner) => Some(inner),
            _ => None,
        }
    } else {
        None
    }
}

/// The dictionary that an entry holds or refers to.
pub open spec fn dictionary_under(objects: Objects, entries: Entries, key: Seq<u8>) -> Option<
    Entries,
> {
    match reference_at(entries, key) {
        Some(id) => found_dictionary(objects, id),
        None => dictionary_at(entries, key),
    }
}

/// The identifier of the document's catalog.
pub open spec fn catalog_id(trailer: Entries) -> Option<ObjectId> {
    reference_at(trailer, key("Root"))
}

/// The document's catalog.
pub open spec fn catalog(objects: Objects, trailer: Entries) -> Option<Entries> {
    match catalog_id(trailer) {
        Some(id) => found_dictionary(objects, id),
        None => None,
    }
}

/// The object has no list at its end, or one of at least two items.
pub open spec fn is_whole(objects: Objects, value: Value) -> bool {
    match settled(objects, value) {
        Some(Value::Array(items)) => items.len() >= 2,
        _ => true,
    }
}

/// The title is a text, or a reference that leads somewhere.
pub open spec fn is_title(objects: Objects, title: Value) -> bool {
    match title {
        Value::Text(_) => true,
        Value::Reference(id) => found(objects, id) is Some,
        _ => false,
    }
}

/// The destination of the outline entry `node` is a list of at least two items, where it is a list
/// and is looked at: `lopdf` takes its first two items without asking how many there are. An entry
/// with an action is asked for the action's destination, one without for its own.
pub open spec fn destination_is_whole(objects: Objects, node: Entries) -> bool {
    node.dom().contains(key("Title")) ==> (match dictionary_under(objects, node, key("A")) {
        Some(action) => names_jump(action) && is_title(objects, node[key("Title")])
            && action.dom().contains(key("D")) ==> is_whole(objects, action[key("D")]),
        None => node.dom().contains(key("Dest")) ==> is_whole(objects, node[key("Dest")]),
    })
}

/// The action jumps to a destination, in this document or in another one.
pub open spec fn names_jump(action: Entries) -> bool {
    action.dom().contains(key("S")) && (action[key("S")] == Value::Name(key("GoTo"))
        || action[key("S")] == Value::Name(key("GoToR")))
}

/// An object, with a reference followed.
pub open spec fn settled(objects: Objects, value: Value) -> Option<Value> {
    match value {
        Value::Reference(id) => found(objects, id),
        _ => Some(value),
    }
}

/// How reading a tree comes out: it is read to its end; or it is given up with an error; or it
/// never ends, or panics.
#[derive(Debug, Clone, Copy, PartialEq, Eq, Structural)]
pub enum Outcome {
    Read,
    GivenUp,
    Stuck,
}

/// How reading the outline from `node` comes out, along to no more than `count` entries there and
/// `reach` entries on each level below, and down to no more than `depth` levels. What stands below
/// an entry is read before what follows it. It is given up where what should stand below is not a
/// dictionary.
pub open spec fn outline_outcome(
    objects: Objects,
    node: Entries,
    depth: nat,
    count: nat,
    reach: nat,
) -> Outcome
    decreases depth, count,
{
    if count == 0 || !destination_is_whole(objects, node) {
        Outcome::Stuck
    } else {
        let below = if !node.dom().contains(key("First")) {
            Outcome::Read
        } else {
            match dictionary_under(objects, node, key("First")) {
                None => Outcome::GivenUp,
                Some(first) => if depth == 0 {
                    Outcome::Stuck
                } else {
                    outline_outcome(objects, first, (depth - 1) as nat, reach, reach)
                },
            }
        };
        if below != Outcome::Read {
            below
        } else {
            match dictionary_under(objects, node, key("Next")) {
                Some(next) => outline_outcome(objects, next, depth, (count - 1) as nat, reach),
                None => Outcome::Read,
            }
        }
    }
}

/// How reading a named destination that is a list comes out: the list has at least two items, and
/// the name is a text.
pub open spec fn list_outcome(name: Value, items: Seq<Value>) -> Outcome {
    if items.len() >= 2 && name is Text {
        Outcome::Read
    } else {
        Outcome::Stuck
    }
}

/// How reading a named destination that is a dictionary comes out.
pub open spec fn holder_outcome(name: Value, entries: Entries) -> Outcome {
    if !entries.dom().contains(key("D")) {
        Outcome::Stuck
    } else {
        match entries[key("D")] {
            Value::Array(items) => list_outcome(name, items),
            _ => Outcome::GivenUp,
        }
    }
}

/// How reading a named destination comes out. A list counts only where it is referred to.
pub open spec fn name_outcome(objects: Objects, name: Value, value: Value) -> Outcome {
    match value {
        Value::Reference(id) => match found(objects, id) {
            Some(Value::Dictionary(entries)) => holder_outcome(name, entries),
            Some(Value::Array(items)) => list_outcome(name, items),
            _ => Outcome::Read,
        },
        Value::Dictionary(entries) => holder_outcome(name, entries),
        _ => Outcome::Read,
    }
}

/// How reading a list comes out in which names and what they name alternate, up to the first `n`
/// pairs.
pub open spec fn pairs_outcome(objects: Objects, names: Seq<Value>, n: nat) -> Outcome
    decreases n,
{
    if n == 0 {
        Outcome::Read
    } else {
        let before = pairs_outcome(objects, names, (n - 1) as nat);
        if before != Outcome::Read {
            before
        } else {
            name_outcome(objects, names[2 * (n - 1)], names[2 * (n - 1) + 1])
        }
    }
}

/// How reading the first `n` of the trees of named destinations `kids`, each down to no more than
/// `depth` levels, comes out. One that is not a dictionary is passed over.
pub open spec fn kids_outcome(objects: Objects, kids: Seq<Value>, n: nat, depth: nat) -> Outcome
    decreases depth, 0nat, n,
{
    if n == 0 {
        Outcome::Read
    } else {
        let before = kids_outcome(objects, kids, (n - 1) as nat, depth);
        if before != Outcome::Read {
            before
        } else {
            match kids[n - 1] {
                Value::Reference(id) => match found_dictionary(objects, id) {
                    Some(kid) => if depth == 0 {
                        Outcome::Stuck
                    } else {
                        names_outcome(objects, kid, (depth - 1) as nat)
                    },
                    None => Outcome::Read,
                },
                _ => Outcome::Read,
            }
        }
    }
}

/// How reading the tree of named destinations from `tree`, down to no more than `depth` levels,
/// comes out. What stands below is read before the tree's own names. It is given up where one of
/// the two should be a list and is not.
pub open spec fn names_outcome(objects: Objects, tree: Entries, depth: nat) -> Outcome
    decreases depth, 1nat, 0nat,
{
    let below = if !tree.dom().contains(key("Kids")) {
        Outcome::Read
    } else {
        match tree[key("Kids")] {
            Value::Array(kids) => kids_outcome(objects, kids, kids.len(), depth),
            _ => Outcome::GivenUp,
        }
    };
    if below != Outcome::Read {
        below
    } else if !tree.dom().contains(key("Names")) {
        Outcome::Read
    } else {
        match tree[key("Names")] {
            Value::Array(names) => pairs_outcome(objects, names, names.len() / 2),
            _ => Outcome::GivenUp,
        }
    }
}

/// The tree of a document's named destinations.
pub open spec fn names_tree(objects: Objects, root: Entries) -> Option<Entries> {
    match dictionary_under(objects, root, key("Dests")) {
        Some(tree) => Some(tree),
        None => match dictionary_under(objects, root, key("Names")) {
            Some(names) => dictionary_under(objects, names, key("Dests")),
            None => None,
        },
    }
}

/// The dictionary at the top of the outline.
pub open spec fn outlines(objects: Objects, trailer: Entries) -> Option<
    Entries,
> {
    match catalog(objects, trailer) {
        Some(root) => dictionary_under(objects, root, key("Outlines")),
        None => None,
    }
}

/// The first entry of an outline; one without entries is taken for an entry itself.
pub open spec fn first_entry(objects: Objects, outlines: Entries) -> Entries {
    match dictionary_under(objects, outlines, key("First")) {
        Some(first) => first,
        None => outlines,
    }
}

/// Reading the document's outline, if it has one, comes to an end, with or without an error: down to
/// no more than `depth` levels, of the outline and of the tree of named destinations, and along to
/// no more than `reach` entries of the outline on each. The named destinations are read first;
/// where that is given up, so is the outline.
pub open spec fn outline_reads_within(
    objects: Objects,
    trailer: Entries,
    depth: nat,
    reach: nat,
) -> bool {
    catalog(objects, trailer) matches Some(root) ==> (dictionary_under(
        objects,
        root,
        key("Outlines"),
    ) matches Some(outlines) ==> {
        let named = match names_tree(objects, root) {
            Some(tree) => names_outcome(objects, tree, depth),
            None => Outcome::Read,
        };
        match named {
            Outcome::Read => outline_outcome(
                objects,
                first_entry(objects, outlines),
                depth,
                reach,
                reach,
            ) != Outcome::Stuck,
            Outcome::GivenUp => true,
            Outcome::Stuck => false,
        }
    })
}

/// Reading the document's outline, if it has one, comes to an end. On an outline that leads back
/// into itself `lopdf` does not return, and on one with a destination that is not whole it panics.
pub open spec fn outline_is_readable(objects: Objects, trailer: Entries) -> bool {
    exists|depth: nat, reach: nat| outline_reads_within(objects, trailer, depth, reach)
}

/// The object is a page.
pub open spec fn is_page(objects: Objects, id: ObjectId) -> bool {
    found_dictionary(objects, id) matches Some(entries) && entries.dom().contains(key("Type"))
        && entries[key("Type")] == Value::Name(key("Page"))
}

/// The identifier of the root of the page tree.
pub open spec fn root_id(objects: Objects, trailer: Entries) -> Option<ObjectId> {
    match catalog(objects, trailer) {
        Some(entries) => reference_at(entries, key("Pages")),
        None => None,
    }
}

/// The page tree is flat: its root lists exactly these pages, in order and each once.
pub open spec fn is_flat_tree(objects: Objects, trailer: Entries, pages: Seq<ObjectId>) -> bool {
    &&& root_id(objects, trailer) matches Some(root) && (found_dictionary(
        objects,
        root,
    ) matches Some(tree) && tree.dom().contains(key("Kids")) && tree[key("Kids")] == Value::Array(
        pages.map_values(|id: ObjectId| Value::Reference(id)),
    ))
    &&& pages.no_duplicates()
    &&& forall|i: int| 0 <= i < pages.len() ==> is_page(objects, #[trigger] pages[i])
}

/// The identifiers of the resources that a page takes over by reference, from itself and from
/// the nodes above it in the page tree, nearest first. There are none where the nodes above form
/// a circle or one of them is not a dictionary.
pub open spec fn resource_ids(
    objects: Objects,
    node: Entries,
    seen: Set<ObjectId>,
    steps: nat,
) -> Option<Seq<ObjectId>>
    decreases steps,
{
    let own = match reference_at(node, key("Resources")) {
        Some(id) => seq![id],
        None => Seq::empty(),
    };
    match reference_at(node, key("Parent")) {
        Some(parent) => if seen.contains(parent) || steps == 0 {
            None
        } else {
            match found_dictionary(objects, parent) {
                Some(above) => match resource_ids(
                    objects,
                    above,
                    seen.insert(parent),
                    (steps - 1) as nat,
                ) {
                    Some(rest) => Some(own + rest),
                    None => None,
                },
                None => None,
            }
        },
        None => Some(own),
    }
}

/// The resources of a page: those that its dictionary holds itself, and the identifiers of those
/// that it takes over by reference.
pub open spec fn page_resources(objects: Objects, page: ObjectId) -> Option<
    (Option<Entries>, Seq<ObjectId>),
> {
    match found_dictionary(objects, page) {
        Some(node) => match resource_ids(objects, node, Set::empty(), objects.dom().len()) {
            Some(ids) => Some((dictionary_at(node, key("Resources")), ids)),
            None => None,
        },
        None => Some((None, Seq::empty())),
    }
}

/// The object refers to `id`, itself or somewhere inside.
pub open spec fn mentions(value: Value, id: ObjectId) -> bool
    decreases value,
{
    match value {
        Value::Reference(other) => other == id,
        Value::Array(items) => exists|i: int|
            0 <= i < items.len() && mentions(#[trigger] items[i], id),
        Value::Dictionary(entries) => exists|k: Seq<u8>|
            entries.dom().contains(k) && mentions(#[trigger] entries[k], id),
        Value::Stream(entries, _) => exists|k: Seq<u8>|
            entries.dom().contains(k) && mentions(#[trigger] entries[k], id),
        _ => false,
    }
}

/// A dictionary mentions what one of its entries mentions.
pub proof fn lemma_entry_mentions(entries: Entries, k: Seq<u8>, id: ObjectId)
    requires
        entries.dom().contains(k),
        mentions(entries[k], id),
    ensures
        mentions(Value::Dictionary(entries), id),
{
    let value = Value::Dictionary(entries);
    assert(value->Dictionary_0 == entries);
    assert(mentions(value->Dictionary_0[k], id));
    assert(exists|other: Seq<u8>|
        value->Dictionary_0.dom().contains(other) && mentions(
            #[trigger] value->Dictionary_0[other],
            id,
        ));
}

/// A list mentions what one of its items mentions.
pub proof fn lemma_item_mentions(items: Seq<Value>, i: int, id: ObjectId)
    requires
        0 <= i < items.len(),
        mentions(items[i], id),
    ensures
        mentions(Value::Array(items), id),
{
    let value = Value::Array(items);
    assert(value->Array_0 == items);
    assert(mentions(value->Array_0[i], id));
    assert(exists|j: int|
        0 <= j < value->Array_0.len() && mentions(#[trigger] value->Array_0[j], id));
}

/// `path` leads from an entry of the trailer to `id`, each identifier referred to by the object
/// that the one before it stands for.
pub open spec fn leads_to(
    objects: Objects,
    trailer: Entries,
    path: Seq<ObjectId>,
    id: ObjectId,
) -> bool {
    &&& path.len() > 0
    &&& path.last() == id
    &&& mentions(Value::Dictionary(trailer), path[0])
    &&& forall|i: int| 0 <= i < path.len() - 1 ==> objects.dom().contains(#[trigger] path[i])
    &&& forall|i: int, j: int|
        0 <= i && j == i + 1 && j < path.len() ==> mentions(
            objects[#[trigger] path[i]],
            #[trigger] path[j],
        )
}

/// The object can be reached from the trailer.
pub open spec fn reachable(objects: Objects, trailer: Entries, id: ObjectId) -> bool {
    exists|path: Seq<ObjectId>| leads_to(objects, trailer, path, id)
}

/// The objects that can be reached from the trailer.
pub open spec fn pruned(objects: Objects, trailer: Entries) -> Objects {
    objects.restrict(Set::new(|id: ObjectId| reachable(objects, trailer, id)))
}

/// `lopdf::Document::page_iter`: the pages of the document, in order. Only pages are handed out, and
/// of a flat page tree all that it lists, in that order.
#[verifier::external_body]
pub(crate) fn page_ids(doc: &lopdf::Document) -> (ids: Vec<ObjectId>)
    ensures
        ids@ == page_order(document_objects(*doc), document_trailer(*doc)),
        forall|i: int| 0 <= i < ids@.len() ==> is_page(document_objects(*doc), #[trigger] ids@[i]),
        forall|flat: Seq<ObjectId>| #[trigger]
            is_flat_tree(document_objects(*doc), document_trailer(*doc), flat) ==> ids@ == flat,
{
    let mut ids = Vec::new();
    doc.page_iter().for_each(|id| ids.push(id));
    ids
}

/// `lopdf::Document::get_object`: the object that an identifier stands for. References are
/// followed, no more than 128 in a row; the call fails where one leads nowhere or there are more.
#[verifier::external_body]
pub(crate) fn get_object(doc: &lopdf::Document, id: ObjectId) -> (object: Result<
    &lopdf::Object,
    lopdf::Error,
>)
    ensures
        match object {
            Ok(object) => found(document_objects(*doc), id) == Some(object_value(*object)),
            Err(_) => found(document_objects(*doc), id) is None,
        },
{
    doc.get_object(id)
}

/// `lopdf::Document::get_object_mut`: the object that an identifier stands for, to be changed.
/// References are followed as `get_object` does, and the object at their end is the one that
/// changes.
#[verifier::external_body]
pub(crate) fn get_object_mut(doc: &mut lopdf::Document, id: ObjectId) -> (object: Result<
    &mut lopdf::Object,
    lopdf::Error,
>)
    ensures
        document_trailer(*final(doc)) == document_trailer(*old(doc)),
        document_version(*final(doc)) == document_version(*old(doc)),
        document_max_id(*final(doc)) == document_max_id(*old(doc)),
        match object {
            Ok(object) => target_id(document_objects(*old(doc)), id, hop_limit()) matches Some(end)
                && object_value(*object) == document_objects(*old(doc))[end] && document_objects(
                *final(doc),
            ) == document_objects(*old(doc)).insert(end, object_value(*final(object))),
            Err(_) => target_id(document_objects(*old(doc)), id, hop_limit()) is None
                && document_objects(*final(doc)) == document_objects(*old(doc)),
        },
{
    doc.get_object_mut(id)
}

/// The `trailer` of a `lopdf::Document`.
#[verifier::external_body]
pub(crate) fn trailer(doc: &lopdf::Document) -> (dict: &lopdf::Dictionary)
    ensures
        dictionary_entries(*dict) == document_trailer(*doc),
{
    &doc.trailer
}

/// The keys of the `objects` of a `lopdf::Document`, each once.
#[verifier::external_body]
pub(crate) fn object_ids(doc: &lopdf::Document) -> (ids: Vec<ObjectId>)
    ensures
        ids@.no_duplicates(),
        forall|id: ObjectId| #[trigger]
            document_objects(*doc).dom().contains(id) <==> ids@.contains(id),
{
    doc.objects.keys().copied().collect()
}

/// The `Clone` of a `lopdf::Document`: the copy holds the same objects and the same trailer, and has
/// the same version and largest number.
#[verifier::external_body]
pub(crate) fn copy_document(doc: &lopdf::Document) -> (copy: lopdf::Document)
    ensures
        document_objects(copy) == document_objects(*doc),
        document_trailer(copy) == document_trailer(*doc),
        document_version(copy) == document_version(*doc),
        document_max_id(copy) == document_max_id(*doc),
{
    doc.clone()
}

/// `lopdf::Document::prune_objects`: removes the objects that cannot be reached from the trailer
/// by following references, and leaves the others as they are.
#[verifier::external_body]
pub(crate) fn prune_objects(doc: &mut lopdf::Document)
    ensures
        document_trailer(*final(doc)) == document_trailer(*old(doc)),
        document_version(*final(doc)) == document_version(*old(doc)),
        document_max_id(*final(doc)) == document_max_id(*old(doc)),
        document_objects(*final(doc)) == pruned(
            document_objects(*old(doc)),
            document_trailer(*old(doc)),
        ),
{
    doc.prune_objects();
}

/// `lopdf::Document::get_page_resources`: the resources that the page's dictionary holds itself,
/// and the identifiers of those that it takes over by reference. Fails where the nodes above the
/// page form a circle or one of them is not a dictionary.
#[verifier::external_body]
pub(crate) fn get_page_resources(doc: &lopdf::Document, page: ObjectId) -> (resources: Result<
    (Option<&lopdf::Dictionary>, Vec<ObjectId>),
    lopdf::Error,
>)
    ensures
        match resources {
            Ok((own, ids)) => page_resources(document_objects(*doc), page) matches Some(
                (entries, expected),
            ) && ids@ == expected && (match own {
                Some(dict) => entries == Some(dictionary_entries(*dict)),
                None => entries is None,
            }),
            Err(_) => page_resources(document_objects(*doc), page) is None,
        },
{
    doc.get_page_resources(page)
}

/// `lopdf::Object::as_dict`: the dictionary that an object is.
#[verifier::external_body]
pub(crate) fn as_dict(object: &lopdf::Object) -> (dict: Result<&lopdf::Dictionary, lopdf::Error>)
    ensures
        match dict {
            Ok(dict) => object_value(*object) == Value::Dictionary(dictionary_entries(*dict)),
            Err(_) => object_value(*object) !is Dictionary,
        },
{
    object.as_dict()
}

/// `lopdf::Object::as_dict_mut`: the dictionary that an object is, to be changed.
#[verifier::external_body]
pub(crate) fn as_dict_mut(object: &mut lopdf::Object) -> (dict: Result<
    &mut lopdf::Dictionary,
    lopdf::Error,
>)
    ensures
        match dict {
            Ok(dict) => object_value(*old(object)) == Value::Dictionary(dictionary_entries(*dict))
                && object_value(*final(object)) == Value::Dictionary(
                dictionary_entries(*final(dict)),
            ),
            Err(_) => object_value(*old(object)) !is Dictionary && object_value(*final(object))
                == object_value(*old(object)),
        },
{
    object.as_dict_mut()
}

/// `lopdf::Object::as_stream`: the dictionary of the stream that an object is.
#[verifier::external_body]
pub(crate) fn as_stream(object: &lopdf::Object) -> (dict: Result<&lopdf::Dictionary, lopdf::Error>)
    ensures
        match dict {
            Ok(dict) => object_value(*object) matches Value::Stream(entries, _) && entries
                == dictionary_entries(*dict),
            Err(_) => object_value(*object) !is Stream,
        },
{
    object.as_stream().map(|stream| &stream.dict)
}

/// `lopdf::Object::as_reference`: the identifier that an object refers to.
#[verifier::external_body]
pub(crate) fn as_reference(object: &lopdf::Object) -> (id: Result<ObjectId, lopdf::Error>)
    ensures
        match id {
            Ok(id) => object_value(*object) == Value::Reference(id),
            Err(_) => object_value(*object) !is Reference,
        },
{
    object.as_reference()
}

/// `lopdf::Object::as_name`: the bytes of the name that an object is.
#[verifier::external_body]
pub(crate) fn as_name(object: &lopdf::Object) -> (name: Result<&[u8], lopdf::Error>)
    ensures
        match name {
            Ok(name) => object_value(*object) == Value::Name(name@),
            Err(_) => object_value(*object) !is Name,
        },
{
    object.as_name()
}

/// `lopdf::Object::as_str`: the bytes of the text that an object is.
#[verifier::external_body]
pub(crate) fn as_text(object: &lopdf::Object) -> (text: Result<&[u8], lopdf::Error>)
    ensures
        match text {
            Ok(text) => object_value(*object) == Value::Text(text@),
            Err(_) => object_value(*object) !is Text,
        },
{
    object.as_str()
}

/// `lopdf::Object::as_array`: the objects in the list that an object is.
#[verifier::external_body]
pub(crate) fn as_array(object: &lopdf::Object) -> (items: Result<&Vec<lopdf::Object>, lopdf::Error>)
    ensures
        match items {
            Ok(items) => object_value(*object) == Value::Array(
                items@.map_values(|item: lopdf::Object| object_value(item)),
            ),
            Err(_) => object_value(*object) !is Array,
        },
{
    object.as_array()
}

/// `lopdf::Object::Reference`: an object that refers to an identifier.
#[verifier::external_body]
pub(crate) fn reference(id: ObjectId) -> (object: lopdf::Object)
    ensures
        object_value(object) == Value::Reference(id),
{
    lopdf::Object::Reference(id)
}

/// `lopdf::Object::Integer`: an object that is a number.
#[verifier::external_body]
pub(crate) fn integer(n: i64) -> (object: lopdf::Object)
    ensures
        object_value(object) == Value::Integer(n),
{
    lopdf::Object::Integer(n)
}

/// `lopdf::Object::Array`: an object that is a list of objects.
#[verifier::external_body]
pub(crate) fn array(items: Vec<lopdf::Object>) -> (object: lopdf::Object)
    ensures
        object_value(object) == Value::Array(
            items@.map_values(|item: lopdf::Object| object_value(item)),
        ),
{
    lopdf::Object::Array(items)
}

/// `lopdf::Object::String`: an object that is a text.
#[verifier::external_body]
pub(crate) fn text(bytes: Vec<u8>) -> (object: lopdf::Object)
    ensures
        object_value(object) == Value::Text(bytes@),
{
    lopdf::Object::String(bytes, lopdf::StringFormat::Literal)
}

/// `lopdf::Dictionary::get`: the object under a key.
#[verifier::external_body]
pub(crate) fn get_entry<'a>(dict: &'a lopdf::Dictionary, name: &str) -> (entry: Result<
    &'a lopdf::Object,
    lopdf::Error,
>)
    ensures
        match entry {
            Ok(object) => dictionary_entries(*dict).dom().contains(key(name)) && object_value(
                *object,
            ) == dictionary_entries(*dict)[key(name)],
            Err(_) => !dictionary_entries(*dict).dom().contains(key(name)),
        },
{
    dict.get(name.as_bytes())
}

/// The `Clone` of a `lopdf::Object`: the copy has the same value.
#[verifier::external_body]
pub(crate) fn copy_object(object: &lopdf::Object) -> (copy: lopdf::Object)
    ensures
        object_value(copy) == object_value(*object),
{
    object.clone()
}

/// `lopdf::Dictionary::set`: puts an object under a key, in place of what was there.
#[verifier::external_body]
pub(crate) fn set_entry(dict: &mut lopdf::Dictionary, name: &str, object: lopdf::Object)
    ensures
        dictionary_entries(*final(dict)) == dictionary_entries(*old(dict)).insert(
            key(name),
            object_value(object),
        ),
{
    dict.set(name, object);
}

/// `lopdf::Dictionary::remove`: takes out what is under a key, if anything is.
#[verifier::external_body]
pub(crate) fn remove_entry(dict: &mut lopdf::Dictionary, name: &str)
    ensures
        dictionary_entries(*final(dict)) == dictionary_entries(*old(dict)).remove(key(name)),
{
    dict.remove(name.as_bytes());
}

/// `lopdf::Dictionary::iter`: the objects in a dictionary, in no stated order.
#[verifier::external_body]
pub(crate) fn entry_objects(dict: &lopdf::Dictionary) -> (objects: Vec<&lopdf::Object>)
    ensures
        forall|i: int|
            0 <= i < objects@.len() ==> exists|k: Seq<u8>|
                dictionary_entries(*dict).dom().contains(k) && dictionary_entries(*dict)[k]
                    == object_value(*#[trigger] objects@[i]),
        forall|k: Seq<u8>|
            dictionary_entries(*dict).dom().contains(k) ==> exists|i: int|
                0 <= i < objects@.len() && object_value(*objects@[i])
                    == #[trigger] dictionary_entries(*dict)[k],
{
    dict.iter().map(|(_, object)| object).collect()
}

/// `lopdf::Document::get_outlines`: the outline of a document. `None` where the document has
/// none, or one that cannot be read.
#[verifier::external_body]
pub(crate) fn get_outlines(doc: &lopdf::Document) -> (outline: Option<Vec<lopdf::Outline>>)
    requires
        outline_is_readable(document_objects(*doc), document_trailer(*doc)),
    ensures
        match outline {
            Some(nodes) => outline_tree(document_objects(*doc), document_trailer(*doc)) == Some(
                nodes@.map_values(|node: lopdf::Outline| outline_value(node)),
            ),
            None => outline_tree(document_objects(*doc), document_trailer(*doc)) is None,
        },
{
    doc.get_outlines(None, None, &mut indexmap::IndexMap::new()).ok().flatten()
}

/// `lopdf::Outline`, `lopdf::Destination::page` and `lopdf::Destination::title`: what a node of an
/// outline holds.
#[verifier::external_body]
pub(crate) fn outline_item(node: lopdf::Outline) -> (item: OutlineItem)
    ensures
        item.node() == outline_value(node),
{
    match node {
        lopdf::Outline::Destination(entry) => OutlineItem::Destination(
            match entry.page() {
                Ok(lopdf::Object::Reference(id)) => Target::Page(*id),
                Ok(lopdf::Object::Integer(index)) => Target::Index(*index),
                _ => Target::Other,
            },
            match entry.title() {
                Ok(lopdf::Object::String(bytes, _)) => Title::Text(bytes.clone()),
                Ok(lopdf::Object::Reference(id)) => Title::Reference(*id),
                _ => Title::Other,
            },
        ),
        lopdf::Outline::SubOutlines(nodes) => OutlineItem::SubOutlines(nodes.into_iter().map(outline_item).collect()),
    }
}

/// An identifier stands for the object at the end of its references: where each object of a path is a
/// reference to the next, and the last is none, the first stands for the last, unless there are
/// more references in a row than are followed.
pub proof fn references_are_followed(objects: Objects, path: Seq<ObjectId>)
    requires
        path.len() > 0,
        forall|i: int| 0 <= i < path.len() ==> objects.dom().contains(#[trigger] path[i]),
        forall|i: int, j: int|
            0 <= i && j == i + 1 && j < path.len() ==> objects[#[trigger] path[i]]
                == Value::Reference(#[trigger] path[j]),
        objects[path.last()] !is Reference,
    ensures
        path.len() <= 129 ==> end_id(objects, path[0]) == Some(path.last()) && found(
            objects,
            path[0],
        ) == Some(objects[path.last()]),
        path.len() > 129 ==> end_id(objects, path[0]) is None,
{
    lemma_follow(objects, path, hop_limit());
}

proof fn lemma_follow(objects: Objects, path: Seq<ObjectId>, hops: nat)
    requires
        path.len() > 0,
        forall|i: int| 0 <= i < path.len() ==> objects.dom().contains(#[trigger] path[i]),
        forall|i: int, j: int|
            0 <= i && j == i + 1 && j < path.len() ==> objects[#[trigger] path[i]]
                == Value::Reference(#[trigger] path[j]),
        objects[path.last()] !is Reference,
    ensures
        target_id(objects, path[0], hops) == (if path.len() <= hops + 1 {
            Some(path.last())
        } else {
            None
        }),
    decreases path.len(),
{
    assert(objects.dom().contains(path[0]));
    if path.len() > 1 {
        let rest = path.skip(1);
        assert(objects[path[0]] == Value::Reference(path[1]));
        assert forall|i: int| 0 <= i < rest.len() implies objects.dom().contains(
            #[trigger] rest[i],
        ) by {
            assert(rest[i] == path[i + 1]);
        }
        assert forall|i: int, j: int|
            0 <= i && j == i + 1 && j < rest.len() implies objects[#[trigger] rest[i]]
            == Value::Reference(#[trigger] rest[j]) by {
            assert(rest[i] == path[i + 1] && rest[j] == path[j + 1]);
        }
        if hops > 0 {
            lemma_follow(objects, rest, (hops - 1) as nat);
        }
    } else {
        assert(path[0] == path.last());
    }
}

/// The dictionary under an entry is the one that it holds, or the one that it refers to.
pub proof fn entries_hold_or_refer(objects: Objects, entries: Entries, k: Seq<u8>)
    ensures
        !entries.dom().contains(k) ==> dictionary_under(objects, entries, k) is None,
        entries.dom().contains(k) ==> match entries[k] {
            Value::Dictionary(inner) => dictionary_under(objects, entries, k) == Some(inner),
            Value::Reference(id) => dictionary_under(objects, entries, k) == (match found(
                objects,
                id,
            ) {
                Some(Value::Dictionary(inner)) => Some(inner),
                _ => None,
            }),
            _ => dictionary_under(objects, entries, k) is None,
        },
{
}

/// A document without an outline can be read for one.
pub proof fn missing_outlines_are_readable(objects: Objects, trailer: Entries)
    requires
        outlines(objects, trailer) is None,
    ensures
        outline_is_readable(objects, trailer),
{
    assert(outline_reads_within(objects, trailer, 0, 0));
}

/// The dictionaries are the entries of an outline that does not lead back into itself: below an entry
/// stand only entries of less height, behind it only entries of less width, no width reaches the
/// limit, and every destination is whole.
pub open spec fn comes_to_an_end(
    objects: Objects,
    entries: spec_fn(Entries) -> bool,
    height: spec_fn(Entries) -> nat,
    width: spec_fn(Entries) -> nat,
    limit: nat,
) -> bool {
    forall|node: Entries| #[trigger]
        entries(node) ==> {
            &&& destination_is_whole(objects, node)
            &&& width(node) < limit
            &&& dictionary_under(objects, node, key("First")) matches Some(first) ==> entries(first)
                && height(first) < height(node)
            &&& dictionary_under(objects, node, key("Next")) matches Some(next) ==> entries(next)
                && width(next) < width(node) && height(next) <= height(node)
        }
}

proof fn lemma_comes_to_an_end(
    objects: Objects,
    entries: spec_fn(Entries) -> bool,
    height: spec_fn(Entries) -> nat,
    width: spec_fn(Entries) -> nat,
    limit: nat,
    node: Entries,
    depth: nat,
    count: nat,
)
    requires
        comes_to_an_end(objects, entries, height, width, limit),
        entries(node),
        height(node) <= depth,
        width(node) < count,
    ensures
        outline_outcome(objects, node, depth, count, limit) != Outcome::Stuck,
    decreases depth, count,
{
    if let Some(first) = dictionary_under(objects, node, key("First")) {
        assert(entries(first));
        lemma_comes_to_an_end(
            objects,
            entries,
            height,
            width,
            limit,
            first,
            (depth - 1) as nat,
            limit,
        );
    }
    if let Some(next) = dictionary_under(objects, node, key("Next")) {
        assert(entries(next));
        lemma_comes_to_an_end(
            objects,
            entries,
            height,
            width,
            limit,
            next,
            depth,
            (count - 1) as nat,
        );
    }
}

/// An outline that does not lead back into itself can be read within its height and its width, if the
/// document's named destinations can be, or there are none.
pub proof fn finite_outlines_are_readable(
    objects: Objects,
    trailer: Entries,
    root: Entries,
    top: Entries,
    entries: spec_fn(Entries) -> bool,
    height: spec_fn(Entries) -> nat,
    width: spec_fn(Entries) -> nat,
    limit: nat,
)
    requires
        catalog(objects, trailer) == Some(root),
        names_tree(objects, root) matches Some(tree) ==> names_outcome(
            objects,
            tree,
            height(first_entry(objects, top)),
        ) == Outcome::Read,
        outlines(objects, trailer) == Some(top),
        comes_to_an_end(objects, entries, height, width, limit),
        entries(first_entry(objects, top)),
    ensures
        outline_reads_within(objects, trailer, height(first_entry(objects, top)), limit),
        outline_is_readable(objects, trailer),
{
    let first = first_entry(objects, top);
    lemma_comes_to_an_end(objects, entries, height, width, limit, first, height(first), limit);
    assert(outline_reads_within(objects, trailer, height(first), limit));
}

proof fn lemma_wider_limits(
    objects: Objects,
    node: Entries,
    depth: nat,
    count: nat,
    reach: nat,
    more_depth: nat,
    more_count: nat,
    more_reach: nat,
)
    requires
        outline_outcome(objects, node, depth, count, reach) != Outcome::Stuck,
        depth <= more_depth,
        count <= more_count,
        reach <= more_reach,
    ensures
        outline_outcome(objects, node, more_depth, more_count, more_reach) == outline_outcome(
            objects,
            node,
            depth,
            count,
            reach,
        ),
    decreases depth, count,
{
    let below = if !node.dom().contains(key("First")) {
        Outcome::Read
    } else {
        match dictionary_under(objects, node, key("First")) {
            None => Outcome::GivenUp,
            Some(first) => if depth == 0 {
                Outcome::Stuck
            } else {
                outline_outcome(objects, first, (depth - 1) as nat, reach, reach)
            },
        }
    };
    if node.dom().contains(key("First")) {
        if let Some(first) = dictionary_under(objects, node, key("First")) {
            lemma_wider_limits(
                objects,
                first,
                (depth - 1) as nat,
                reach,
                reach,
                (more_depth - 1) as nat,
                more_reach,
                more_reach,
            );
        }
    }
    if below == Outcome::Read {
        if let Some(next) = dictionary_under(objects, node, key("Next")) {
            lemma_wider_limits(
                objects,
                next,
                depth,
                (count - 1) as nat,
                reach,
                more_depth,
                (more_count - 1) as nat,
                more_reach,
            );
        }
    }
}

/// Wider limits do not change how reading an outline comes out, where it came to an end within
/// narrower ones.
pub proof fn wider_limits_change_nothing(
    objects: Objects,
    node: Entries,
    depth: nat,
    reach: nat,
    more_depth: nat,
    more_reach: nat,
)
    requires
        outline_outcome(objects, node, depth, reach, reach) != Outcome::Stuck,
        depth <= more_depth,
        reach <= more_reach,
    ensures
        outline_outcome(objects, node, more_depth, more_reach, more_reach) == outline_outcome(
            objects,
            node,
            depth,
            reach,
            reach,
        ),
{
    lemma_wider_limits(
        objects,
        node,
        depth,
        reach,
        reach,
        more_depth,
        more_reach,
        more_reach,
    );
}

/// The name is a text, and what it names is a list of at least two items that is referred to, or a
/// dictionary, held or referred to, with such a list in it.
pub open spec fn is_named_destination(objects: Objects, name: Value, value: Value) -> bool {
    let end = match value {
        Value::Reference(id) => found(objects, id),
        _ => Some(value),
    };
    &&& name is Text
    &&& match end {
        Some(Value::Array(items)) => value is Reference && items.len() >= 2,
        Some(Value::Dictionary(entries)) => entries.dom().contains(key("D")) && (entries[key(
            "D",
        )] matches Value::Array(items) && items.len() >= 2),
        _ => false,
    }
}

/// A tree of named destinations that has none below it, and only names that are texts of destinations
/// that are whole, is read to its end.
pub proof fn plain_names_are_read(objects: Objects, tree: Entries, names: Seq<Value>, depth: nat)
    requires
        !tree.dom().contains(key("Kids")),
        tree.dom().contains(key("Names")),
        tree[key("Names")] == Value::Array(names),
        forall|i: int|
            0 <= i < names.len() / 2 ==> is_named_destination(
                objects,
                #[trigger] names[2 * i],
                names[2 * i + 1],
            ),
    ensures
        names_outcome(objects, tree, depth) == Outcome::Read,
{
    lemma_plain_pairs(objects, names, names.len() / 2);
}

proof fn lemma_plain_pairs(objects: Objects, names: Seq<Value>, n: nat)
    requires
        n <= names.len() / 2,
        forall|i: int|
            0 <= i < names.len() / 2 ==> is_named_destination(
                objects,
                #[trigger] names[2 * i],
                names[2 * i + 1],
            ),
    ensures
        pairs_outcome(objects, names, n) == Outcome::Read,
    decreases n,
{
    if n > 0 {
        lemma_plain_pairs(objects, names, (n - 1) as nat);
        assert(is_named_destination(objects, names[2 * (n - 1)], names[2 * (n - 1) + 1]));
    }
}

/// The destination of an entry is whole where it is a list of at least two items, held or referred to,
/// and where it is something else; where the entry has no title it is not looked at.
pub proof fn lists_of_two_are_whole(objects: Objects, node: Entries, items: Seq<Value>)
    ensures
        !node.dom().contains(key("Title")) ==> destination_is_whole(objects, node),
        node.dom().contains(key("Dest")) && node[key("Dest")] == Value::Array(items) && items.len()
            >= 2 && dictionary_under(objects, node, key("A")) is None ==> destination_is_whole(
            objects,
            node,
        ),
        dictionary_under(objects, node, key("A")) matches Some(action) ==> (action.dom().contains(
            key("D"),
        ) && action[key("D")] == Value::Array(items) && items.len() >= 2 ==> destination_is_whole(
            objects,
            node,
        )),
{
}

} // verus!
