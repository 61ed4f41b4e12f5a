//! Reading a document: looking things up, and telling whether its outline can be read.

use crate::document;
use crate::document::Outcome;
use crate::outline::ObjectId;
use vstd::prelude::*;
use vstd::string::*;

verus! {

/// The two sequences of bytes are the same.
fn bytes_equal(a: &[u8], b: &[u8]) -> (same: bool)
    ensures
        same == (a@ == b@),
{
    if a.len() != b.len() {
        return false;
    }
    let mut i: usize = 0;
    while i < a.len()
        invariant
            i <= a@.len() == b@.len(),
            a@.take(i as int) == b@.take(i as int),
        decreases a@.len() - i,
    {
        if a[i] != b[i] {
            assert(a@[i as int] != b@[i as int]);
            return false;
        }
        assert(a@.take(i + 1) =~= a@.take(i as int).push(a@[i as int]));
        assert(b@.take(i + 1) =~= b@.take(i as int).push(b@[i as int]));
        i = i + 1;
    }
    assert(a@.take(i as int) =~= a@);
    assert(b@.take(i as int) =~= b@);
    true
}

/// The object is the given name.
pub(crate) fn is_named(object: &lopdf::Object, name: &str) -> (same: bool)
    ensures
        same == (document::object_value(*object) == document::Value::Name(document::key(name))),
{
    match document::as_name(object) {
        Ok(bytes) => bytes_equal(bytes, name.as_bytes()),
        Err(_) => false,
    }
}

/// The dictionary that an identifier stands for.
pub(crate) fn get_dictionary(doc: &lopdf::Document, id: ObjectId) -> (dict: Result<
    &lopdf::Dictionary,
    lopdf::Error,
>)
    ensures
        match dict {
            Ok(dict) => document::found_dictionary(document::document_objects(*doc), id) == Some(
                document::dictionary_entries(*dict),
            ),
            Err(_) => document::found_dictionary(document::document_objects(*doc), id) is None,
        },
{
    match document::get_object(doc, id) {
        Ok(object) => document::as_dict(object),
        Err(error) => Err(error),
    }
}

/// The identifier that an entry refers to.
pub(crate) fn get_reference(dict: &lopdf::Dictionary, name: &str) -> (id: Result<
    ObjectId,
    lopdf::Error,
>)
    ensures
        match id {
            Ok(id) => document::reference_at(
                document::dictionary_entries(*dict),
                document::key(name),
            ) == Some(id),
            Err(_) => document::reference_at(
                document::dictionary_entries(*dict),
                document::key(name),
            ) is None,
        },
{
    match document::get_entry(dict, name) {
        Ok(object) => document::as_reference(object),
        Err(error) => Err(error),
    }
}

/// The dictionary that an entry holds itself.
fn get_inner<'a>(dict: &'a lopdf::Dictionary, name: &str) -> (inner: Option<
    &'a lopdf::Dictionary,
>)
    ensures
        document::dictionary_at(document::dictionary_entries(*dict), document::key(name)) == (
        match inner {
            Some(inner) => Some(document::dictionary_entries(*inner)),
            None => None,
        }),
{
    match document::get_entry(dict, name) {
        Ok(object) => match document::as_dict(object) {
            Ok(inner) => Some(inner),
            Err(_) => None,
        },
        Err(_) => None,
    }
}

/// The dictionary that an entry holds or refers to.
pub(crate) fn get_under<'a>(
    doc: &'a lopdf::Document,
    dict: &'a lopdf::Dictionary,
    name: &str,
) -> (inner: Option<&'a lopdf::Dictionary>)
    ensures
        document::dictionary_under(
            document::document_objects(*doc),
            document::dictionary_entries(*dict),
            document::key(name),
        ) == (match inner {
            Some(inner) => Some(document::dictionary_entries(*inner)),
            None => None,
        }),
{
    match get_reference(dict, name) {
        Ok(id) => match get_dictionary(doc, id) {
            Ok(inner) => Some(inner),
            Err(_) => None,
        },
        Err(_) => get_inner(dict, name),
    }
}

/// The dictionary at the top of the outline.
pub(crate) fn get_outlines_top(doc: &lopdf::Document) -> (top: Option<&lopdf::Dictionary>)
    ensures
        document::outlines(
            document::document_objects(*doc),
            document::document_trailer(*doc),
        ) == (match top {
            Some(top) => Some(document::dictionary_entries(*top)),
            None => None,
        }),
{
    match get_reference(document::trailer(doc), "Root") {
        Ok(id) => match get_dictionary(doc, id) {
            Ok(root) => get_under(doc, root, "Outlines"),
            Err(_) => None,
        },
        Err(_) => None,
    }
}

/// How many objects the document holds.
pub(crate) fn count_objects(doc: &lopdf::Document) -> (n: usize)
    ensures
        n == document::document_objects(*doc).dom().len(),
        document::document_objects(*doc).dom().finite(),
{
    let ids: Vec<ObjectId> = document::object_ids(doc);
    proof {
        ids@.unique_seq_to_set();
        assert(ids@.to_set() =~= document::document_objects(*doc).dom());
    }
    ids.len()
}

/// An object, with a reference followed.
fn settle<'a>(doc: &'a lopdf::Document, object: &'a lopdf::Object) -> (end: Option<
    &'a lopdf::Object,
>)
    ensures
        document::settled(
            document::document_objects(*doc),
            document::object_value(*object),
        ) == (match end {
            Some(end) => Some(document::object_value(*end)),
            None => None,
        }),
{
    match document::as_reference(object) {
        Ok(id) => match document::get_object(doc, id) {
            Ok(end) => Some(end),
            Err(_) => None,
        },
        Err(_) => Some(object),
    }
}

/// The object has no list at its end, or one of at least two items.
fn check_whole(doc: &lopdf::Document, object: &lopdf::Object) -> (whole: bool)
    ensures
        whole == document::is_whole(
            document::document_objects(*doc),
            document::object_value(*object),
        ),
{
    match settle(doc, object) {
        Some(end) => match document::as_array(end) {
            Ok(items) => items.len() >= 2,
            Err(_) => true,
        },
        None => true,
    }
}

/// The title is a text, or a reference that leads somewhere.
fn check_title(doc: &lopdf::Document, title: &lopdf::Object) -> (good: bool)
    ensures
        good == document::is_title(
            document::document_objects(*doc),
            document::object_value(*title),
        ),
{
    match document::as_reference(title) {
        Ok(id) => document::get_object(doc, id).is_ok(),
        Err(_) => document::as_text(title).is_ok(),
    }
}

/// The entry's destination is whole.
fn check_destination(doc: &lopdf::Document, node: &lopdf::Dictionary) -> (whole: bool)
    ensures
        whole == document::destination_is_whole(
            document::document_objects(*doc),
            document::dictionary_entries(*node),
        ),
{
    let title: &lopdf::Object = match document::get_entry(node, "Title") {
        Ok(title) => title,
        Err(_) => {
            return true;
        },
    };
    match get_under(doc, node, "A") {
        Some(action) => {
            let jumps: bool = match document::get_entry(action, "S") {
                Ok(command) => is_named(command, "GoTo") || is_named(command, "GoToR"),
                Err(_) => false,
            };
            if !jumps || !check_title(doc, title) {
                return true;
            }
            match document::get_entry(action, "D") {
                Ok(object) => check_whole(doc, object),
                Err(_) => true,
            }
        },
        None => match document::get_entry(node, "Dest") {
            Ok(object) => check_whole(doc, object),
            Err(_) => true,
        },
    }
}

/// How reading the outline from `node` comes out.
fn try_outline(
    doc: &lopdf::Document,
    node: &lopdf::Dictionary,
    depth: u32,
    count: u32,
    reach: u32,
) -> (outcome: Outcome)
    ensures
        outcome == document::outline_outcome(
            document::document_objects(*doc),
            document::dictionary_entries(*node),
            depth as nat,
            count as nat,
            reach as nat,
        ),
    decreases depth,
{
    let ghost objects = document::document_objects(*doc);
    let mut at: &lopdf::Dictionary = node;
    let mut left: u32 = count;
    loop
        invariant
            objects == document::document_objects(*doc),
            document::outline_outcome(
                objects,
                document::dictionary_entries(*node),
                depth as nat,
                count as nat,
                reach as nat,
            ) == document::outline_outcome(
                objects,
                document::dictionary_entries(*at),
                depth as nat,
                left as nat,
                reach as nat,
            ),
        decreases left,
    {
        if left == 0 || !check_destination(doc, at) {
            return Outcome::Stuck;
        }
        if document::get_entry(at, "First").is_ok() {
            match get_under(doc, at, "First") {
                None => {
                    return Outcome::GivenUp;
                },
                Some(first) => {
                    if depth == 0 {
                        return Outcome::Stuck;
                    }
                    let below: Outcome = try_outline(doc, first, depth - 1, reach, reach);
                    if below != Outcome::Read {
                        return below;
                    }
                },
            }
        }
        match get_under(doc, at, "Next") {
            Some(next) => {
                at = next;
                left = left - 1;
            },
            None => {
                return Outcome::Read;
            },
        }
    }
}

/// How reading a named destination that is a list comes out.
fn try_list(name: &lopdf::Object, items: &Vec<lopdf::Object>) -> (outcome: Outcome)
    ensures
        outcome == document::list_outcome(
            document::object_value(*name),
            items@.map_values(|item: lopdf::Object| document::object_value(item)),
        ),
{
    if items.len() >= 2 && document::as_text(name).is_ok() {
        Outcome::Read
    } else {
        Outcome::Stuck
    }
}

/// How reading a named destination that is a dictionary comes out.
fn try_holder(name: &lopdf::Object, dict: &lopdf::Dictionary) -> (outcome: Outcome)
    ensures
        outcome == document::holder_outcome(
            document::object_value(*name),
            document::dictionary_entries(*dict),
        ),
{
    match document::get_entry(dict, "D") {
        Ok(list) => match document::as_array(list) {
            Ok(items) => try_list(name, items),
            Err(_) => Outcome::GivenUp,
        },
        Err(_) => Outcome::Stuck,
    }
}

/// How reading a named destination comes out.
fn try_name(doc: &lopdf::Document, name: &lopdf::Object, value: &lopdf::Object) -> (outcome:
    Outcome)
    ensures
        outcome == document::name_outcome(
            document::document_objects(*doc),
            document::object_value(*name),
            document::object_value(*value),
        ),
{
    match document::as_reference(value) {
        Ok(id) => match document::get_object(doc, id) {
            Ok(end) => match document::as_dict(end) {
                Ok(dict) => try_holder(name, dict),
                Err(_) => match document::as_array(end) {
                    Ok(items) => try_list(name, items),
                    Err(_) => Outcome::Read,
                },
            },
            Err(_) => Outcome::Read,
        },
        Err(_) => match document::as_dict(value) {
            Ok(dict) => try_holder(name, dict),
            Err(_) => Outcome::Read,
        },
    }
}

proof fn lemma_pairs_stop(objects: document::Objects, names: Seq<document::Value>, m: nat, n: nat)
    requires
        m <= n,
        document::pairs_outcome(objects, names, m) != Outcome::Read,
    ensures
        document::pairs_outcome(objects, names, n) == document::pairs_outcome(objects, names, m),
    decreases n,
{
    if m < n {
        lemma_pairs_stop(objects, names, m, (n - 1) as nat);
    }
}

proof fn lemma_kids_stop(
    objects: document::Objects,
    kids: Seq<document::Value>,
    m: nat,
    n: nat,
    depth: nat,
)
    requires
        m <= n,
        document::kids_outcome(objects, kids, m, depth) != Outcome::Read,
    ensures
        document::kids_outcome(objects, kids, n, depth) == document::kids_outcome(
            objects,
            kids,
            m,
            depth,
        ),
    decreases n,
{
    if m < n {
        lemma_kids_stop(objects, kids, m, (n - 1) as nat, depth);
    }
}

/// How reading a list comes out in which names and what they name alternate.
fn try_pairs(doc: &lopdf::Document, names: &Vec<lopdf::Object>) -> (outcome: Outcome)
    ensures
        outcome == document::pairs_outcome(
            document::document_objects(*doc),
            names@.map_values(|item: lopdf::Object| document::object_value(item)),
            names@.len() / 2,
        ),
{
    let ghost objects = document::document_objects(*doc);
    let ghost values = names@.map_values(|item: lopdf::Object| document::object_value(item));
    let pairs: usize = names.len() / 2;
    let mut p: usize = 0;
    while p < pairs
        invariant
            p <= pairs,
            pairs == names@.len() / 2,
            names@.len() <= usize::MAX,
            objects == document::document_objects(*doc),
            values == names@.map_values(|item: lopdf::Object| document::object_value(item)),
            document::pairs_outcome(objects, values, p as nat) == Outcome::Read,
        decreases pairs - p,
    {
        let i: usize = 2 * p;
        assert(values[i as int] == document::object_value(names@[i as int]));
        assert(values[i + 1] == document::object_value(names@[i + 1]));
        let outcome: Outcome = try_name(doc, &names[i], &names[i + 1]);
        p = p + 1;
        assert(document::pairs_outcome(objects, values, p as nat) == outcome);
        if outcome != Outcome::Read {
            proof {
                lemma_pairs_stop(objects, values, p as nat, pairs as nat);
            }
            return outcome;
        }
    }
    Outcome::Read
}

/// How reading trees of named destinations comes out.
fn try_kids(doc: &lopdf::Document, kids: &Vec<lopdf::Object>, depth: u32) -> (outcome: Outcome)
    ensures
        outcome == document::kids_outcome(
            document::document_objects(*doc),
            kids@.map_values(|item: lopdf::Object| document::object_value(item)),
            kids@.len(),
            depth as nat,
        ),
    decreases depth, 0int,
{
    let ghost objects = document::document_objects(*doc);
    let ghost values = kids@.map_values(|item: lopdf::Object| document::object_value(item));
    let mut i: usize = 0;
    while i < kids.len()
        invariant
            i <= kids@.len(),
            objects == document::document_objects(*doc),
            values == kids@.map_values(|item: lopdf::Object| document::object_value(item)),
            document::kids_outcome(objects, values, i as nat, depth as nat) == Outcome::Read,
        decreases kids@.len() - i,
    {
        assert(values[i as int] == document::object_value(kids@[i as int]));
        let outcome: Outcome = match document::as_reference(&kids[i]) {
            Ok(id) => match get_dictionary(doc, id) {
                Ok(kid) => if depth == 0 {
                    Outcome::Stuck
                } else {
                    try_names(doc, kid, depth - 1)
                },
                Err(_) => Outcome::Read,
            },
            Err(_) => Outcome::Read,
        };
        i = i + 1;
        assert(document::kids_outcome(objects, values, i as nat, depth as nat) == outcome);
        if outcome != Outcome::Read {
            proof {
                lemma_kids_stop(objects, values, i as nat, values.len(), depth as nat);
            }
            return outcome;
        }
    }
    Outcome::Read
}

/// How reading the tree of named destinations from `tree` comes out.
fn try_names(doc: &lopdf::Document, tree: &lopdf::Dictionary, depth: u32) -> (outcome: Outcome)
    ensures
        outcome == document::names_outcome(
            document::document_objects(*doc),
            document::dictionary_entries(*tree),
            depth as nat,
        ),
    decreases depth, 1int,
{
    if let Ok(object) = document::get_entry(tree, "Kids") {
        match document::as_array(object) {
            Ok(kids) => {
                let below: Outcome = try_kids(doc, kids, depth);
                if below != Outcome::Read {
                    return below;
                }
            },
            Err(_) => {
                return Outcome::GivenUp;
            },
        }
    }
    match document::get_entry(tree, "Names") {
        Ok(object) => match document::as_array(object) {
            Ok(names) => try_pairs(doc, names),
            Err(_) => Outcome::GivenUp,
        },
        Err(_) => Outcome::Read,
    }
}

/// Reading the document's outline comes to an end within the limits.
pub(crate) fn check_readable(doc: &lopdf::Document, depth: u32, reach: u32) -> (readable: bool)
    ensures
        readable == document::outline_reads_within(
            document::document_objects(*doc),
            document::document_trailer(*doc),
            depth as nat,
            reach as nat,
        ),
{
    let root: &lopdf::Dictionary = match get_reference(document::trailer(doc), "Root") {
        Ok(id) => match get_dictionary(doc, id) {
            Ok(root) => root,
            Err(_) => {
                return true;
            },
        },
        Err(_) => {
            return true;
        },
    };
    let outlines: &lopdf::Dictionary = match get_under(doc, root, "Outlines") {
        Some(outlines) => outlines,
        None => {
            return true;
        },
    };
    let first: &lopdf::Dictionary = match get_under(doc, outlines, "First") {
        Some(first) => first,
        None => outlines,
    };
    let tree: Option<&lopdf::Dictionary> = match get_under(doc, root, "Dests") {
        Some(tree) => Some(tree),
        None => match get_under(doc, root, "Names") {
            Some(names) => get_under(doc, names, "Dests"),
            None => None,
        },
    };
    let named: Outcome = match tree {
        Some(tree) => try_names(doc, tree, depth),
        None => Outcome::Read,
    };
    match named {
        Outcome::Read => try_outline(doc, first, depth, reach, reach) != Outcome::Stuck,
        Outcome::GivenUp => true,
        Outcome::Stuck => false,
    }
}

} // verus!
