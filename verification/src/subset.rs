//! Taking some of a document's pages into a document of their own.

use crate::access;
use crate::document;
use crate::outline::ObjectId;
use crate::pdf::PdfError;
use std::collections::BTreeSet;
use vstd::prelude::*;
use vstd::string::*;

verus! {

/// Of the first `n` pages, those whose numbers are in `keep`, in page order.
pub open spec fn kept_pages(pages: Seq<ObjectId>, keep: Seq<u32>, n: nat) -> Seq<ObjectId>
    decreases n,
{
    if n == 0 {
        Seq::empty()
    } else {
        let before = kept_pages(pages, keep, (n - 1) as nat);
        if keep.contains(n as u32) {
            before.push(pages[n - 1])
        } else {
            before
        }
    }
}

/// What stands under a key in the nearest of a node and the nodes above it, up to the root of the
/// page tree and without it. `steps` is how far up it is looked for.
pub open spec fn inherited(
    objects: document::Objects,
    node: document::Entries,
    key: Seq<u8>,
    root: ObjectId,
    steps: nat,
) -> Option<document::Value>
    decreases steps,
{
    if node.dom().contains(key) {
        Some(node[key])
    } else {
        match document::reference_at(node, document::key("Parent")) {
            Some(parent) => if parent == root || steps == 0 {
                None
            } else {
                match document::found_dictionary(objects, parent) {
                    Some(above) => inherited(objects, above, key, root, (steps - 1) as nat),
                    None => None,
                }
            },
            None => None,
        }
    }
}

/// The entries with what a page has under a key, or inherits from a node between it and the root.
pub open spec fn carried(
    objects: document::Objects,
    page: ObjectId,
    root: ObjectId,
    entries: document::Entries,
    key: Seq<u8>,
) -> document::Entries {
    match document::found_dictionary(objects, page) {
        Some(node) => match inherited(objects, node, key, root, objects.dom().len()) {
            Some(value) => entries.insert(key, value),
            None => entries,
        },
        None => entries,
    }
}

/// The dictionary of a page in the new document: it stands right below the root of the page tree
/// and has what it inherited from the nodes between, and what could lead to other pages is gone
/// from it.
pub open spec fn page_entries(
    objects: document::Objects,
    page: ObjectId,
    entries: document::Entries,
    root: ObjectId,
) -> document::Entries {
    let resources = carried(objects, page, root, entries, document::key("Resources"));
    let media = carried(objects, page, root, resources, document::key("MediaBox"));
    let crop = carried(objects, page, root, media, document::key("CropBox"));
    let rotate = carried(objects, page, root, crop, document::key("Rotate"));
    rotate.insert(document::key("Parent"), document::Value::Reference(root)).remove(
        document::key("Annots"),
    ).remove(document::key("B")).remove(document::key("AA"))
}

/// The root of the page tree in the new document: the pages stand right below it.
pub open spec fn tree_entries(entries: document::Entries, ids: Seq<ObjectId>) -> document::Entries {
    entries.insert(
        document::key("Kids"),
        document::Value::Array(ids.map_values(|id: ObjectId| document::Value::Reference(id))),
    ).insert(document::key("Count"), document::Value::Integer(ids.len() as i64))
}

/// The catalog of the new document: what refers to pages or spans the whole document is gone.
pub open spec fn catalog_entries(entries: document::Entries) -> document::Entries {
    entries.remove(document::key("Outlines")).remove(document::key("Names")).remove(
        document::key("Dests"),
    ).remove(document::key("PageLabels")).remove(document::key("OpenAction")).remove(
        document::key("AA"),
    ).remove(document::key("AcroForm")).remove(document::key("StructTreeRoot")).remove(
        document::key("MarkInfo"),
    ).remove(document::key("Threads"))
}

/// The objects with the dictionary that `id` stands for replaced, if it stands for one.
pub open spec fn replaced(
    objects: document::Objects,
    id: ObjectId,
    change: spec_fn(document::Entries) -> document::Entries,
) -> document::Objects {
    match document::found_dictionary(objects, id) {
        Some(entries) => objects.insert(
            document::target_id(objects, id, document::hop_limit())->0,
            document::Value::Dictionary(change(entries)),
        ),
        None => objects,
    }
}

/// The objects with the kept pages put right below the root, one after the other.
pub open spec fn with_pages(
    objects: document::Objects,
    ids: Seq<ObjectId>,
    root: ObjectId,
) -> document::Objects
    decreases ids.len(),
{
    if ids.len() == 0 {
        objects
    } else {
        replaced(
            with_pages(objects, ids.drop_last(), root),
            ids.last(),
            |entries: document::Entries| page_entries(objects, ids.last(), entries, root),
        )
    }
}

/// The objects with the kept pages right below the root, the root listing them, and the catalog
/// without what refers to pages.
pub open spec fn rebuilt(
    objects: document::Objects,
    ids: Seq<ObjectId>,
    catalog: ObjectId,
    root: ObjectId,
) -> document::Objects {
    replaced(
        replaced(
            with_pages(objects, ids, root),
            root,
            |entries: document::Entries| tree_entries(entries, ids),
        ),
        catalog,
        |entries: document::Entries| catalog_entries(entries),
    )
}

/// Why no document can be made of the pages asked for.
pub enum Fault {
    NoPages,
    MissingRoot,
    MissingPages,
    PagesNotDictionary,
}

impl Fault {
    /// The error says that this is why.
    pub open spec fn is_told_by(self, error: PdfError) -> bool {
        match self {
            Fault::NoPages => error is NoPages,
            Fault::MissingRoot => error is MissingRoot,
            Fault::MissingPages => error is MissingPages,
            Fault::PagesNotDictionary => error is PagesNotDictionary,
        }
    }
}

/// The objects of the document that holds, of `pages`, those whose numbers are in `keep`.
pub open spec fn subset_objects(
    objects: document::Objects,
    trailer: document::Entries,
    pages: Seq<ObjectId>,
    keep: Seq<u32>,
) -> Result<document::Objects, Fault> {
    let ids = kept_pages(pages, keep, pages.len());
    if ids.len() == 0 {
        Err(Fault::NoPages)
    } else {
        match document::catalog_id(trailer) {
            None => Err(Fault::MissingRoot),
            Some(catalog) => match document::root_id(objects, trailer) {
                None => Err(Fault::MissingPages),
                Some(root) => {
                    let paged = with_pages(objects, ids, root);
                    if document::found_dictionary(paged, root) is None {
                        Err(Fault::PagesNotDictionary)
                    } else {
                        Ok(document::pruned(rebuilt(objects, ids, catalog, root), trailer))
                    }
                },
            },
        }
    }
}

/// `lopdf::Error`'s `Display`: what is said about an error. Nothing is promised of the text.
#[verifier::external_body]
fn error_text(error: lopdf::Error) -> (text: String)
{
    format!("{error}")
}

/// The dictionary that `id` stands for, to be changed.
pub(crate) fn get_dictionary_mut(doc: &mut lopdf::Document, id: ObjectId) -> (dict: Result<
    &mut lopdf::Dictionary,
    lopdf::Error,
>)
    ensures
        document::document_trailer(*final(doc)) == document::document_trailer(*old(doc)),
        document::document_version(*final(doc)) == document::document_version(*old(doc)),
        document::document_max_id(*final(doc)) == document::document_max_id(*old(doc)),
        match dict {
            Ok(dict) => document::found_dictionary(document::document_objects(*old(doc)), id)
                == Some(document::dictionary_entries(*dict)) && document::document_objects(
                *final(doc),
            ) == document::document_objects(*old(doc)).insert(
                document::target_id(
                    document::document_objects(*old(doc)),
                    id,
                    document::hop_limit(),
                )->0,
                document::Value::Dictionary(document::dictionary_entries(*final(dict))),
            ),
            Err(_) => document::found_dictionary(document::document_objects(*old(doc)), id) is None
                && document::document_objects(*final(doc)) == document::document_objects(*old(doc)),
        },
{
    let ghost objects = document::document_objects(*old(doc));
    proof {
        document::lemma_target(objects, id, document::hop_limit());
    }
    match document::get_object_mut(doc, id) {
        Ok(object) => match document::as_dict_mut(object) {
            Ok(dict) => Ok(dict),
            Err(error) => {
                Err(error)
            },
        },
        Err(error) => Err(error),
    }
}

/// Of the pages, those whose numbers are in `keep`, in page order.
fn list_kept(pages: &[ObjectId], keep: &[u32]) -> (ids: Vec<ObjectId>)
    requires
        pages@.len() < u32::MAX,
    ensures
        ids@ == kept_pages(pages@, keep@, pages@.len()),
        ids@.len() <= pages@.len(),
{
    broadcast use vstd::std_specs::btree::group_btree_axioms;

    let mut wanted: BTreeSet<u32> = BTreeSet::new();
    let mut i: usize = 0;
    while i < keep.len()
        invariant
            i <= keep@.len(),
            forall|n: u32| #[trigger] wanted@.contains(n) <==> keep@.take(i as int).contains(n),
        decreases keep@.len() - i,
    {
        broadcast use vstd::std_specs::btree::group_btree_axioms;

        wanted.insert(keep[i]);
        proof {
            let before = keep@.take(i as int);
            let now = keep@.take(i + 1);
            assert forall|n: u32| #[trigger] wanted@.contains(n) <==> now.contains(n) by {
                assert(now[i as int] == keep@[i as int]);
                if before.contains(n) {
                    let k = choose|k: int| 0 <= k < before.len() && before[k] == n;
                    assert(now[k] == n);
                }
                if now.contains(n) && n != keep@[i as int] {
                    let k = choose|k: int| 0 <= k < now.len() && now[k] == n;
                    assert(before[k] == n);
                }
            }
        }
        i = i + 1;
    }
    assert(keep@.take(i as int) =~= keep@);
    let mut ids: Vec<ObjectId> = Vec::new();
    let mut n: usize = 0;
    while n < pages.len()
        invariant
            n <= pages@.len() < u32::MAX,
            forall|n: u32| #[trigger] wanted@.contains(n) <==> keep@.contains(n),
            ids@ == kept_pages(pages@, keep@, n as nat),
            ids@.len() <= n,
        decreases pages@.len() - n,
    {
        broadcast use vstd::std_specs::btree::group_btree_axioms;

        let number: u32 = (n + 1) as u32;
        if wanted.contains(&number) {
            ids.push(pages[n]);
        }
        n = n + 1;
    }
    ids
}

/// What stands under a name in the nearest of a node and the nodes above it, up to the root of the
/// page tree and without it.
fn find_inherited<'a>(
    doc: &'a lopdf::Document,
    node: &'a lopdf::Dictionary,
    name: &str,
    root: ObjectId,
    steps: usize,
) -> (object: Option<&'a lopdf::Object>)
    ensures
        inherited(
            document::document_objects(*doc),
            document::dictionary_entries(*node),
            document::key(name),
            root,
            steps as nat,
        ) == (match object {
            Some(object) => Some(document::object_value(*object)),
            None => None,
        }),
{
    let ghost objects = document::document_objects(*doc);
    let mut at: &lopdf::Dictionary = node;
    let mut left: usize = steps;
    loop
        invariant
            objects == document::document_objects(*doc),
            inherited(
                objects,
                document::dictionary_entries(*at),
                document::key(name),
                root,
                left as nat,
            ) == inherited(
                objects,
                document::dictionary_entries(*node),
                document::key(name),
                root,
                steps as nat,
            ),
        decreases left,
    {
        if let Ok(object) = document::get_entry(at, name) {
            return Some(object);
        }
        match access::get_reference(at, "Parent") {
            Ok(parent) => {
                if (parent.0 == root.0 && parent.1 == root.1) || left == 0 {
                    return None;
                }
                match access::get_dictionary(doc, parent) {
                    Ok(above) => {
                        at = above;
                        left = left - 1;
                    },
                    Err(_) => {
                        return None;
                    },
                }
            },
            Err(_) => {
                return None;
            },
        }
    }
}

/// Puts into a dictionary what a page has under a name, or inherits from a node between it and the
/// root.
fn carry(
    doc: &lopdf::Document,
    page: ObjectId,
    root: ObjectId,
    steps: usize,
    dict: &mut lopdf::Dictionary,
    name: &str,
)
    requires
        steps == document::document_objects(*doc).dom().len(),
    ensures
        document::dictionary_entries(*final(dict)) == carried(
            document::document_objects(*doc),
            page,
            root,
            document::dictionary_entries(*old(dict)),
            document::key(name),
        ),
{
    if let Ok(node) = access::get_dictionary(doc, page) {
        if let Some(object) = find_inherited(doc, node, name, root, steps) {
            document::set_entry(dict, name, document::copy_object(object));
        }
    }
}

/// Makes the dictionary of a page that of the page in the new document.
fn move_page(
    doc: &lopdf::Document,
    page: ObjectId,
    root: ObjectId,
    steps: usize,
    dict: &mut lopdf::Dictionary,
)
    requires
        steps == document::document_objects(*doc).dom().len(),
    ensures
        document::dictionary_entries(*final(dict)) == page_entries(
            document::document_objects(*doc),
            page,
            document::dictionary_entries(*old(dict)),
            root,
        ),
{
    carry(doc, page, root, steps, dict, "Resources");
    carry(doc, page, root, steps, dict, "MediaBox");
    carry(doc, page, root, steps, dict, "CropBox");
    carry(doc, page, root, steps, dict, "Rotate");
    document::set_entry(dict, "Parent", document::reference(root));
    document::remove_entry(dict, "Annots");
    document::remove_entry(dict, "B");
    document::remove_entry(dict, "AA");
}

/// A document of its own that holds, of the pages of `source`, only those whose numbers are in
/// `keep`. The page tree is rebuilt to hold the kept pages and nothing else, what could lead to
/// other pages is taken out, and then everything that cannot be reached any more.
pub(crate) fn subset_to_pages(
    source: &lopdf::Document,
    pages: &[ObjectId],
    keep: &[u32],
) -> (part: Result<lopdf::Document, PdfError>)
    requires
        pages@.len() < u32::MAX,
    ensures
        match subset_objects(
            document::document_objects(*source),
            document::document_trailer(*source),
            pages@,
            keep@,
        ) {
            Ok(objects) => part matches Ok(part) && document::document_objects(part) == objects
                && document::document_trailer(part) == document::document_trailer(*source)
                && document::document_version(part) == document::document_version(*source)
                && document::document_max_id(part) == document::document_max_id(*source),
            Err(fault) => part matches Err(error) && fault.is_told_by(error),
        },
{
    let ghost objects = document::document_objects(*source);
    let ids: Vec<ObjectId> = list_kept(pages, keep);
    if ids.len() == 0 {
        return Err(PdfError::NoPages);
    }
    let catalog: ObjectId = match access::get_reference(document::trailer(source), "Root") {
        Ok(id) => id,
        Err(error) => {
            return Err(PdfError::MissingRoot(error_text(error)));
        },
    };
    let found: Result<ObjectId, lopdf::Error> = match access::get_dictionary(source, catalog) {
        Ok(entries) => access::get_reference(entries, "Pages"),
        Err(error) => Err(error),
    };
    let root: ObjectId = match found {
        Ok(id) => id,
        Err(error) => {
            return Err(PdfError::MissingPages(error_text(error)));
        },
    };
    let steps: usize = access::count_objects(source);
    let mut part: lopdf::Document = document::copy_document(source);
    let mut i: usize = 0;
    assert(ids@.take(0) =~= Seq::empty());
    while i < ids.len()
        invariant
            i <= ids@.len(),
            objects == document::document_objects(*source),
            steps == objects.dom().len(),
            document::document_trailer(part) == document::document_trailer(*source),
            document::document_version(part) == document::document_version(*source),
            document::document_max_id(part) == document::document_max_id(*source),
            document::document_objects(part) == with_pages(objects, ids@.take(i as int), root),
        decreases ids@.len() - i,
    {
        assert(ids@.take(i + 1).drop_last() =~= ids@.take(i as int));
        if let Ok(page) = get_dictionary_mut(&mut part, ids[i]) {
            move_page(source, ids[i], root, steps, page);
        }
        i = i + 1;
    }
    assert(ids@.take(i as int) =~= ids@);
    let kids: Vec<lopdf::Object> = list_references(&ids);
    let count: i64 = ids.len() as i64;
    if let Ok(tree) = get_dictionary_mut(&mut part, root) {
        document::set_entry(tree, "Kids", document::array(kids));
        document::set_entry(tree, "Count", document::integer(count));
    } else {
        return Err(PdfError::PagesNotDictionary);
    }
    if let Ok(entries) = get_dictionary_mut(&mut part, catalog) {
        document::remove_entry(entries, "Outlines");
        document::remove_entry(entries, "Names");
        document::remove_entry(entries, "Dests");
        document::remove_entry(entries, "PageLabels");
        document::remove_entry(entries, "OpenAction");
        document::remove_entry(entries, "AA");
        document::remove_entry(entries, "AcroForm");
        document::remove_entry(entries, "StructTreeRoot");
        document::remove_entry(entries, "MarkInfo");
        document::remove_entry(entries, "Threads");
    }
    document::prune_objects(&mut part);
    Ok(part)
}

/// An object for each identifier that refers to it.
fn list_references(ids: &Vec<ObjectId>) -> (objects: Vec<lopdf::Object>)
    ensures
        objects@.map_values(|item: lopdf::Object| document::object_value(item)) == ids@.map_values(
            |id: ObjectId| document::Value::Reference(id),
        ),
{
    let mut objects: Vec<lopdf::Object> = Vec::new();
    let mut i: usize = 0;
    while i < ids.len()
        invariant
            i == objects@.len() <= ids@.len(),
            forall|j: int|
                0 <= j < i ==> document::object_value(#[trigger] objects@[j])
                    == document::Value::Reference(ids@[j]),
        decreases ids@.len() - i,
    {
        objects.push(document::reference(ids[i]));
        i = i + 1;
    }
    assert(objects@.map_values(|item: lopdf::Object| document::object_value(item))
        =~= ids@.map_values(|id: ObjectId| document::Value::Reference(id)));
    objects
}

/// A document laid out as documents are: the trailer names the catalog, the catalog names the root
/// of the page tree, and these two and the pages to be kept stand for different dictionaries.
pub open spec fn laid_out(
    objects: document::Objects,
    trailer: document::Entries,
    ids: Seq<ObjectId>,
    catalog: ObjectId,
    root: ObjectId,
) -> bool {
    &&& document::catalog_id(trailer) == Some(catalog)
    &&& document::root_id(objects, trailer) == Some(root)
    &&& document::found_dictionary(objects, root) is Some
    &&& document::end_id(objects, catalog) != document::end_id(objects, root)
    &&& are_apart(objects, ids)
    &&& forall|i: int|
        0 <= i < ids.len() ==> document::end_id(objects, #[trigger] ids[i]) != document::end_id(
            objects,
            catalog,
        ) && document::end_id(objects, ids[i]) != document::end_id(objects, root)
}

/// The identifiers stand for dictionaries, no two of them for the same one.
pub open spec fn are_apart(objects: document::Objects, ids: Seq<ObjectId>) -> bool {
    &&& forall|i: int|
        0 <= i < ids.len() ==> document::found_dictionary(objects, #[trigger] ids[i]) is Some
    &&& forall|i: int, j: int|
        0 <= i < j < ids.len() ==> document::end_id(objects, #[trigger] ids[i])
            != document::end_id(objects, #[trigger] ids[j])
}

/// One of the identifiers stands for the object with the identifier `end`.
pub open spec fn is_end(objects: document::Objects, ids: Seq<ObjectId>, end: ObjectId) -> bool {
    exists|i: int|
        0 <= i < ids.len() && document::end_id(objects, #[trigger] ids[i]) == Some(end)
}

/// The two hold objects under the same identifiers, and the same references.
pub open spec fn same_references(a: document::Objects, b: document::Objects) -> bool {
    &&& a.dom() == b.dom()
    &&& forall|id: ObjectId| #[trigger]
        a.dom().contains(id) && (a[id] is Reference || b[id] is Reference) ==> a[id] == b[id]
}

/// What an identifier stands for does not depend on what the objects hold besides references.
pub proof fn lemma_same_end(a: document::Objects, b: document::Objects, id: ObjectId, hops: nat)
    requires
        same_references(a, b),
    ensures
        document::target_id(a, id, hops) == document::target_id(b, id, hops),
    decreases hops,
{
    if a.dom().contains(id) && hops > 0 {
        if let document::Value::Reference(next) = a[id] {
            lemma_same_end(a, b, next, (hops - 1) as nat);
        }
    }
}

proof fn lemma_replaced(
    objects: document::Objects,
    id: ObjectId,
    change: spec_fn(document::Entries) -> document::Entries,
)
    requires
        document::found_dictionary(objects, id) is Some,
    ensures
        same_references(objects, replaced(objects, id, change)),
        document::end_id(objects, id) is Some,
        replaced(objects, id, change)[document::end_id(objects, id)->0]
            == document::Value::Dictionary(change(document::found_dictionary(objects, id)->0)),
        forall|other: ObjectId|
            Some(other) != document::end_id(objects, id) ==> #[trigger] replaced(
                objects,
                id,
                change,
            )[other] == objects[other],
{
    document::lemma_target(objects, id, document::hop_limit());
    assert(replaced(objects, id, change).dom() =~= objects.dom());
}

proof fn lemma_with_pages(objects: document::Objects, ids: Seq<ObjectId>, root: ObjectId)
    requires
        are_apart(objects, ids),
    ensures
        same_references(objects, with_pages(objects, ids, root)),
        forall|i: int|
            0 <= i < ids.len() ==> with_pages(objects, ids, root)[document::end_id(
                objects,
                #[trigger] ids[i],
            )->0] == document::Value::Dictionary(
                page_entries(
                    objects,
                    ids[i],
                    document::found_dictionary(objects, ids[i])->0,
                    root,
                ),
            ),
        forall|id: ObjectId|
            !is_end(objects, ids, id) ==> #[trigger] with_pages(objects, ids, root)[id]
                == objects[id],
    decreases ids.len(),
{
    if ids.len() > 0 {
        let shorter = ids.drop_last();
        let last = ids.last();
        assert(forall|i: int| 0 <= i < shorter.len() ==> shorter[i] == #[trigger] ids[i]);
        lemma_with_pages(objects, shorter, root);
        let before = with_pages(objects, shorter, root);
        let end = document::end_id(objects, last);
        document::lemma_target(objects, last, document::hop_limit());
        assert(document::found_dictionary(objects, ids[ids.len() - 1]) is Some);
        assert(!is_end(objects, shorter, end->0)) by {
            if is_end(objects, shorter, end->0) {
                let k = choose|k: int|
                    0 <= k < shorter.len() && document::end_id(objects, #[trigger] shorter[k])
                        == Some(end->0);
                assert(ids[k] == shorter[k] && ids[ids.len() - 1] == last);
            }
        }
        assert(before[end->0] == objects[end->0]);
        lemma_same_end(objects, before, last, document::hop_limit());
        let change = |entries: document::Entries| page_entries(objects, last, entries, root);
        lemma_replaced(before, last, change);
        let now = with_pages(objects, ids, root);
        assert(now == replaced(before, last, change));
        assert forall|id: ObjectId| !is_end(objects, ids, id) implies #[trigger] now[id]
            == objects[id] by {
            if is_end(objects, shorter, id) {
                let k = choose|k: int|
                    0 <= k < shorter.len() && document::end_id(objects, #[trigger] shorter[k])
                        == Some(id);
                assert(document::end_id(objects, ids[k]) == Some(id));
            }
            assert(ids[ids.len() - 1] == last);
        }
        assert forall|i: int| 0 <= i < ids.len() implies now[document::end_id(
            objects,
            #[trigger] ids[i],
        )->0] == document::Value::Dictionary(
            page_entries(objects, ids[i], document::found_dictionary(objects, ids[i])->0, root),
        ) by {
            document::lemma_target(objects, ids[i], document::hop_limit());
            if i < ids.len() - 1 {
                assert(shorter[i] == ids[i]);
                assert(document::end_id(objects, ids[i]) != document::end_id(
                    objects,
                    ids[ids.len() - 1],
                ));
            }
        }
    }
}

proof fn lemma_removed_keys()
    ensures
        document::key("Pages") != document::key("Outlines"),
        document::key("Pages") != document::key("Names"),
        document::key("Pages") != document::key("Dests"),
        document::key("Pages") != document::key("PageLabels"),
        document::key("Pages") != document::key("OpenAction"),
        document::key("Pages") != document::key("AA"),
        document::key("Pages") != document::key("AcroForm"),
        document::key("Pages") != document::key("StructTreeRoot"),
        document::key("Pages") != document::key("MarkInfo"),
        document::key("Pages") != document::key("Threads"),
        document::key("Kids") != document::key("Count"),
{
    reveal_strlit("Pages");
    reveal_strlit("Outlines");
    reveal_strlit("Names");
    reveal_strlit("Dests");
    reveal_strlit("PageLabels");
    reveal_strlit("OpenAction");
    reveal_strlit("AA");
    reveal_strlit("AcroForm");
    reveal_strlit("StructTreeRoot");
    reveal_strlit("MarkInfo");
    reveal_strlit("Threads");
    reveal_strlit("Kids");
    reveal_strlit("Count");
    assert("Pages"@[0] != "Names"@[0]);
    assert("Pages"@[0] != "Dests"@[0]);
    document::keys_differ("Pages", "Outlines");
    document::keys_differ("Pages", "Names");
    document::keys_differ("Pages", "Dests");
    document::keys_differ("Pages", "PageLabels");
    document::keys_differ("Pages", "OpenAction");
    document::keys_differ("Pages", "AA");
    document::keys_differ("Pages", "AcroForm");
    document::keys_differ("Pages", "StructTreeRoot");
    document::keys_differ("Pages", "MarkInfo");
    document::keys_differ("Pages", "Threads");
    assert("Kids"@.len() != "Count"@.len());
    document::keys_differ("Kids", "Count");
}

/// The document that holds some of the pages has a page tree of exactly these pages, in order; the
/// pages, the root and the catalog are there with their own entries but for those that were put in
/// or taken out; and every other object that is there is as it was.
pub proof fn subset_holds_exactly_the_pages(
    objects: document::Objects,
    trailer: document::Entries,
    pages: Seq<ObjectId>,
    keep: Seq<u32>,
    catalog: ObjectId,
    root: ObjectId,
)
    requires
        kept_pages(pages, keep, pages.len()).len() > 0,
        laid_out(objects, trailer, kept_pages(pages, keep, pages.len()), catalog, root),
    ensures
        subset_objects(objects, trailer, pages, keep) matches Ok(part) && {
            let ids = kept_pages(pages, keep, pages.len());
            &&& part.dom().subset_of(objects.dom())
            &&& document::found_dictionary(part, catalog) == Some(
                catalog_entries(document::found_dictionary(objects, catalog)->0),
            )
            &&& document::found_dictionary(part, root) == Some(
                tree_entries(document::found_dictionary(objects, root)->0, ids),
            )
            &&& forall|i: int|
                0 <= i < ids.len() ==> document::found_dictionary(part, #[trigger] ids[i]) == Some(
                    page_entries(
                        objects,
                        ids[i],
                        document::found_dictionary(objects, ids[i])->0,
                        root,
                    ),
                )
            &&& forall|id: ObjectId| #[trigger]
                part.dom().contains(id) && Some(id) != document::end_id(objects, catalog) && Some(
                    id,
                ) != document::end_id(objects, root) && !is_end(objects, ids, id) ==> part[id]
                    == objects[id]
        },
{
    let ids = kept_pages(pages, keep, pages.len());
    lemma_removed_keys();
    let catalog_end = document::end_id(objects, catalog)->0;
    let root_end = document::end_id(objects, root)->0;
    document::lemma_target(objects, catalog, document::hop_limit());
    document::lemma_target(objects, root, document::hop_limit());
    lemma_with_pages(objects, ids, root);
    let paged = with_pages(objects, ids, root);
    assert(!is_end(objects, ids, catalog_end) && !is_end(objects, ids, root_end));
    assert(paged[root_end] == objects[root_end] && paged[catalog_end] == objects[catalog_end]);
    lemma_same_end(objects, paged, root, document::hop_limit());
    let listed = |entries: document::Entries| tree_entries(entries, ids);
    lemma_replaced(paged, root, listed);
    let rooted = replaced(paged, root, listed);
    assert(rooted[catalog_end] == objects[catalog_end]);
    lemma_same_end(paged, rooted, catalog, document::hop_limit());
    lemma_same_end(objects, paged, catalog, document::hop_limit());
    let bared = |entries: document::Entries| catalog_entries(entries);
    lemma_replaced(rooted, catalog, bared);
    let stripped = replaced(rooted, catalog, bared);
    assert(stripped == rebuilt(objects, ids, catalog, root));
    assert(same_references(objects, stripped));
    let part = document::pruned(stripped, trailer);
    let tree = tree_entries(document::found_dictionary(objects, root)->0, ids);
    let bare = catalog_entries(document::found_dictionary(objects, catalog)->0);
    assert(stripped[catalog_end] == document::Value::Dictionary(bare));
    assert(stripped[root_end] == document::Value::Dictionary(tree));
    lemma_same_end(objects, stripped, catalog, document::hop_limit());
    lemma_same_end(objects, stripped, root, document::hop_limit());
    assert(document::mentions(trailer[document::key("Root")], catalog));
    document::lemma_entry_mentions(trailer, document::key("Root"), catalog);
    assert(document::leads_to(stripped, trailer, seq![catalog], catalog));
    lemma_end_is_kept(stripped, trailer, catalog, document::hop_limit());
    assert(bare[document::key("Pages")] == document::Value::Reference(root));
    assert(document::mentions(bare[document::key("Pages")], root));
    document::lemma_entry_mentions(bare, document::key("Pages"), root);
    lemma_step(stripped, trailer, catalog_end, root);
    lemma_end_is_kept(stripped, trailer, root, document::hop_limit());
    let kids = ids.map_values(|id: ObjectId| document::Value::Reference(id));
    assert(tree[document::key("Kids")] == document::Value::Array(kids));
    assert forall|i: int| 0 <= i < ids.len() implies document::found_dictionary(
        part,
        #[trigger] ids[i],
    ) == Some(
        page_entries(objects, ids[i], document::found_dictionary(objects, ids[i])->0, root),
    ) by {
        assert(kids[i] == document::Value::Reference(ids[i]));
        assert(document::mentions(kids[i], ids[i]));
        document::lemma_item_mentions(kids, i, ids[i]);
        document::lemma_entry_mentions(tree, document::key("Kids"), ids[i]);
        lemma_step(stripped, trailer, root_end, ids[i]);
        lemma_same_end(objects, stripped, ids[i], document::hop_limit());
        lemma_end_is_kept(stripped, trailer, ids[i], document::hop_limit());
        document::lemma_target(objects, ids[i], document::hop_limit());
        assert(document::end_id(objects, ids[i]) is Some);
    }
}

/// The catalog of the document that holds some of the pages names the root of the page tree, and
/// has no outline, no names and destinations, no page labels, nothing that is done when the document
/// is opened or otherwise, no form, no structure and no threads.
pub proof fn subset_has_a_bare_catalog(
    objects: document::Objects,
    trailer: document::Entries,
    pages: Seq<ObjectId>,
    keep: Seq<u32>,
    catalog: ObjectId,
    root: ObjectId,
)
    requires
        kept_pages(pages, keep, pages.len()).len() > 0,
        laid_out(objects, trailer, kept_pages(pages, keep, pages.len()), catalog, root),
    ensures
        subset_objects(objects, trailer, pages, keep) matches Ok(part) && (document::catalog(
            part,
            trailer,
        ) matches Some(entries) && {
            &&& document::reference_at(entries, document::key("Pages")) == Some(root)
            &&& !entries.dom().contains(document::key("Outlines"))
            &&& !entries.dom().contains(document::key("Names"))
            &&& !entries.dom().contains(document::key("Dests"))
            &&& !entries.dom().contains(document::key("PageLabels"))
            &&& !entries.dom().contains(document::key("OpenAction"))
            &&& !entries.dom().contains(document::key("AA"))
            &&& !entries.dom().contains(document::key("AcroForm"))
            &&& !entries.dom().contains(document::key("StructTreeRoot"))
            &&& !entries.dom().contains(document::key("MarkInfo"))
            &&& !entries.dom().contains(document::key("Threads"))
        }),
{
    subset_holds_exactly_the_pages(objects, trailer, pages, keep, catalog, root);
    lemma_removed_keys();
}

/// The object is none of those that are changed: the catalog, the root and the kept pages.
pub open spec fn is_untouched(
    objects: document::Objects,
    ids: Seq<ObjectId>,
    catalog: ObjectId,
    root: ObjectId,
    id: ObjectId,
) -> bool {
    &&& objects.dom().contains(id)
    &&& Some(id) != document::end_id(objects, catalog)
    &&& Some(id) != document::end_id(objects, root)
    &&& !is_end(objects, ids, id)
}

/// `path` leads from a dictionary to objects that it draws on, over objects that are not changed.
pub open spec fn draws_on(
    objects: document::Objects,
    ids: Seq<ObjectId>,
    catalog: ObjectId,
    root: ObjectId,
    entries: document::Entries,
    path: Seq<ObjectId>,
) -> bool {
    &&& path.len() > 0
    &&& document::mentions(document::Value::Dictionary(entries), path[0])
    &&& forall|i: int|
        0 <= i < path.len() ==> is_untouched(objects, ids, catalog, root, #[trigger] path[i])
    &&& forall|i: int, j: int|
        0 <= i && j == i + 1 && j < path.len() ==> document::mentions(
            objects[#[trigger] path[i]],
            #[trigger] path[j],
        )
}

/// Whatever a kept page draws on, near or far, is in the document that holds some of the pages as it
/// was: its contents, its fonts and its images.
pub proof fn subset_keeps_what_pages_draw_on(
    objects: document::Objects,
    trailer: document::Entries,
    pages: Seq<ObjectId>,
    keep: Seq<u32>,
    catalog: ObjectId,
    root: ObjectId,
    i: int,
    path: Seq<ObjectId>,
)
    requires
        laid_out(objects, trailer, kept_pages(pages, keep, pages.len()), catalog, root),
        0 <= i < kept_pages(pages, keep, pages.len()).len(),
        draws_on(
            objects,
            kept_pages(pages, keep, pages.len()),
            catalog,
            root,
            page_entries(
                objects,
                kept_pages(pages, keep, pages.len())[i],
                document::found_dictionary(
                    objects,
                    kept_pages(pages, keep, pages.len())[i],
                )->0,
                root,
            ),
            path,
        ),
    ensures
        subset_objects(objects, trailer, pages, keep) matches Ok(part) && part.dom().contains(
            path.last(),
        ) && part[path.last()] == objects[path.last()],
    decreases path.len(),
{
    let ids = kept_pages(pages, keep, pages.len());
    let last = path.last();
    subset_holds_exactly_the_pages(objects, trailer, pages, keep, catalog, root);
    let part = subset_objects(objects, trailer, pages, keep)->Ok_0;
    let changed = rebuilt(objects, ids, catalog, root);
    lemma_rebuilt_dom(objects, ids, catalog, root);
    assert(is_untouched(objects, ids, catalog, root, path[path.len() - 1]));
    if path.len() == 1 {
        let end = document::end_id(part, ids[i])->0;
        document::lemma_target(part, ids[i], document::hop_limit());
        pruning_keeps_what_is_mentioned(changed, trailer, end, last);
    } else {
        let shorter = path.drop_last();
        assert forall|k: int| 0 <= k < shorter.len() implies is_untouched(
            objects,
            ids,
            catalog,
            root,
            #[trigger] shorter[k],
        ) by {
            assert(shorter[k] == path[k]);
        }
        assert forall|k: int, j: int|
            0 <= k && j == k + 1 && j < shorter.len() implies document::mentions(
            objects[#[trigger] shorter[k]],
            #[trigger] shorter[j],
        ) by {
            assert(shorter[k] == path[k] && shorter[j] == path[j]);
        }
        subset_keeps_what_pages_draw_on(
            objects,
            trailer,
            pages,
            keep,
            catalog,
            root,
            i,
            shorter,
        );
        let from = shorter.last();
        assert(from == path[path.len() - 2]);
        assert(document::mentions(objects[from], path[path.len() - 1]));
        pruning_keeps_what_is_mentioned(changed, trailer, from, last);
    }
}

proof fn lemma_replaced_dom(
    objects: document::Objects,
    id: ObjectId,
    change: spec_fn(document::Entries) -> document::Entries,
)
    ensures
        replaced(objects, id, change).dom() == objects.dom(),
{
    document::lemma_target(objects, id, document::hop_limit());
    assert(replaced(objects, id, change).dom() =~= objects.dom());
}

proof fn lemma_with_pages_dom(objects: document::Objects, ids: Seq<ObjectId>, root: ObjectId)
    ensures
        with_pages(objects, ids, root).dom() == objects.dom(),
    decreases ids.len(),
{
    if ids.len() > 0 {
        lemma_with_pages_dom(objects, ids.drop_last(), root);
        lemma_replaced_dom(
            with_pages(objects, ids.drop_last(), root),
            ids.last(),
            |entries: document::Entries| page_entries(objects, ids.last(), entries, root),
        );
    }
}

proof fn lemma_rebuilt_dom(
    objects: document::Objects,
    ids: Seq<ObjectId>,
    catalog: ObjectId,
    root: ObjectId,
)
    ensures
        rebuilt(objects, ids, catalog, root).dom() == objects.dom(),
{
    let paged = with_pages(objects, ids, root);
    let listed = |entries: document::Entries| tree_entries(entries, ids);
    lemma_with_pages_dom(objects, ids, root);
    lemma_replaced_dom(paged, root, listed);
    lemma_replaced_dom(
        replaced(paged, root, listed),
        catalog,
        |entries: document::Entries| catalog_entries(entries),
    );
}

/// What a reachable object mentions is reachable.
proof fn lemma_step(
    objects: document::Objects,
    trailer: document::Entries,
    from: ObjectId,
    to: ObjectId,
)
    requires
        document::reachable(objects, trailer, from),
        objects.dom().contains(from),
        document::mentions(objects[from], to),
    ensures
        document::reachable(objects, trailer, to),
{
    let path = choose|path: Seq<ObjectId>| document::leads_to(objects, trailer, path, from);
    let longer = path.push(to);
    assert forall|i: int| 0 <= i < longer.len() - 1 implies objects.dom().contains(
        #[trigger] longer[i],
    ) by {
        assert(longer[i] == path[i]);
    }
    assert forall|i: int, j: int|
        0 <= i && j == i + 1 && j < longer.len() implies document::mentions(
        objects[#[trigger] longer[i]],
        #[trigger] longer[j],
    ) by {
        if j < path.len() {
            assert(longer[i] == path[i] && longer[j] == path[j]);
        } else {
            assert(longer[i] == from && longer[j] == to);
        }
    }
    assert(longer[0] == path[0]);
    assert(longer.last() == to);
    assert(document::mentions(document::Value::Dictionary(trailer), longer[0]));
    assert(document::leads_to(objects, trailer, longer, to));
}

/// The references from a reachable object to the one that it stands for are kept with it.
proof fn lemma_end_is_kept(
    objects: document::Objects,
    trailer: document::Entries,
    id: ObjectId,
    hops: nat,
)
    requires
        document::reachable(objects, trailer, id),
    ensures
        document::target_id(document::pruned(objects, trailer), id, hops) == document::target_id(
            objects,
            id,
            hops,
        ),
        document::target_id(objects, id, hops) matches Some(end) ==> document::reachable(
            objects,
            trailer,
            end,
        ) && document::pruned(objects, trailer)[end] == objects[end],
    decreases hops,
{
    document::lemma_target(objects, id, hops);
    if objects.dom().contains(id) {
        if let document::Value::Reference(next) = objects[id] {
            if hops > 0 {
                assert(document::mentions(objects[id], next));
                lemma_step(objects, trailer, id, next);
                lemma_end_is_kept(objects, trailer, next, (hops - 1) as nat);
            }
        }
    }
}

proof fn lemma_kept_is_page(pages: Seq<ObjectId>, keep: Seq<u32>, n: nat, i: int) -> (k: int)
    requires
        n <= pages.len(),
        0 <= i < kept_pages(pages, keep, n).len(),
    ensures
        0 <= k < n,
        kept_pages(pages, keep, n)[i] == pages[k],
    decreases n,
{
    let before = kept_pages(pages, keep, (n - 1) as nat);
    if i < before.len() {
        lemma_kept_is_page(pages, keep, (n - 1) as nat, i)
    } else {
        n - 1
    }
}

proof fn lemma_type_key()
    ensures
        document::key("Type") != document::key("Resources"),
        document::key("Type") != document::key("MediaBox"),
        document::key("Type") != document::key("CropBox"),
        document::key("Type") != document::key("Rotate"),
        document::key("Type") != document::key("Parent"),
        document::key("Type") != document::key("Annots"),
        document::key("Type") != document::key("B"),
        document::key("Type") != document::key("AA"),
{
    reveal_strlit("Type");
    reveal_strlit("Resources");
    reveal_strlit("MediaBox");
    reveal_strlit("CropBox");
    reveal_strlit("Rotate");
    reveal_strlit("Parent");
    reveal_strlit("Annots");
    reveal_strlit("B");
    reveal_strlit("AA");
    document::keys_differ("Type", "Resources");
    document::keys_differ("Type", "MediaBox");
    document::keys_differ("Type", "CropBox");
    document::keys_differ("Type", "Rotate");
    document::keys_differ("Type", "Parent");
    document::keys_differ("Type", "Annots");
    document::keys_differ("Type", "B");
    document::keys_differ("Type", "AA");
}

/// The page tree of the document that holds some of the pages is flat: it lists exactly the pages
/// that were kept, in order. Such a document, when it is taken in again, has these pages and no
/// others.
pub proof fn subset_has_a_flat_tree(
    objects: document::Objects,
    trailer: document::Entries,
    pages: Seq<ObjectId>,
    keep: Seq<u32>,
    catalog: ObjectId,
    root: ObjectId,
)
    requires
        forall|i: int| 0 <= i < pages.len() ==> document::is_page(objects, #[trigger] pages[i]),
        kept_pages(pages, keep, pages.len()).len() > 0,
        laid_out(objects, trailer, kept_pages(pages, keep, pages.len()), catalog, root),
    ensures
        subset_objects(objects, trailer, pages, keep) matches Ok(part) && document::is_flat_tree(
            part,
            trailer,
            kept_pages(pages, keep, pages.len()),
        ),
{
    let ids = kept_pages(pages, keep, pages.len());
    subset_holds_exactly_the_pages(objects, trailer, pages, keep, catalog, root);
    lemma_removed_keys();
    lemma_type_key();
    let part = subset_objects(objects, trailer, pages, keep)->Ok_0;
    assert(document::root_id(part, trailer) == Some(root));
    assert(ids.no_duplicates());
    assert forall|i: int| 0 <= i < ids.len() implies document::is_page(part, #[trigger] ids[i]) by {
        let k = lemma_kept_is_page(pages, keep, pages.len(), i);
        assert(document::is_page(objects, pages[k]));
    }
}

proof fn lemma_inherited_keys()
    ensures
        document::key("Resources") != document::key("MediaBox"),
        document::key("Resources") != document::key("CropBox"),
        document::key("Resources") != document::key("Rotate"),
        document::key("Resources") != document::key("Parent"),
        document::key("Resources") != document::key("Annots"),
        document::key("Resources") != document::key("B"),
        document::key("Resources") != document::key("AA"),
        document::key("MediaBox") != document::key("CropBox"),
        document::key("MediaBox") != document::key("Rotate"),
        document::key("MediaBox") != document::key("Parent"),
        document::key("MediaBox") != document::key("Annots"),
        document::key("MediaBox") != document::key("B"),
        document::key("MediaBox") != document::key("AA"),
        document::key("CropBox") != document::key("Rotate"),
        document::key("CropBox") != document::key("Parent"),
        document::key("CropBox") != document::key("Annots"),
        document::key("CropBox") != document::key("B"),
        document::key("CropBox") != document::key("AA"),
        document::key("Rotate") != document::key("Parent"),
        document::key("Rotate") != document::key("Annots"),
        document::key("Rotate") != document::key("B"),
        document::key("Rotate") != document::key("AA"),
{
    reveal_strlit("Resources");
    reveal_strlit("MediaBox");
    reveal_strlit("CropBox");
    reveal_strlit("Rotate");
    reveal_strlit("Parent");
    reveal_strlit("Annots");
    reveal_strlit("B");
    reveal_strlit("AA");
    assert("Resources"@.len() == 9 && "MediaBox"@.len() == 8 && "CropBox"@.len() == 7);
    assert("Rotate"@.len() == 6 && "Parent"@.len() == 6 && "Annots"@.len() == 6);
    assert("B"@.len() == 1 && "AA"@.len() == 2);
    assert("Rotate"@[0] != "Parent"@[0]);
    assert("Rotate"@[0] != "Annots"@[0]);
    document::keys_differ("Resources", "MediaBox");
    document::keys_differ("Resources", "CropBox");
    document::keys_differ("Resources", "Rotate");
    document::keys_differ("Resources", "Parent");
    document::keys_differ("Resources", "Annots");
    document::keys_differ("Resources", "B");
    document::keys_differ("Resources", "AA");
    document::keys_differ("MediaBox", "CropBox");
    document::keys_differ("MediaBox", "Rotate");
    document::keys_differ("MediaBox", "Parent");
    document::keys_differ("MediaBox", "Annots");
    document::keys_differ("MediaBox", "B");
    document::keys_differ("MediaBox", "AA");
    document::keys_differ("CropBox", "Rotate");
    document::keys_differ("CropBox", "Parent");
    document::keys_differ("CropBox", "Annots");
    document::keys_differ("CropBox", "B");
    document::keys_differ("CropBox", "AA");
    document::keys_differ("Rotate", "Parent");
    document::keys_differ("Rotate", "Annots");
    document::keys_differ("Rotate", "B");
    document::keys_differ("Rotate", "AA");
}

/// What an entry holds, if it is there.
pub open spec fn entry(entries: document::Entries, key: Seq<u8>) -> Option<document::Value> {
    if entries.dom().contains(key) {
        Some(entries[key])
    } else {
        None
    }
}

/// A kept page has resources, boxes and a rotation of its own exactly where it had or inherited them
/// from below the root, and then the same ones. Where it has none, those of the root still hold.
pub proof fn pages_keep_what_they_inherit(
    objects: document::Objects,
    page: ObjectId,
    node: document::Entries,
    root: ObjectId,
)
    requires
        document::found_dictionary(objects, page) == Some(node),
    ensures
        entry(page_entries(objects, page, node, root), document::key("Resources")) == inherited(
            objects,
            node,
            document::key("Resources"),
            root,
            objects.dom().len(),
        ),
        entry(page_entries(objects, page, node, root), document::key("MediaBox")) == inherited(
            objects,
            node,
            document::key("MediaBox"),
            root,
            objects.dom().len(),
        ),
        entry(page_entries(objects, page, node, root), document::key("CropBox")) == inherited(
            objects,
            node,
            document::key("CropBox"),
            root,
            objects.dom().len(),
        ),
        entry(page_entries(objects, page, node, root), document::key("Rotate")) == inherited(
            objects,
            node,
            document::key("Rotate"),
            root,
            objects.dom().len(),
        ),
{
    lemma_inherited_keys();
}

/// Nothing that an object of the new document refers to was taken out with what cannot be reached.
pub proof fn pruning_keeps_what_is_mentioned(
    objects: document::Objects,
    trailer: document::Entries,
    from: ObjectId,
    to: ObjectId,
)
    requires
        document::pruned(objects, trailer).dom().contains(from),
        document::mentions(document::pruned(objects, trailer)[from], to),
        objects.dom().contains(to),
    ensures
        document::pruned(objects, trailer).dom().contains(to),
{
    assert(document::reachable(objects, trailer, from));
    assert(document::pruned(objects, trailer)[from] == objects[from]);
    lemma_step(objects, trailer, from, to);
}

/// The numbers, counted from 1, of the pages that are kept of the first `n`, in order.
proof fn lemma_kept_numbers(pages: Seq<ObjectId>, keep: Seq<u32>, n: nat) -> (numbers: Seq<u32>)
    requires
        n <= pages.len() <= u32::MAX,
    ensures
        kept_pages(pages, keep, n) == numbers.map_values(|k: u32| pages[k - 1]),
        forall|i: int| 0 <= i < numbers.len() ==> 1 <= #[trigger] numbers[i] <= n,
        forall|i: int, j: int| 0 <= i < j < numbers.len() ==> numbers[i] < numbers[j],
        forall|k: u32| 1 <= k <= n ==> (#[trigger] numbers.contains(k) <==> keep.contains(k)),
    decreases n,
{
    if n == 0 {
        let numbers = Seq::<u32>::empty();
        assert(kept_pages(pages, keep, n) =~= numbers.map_values(|k: u32| pages[k - 1]));
        numbers
    } else {
        let before = lemma_kept_numbers(pages, keep, (n - 1) as nat);
        let last = n as u32;
        let numbers = if keep.contains(last) {
            before.push(last)
        } else {
            before
        };
        assert(kept_pages(pages, keep, n) =~= numbers.map_values(|k: u32| pages[k - 1]));
        assert forall|k: u32| 1 <= k <= n implies (#[trigger] numbers.contains(k)
            <==> keep.contains(k)) by {
            if before.contains(k) {
                let i = choose|i: int| 0 <= i < before.len() && before[i] == k;
                assert(numbers[i] == k);
            }
            if keep.contains(last) {
                assert(numbers[before.len() as int] == last);
            }
            if numbers.contains(k) && k != last {
                let i = choose|i: int| 0 <= i < numbers.len() && numbers[i] == k;
                assert(before[i] == k);
            }
            if k == last && before.contains(k) {
                let i = choose|i: int| 0 <= i < before.len() && before[i] == k;
                assert(before[i] <= n - 1);
            }
        }
        numbers
    }
}

/// The kept pages are exactly those asked for, in page order: they are the pages with the numbers of
/// an increasing list, which holds a number of a page exactly where the numbers asked for do.
pub proof fn exactly_the_pages_asked_for_are_kept(pages: Seq<ObjectId>, keep: Seq<u32>) -> (numbers:
    Seq<u32>)
    requires
        pages.len() <= u32::MAX,
    ensures
        kept_pages(pages, keep, pages.len()).len() == numbers.len(),
        forall|i: int|
            0 <= i < numbers.len() ==> 1 <= #[trigger] numbers[i] <= pages.len() && kept_pages(
                pages,
                keep,
                pages.len(),
            )[i] == pages[numbers[i] - 1],
        forall|i: int, j: int| 0 <= i < j < numbers.len() ==> numbers[i] < numbers[j],
        forall|k: u32|
            1 <= k <= pages.len() ==> (#[trigger] numbers.contains(k) <==> keep.contains(k)),
{
    lemma_kept_numbers(pages, keep, pages.len())
}

/// As many pages are kept as different pages are asked for.
pub proof fn as_many_pages_are_kept_as_asked_for(pages: Seq<ObjectId>, keep: Seq<u32>)
    requires
        pages.len() <= u32::MAX,
        keep.no_duplicates(),
        forall|i: int| 0 <= i < keep.len() ==> 1 <= #[trigger] keep[i] <= pages.len(),
    ensures
        kept_pages(pages, keep, pages.len()).len() == keep.len(),
        forall|i: int|
            0 <= i < keep.len() ==> kept_pages(pages, keep, pages.len()).contains(
                pages[#[trigger] keep[i] - 1],
            ),
{
    let numbers = exactly_the_pages_asked_for_are_kept(pages, keep);
    assert(numbers.no_duplicates());
    assert forall|k: u32| numbers.contains(k) <==> keep.contains(k) by {
        if keep.contains(k) {
            let i = choose|i: int| 0 <= i < keep.len() && keep[i] == k;
            assert(1 <= keep[i] <= pages.len());
        }
        if numbers.contains(k) {
            let i = choose|i: int| 0 <= i < numbers.len() && numbers[i] == k;
            assert(1 <= numbers[i] <= pages.len());
        }
    }
    numbers.unique_seq_to_set();
    keep.unique_seq_to_set();
    assert(numbers.to_set() =~= keep.to_set());
    let kept = kept_pages(pages, keep, pages.len());
    assert forall|i: int| 0 <= i < keep.len() implies kept.contains(
        pages[#[trigger] keep[i] - 1],
    ) by {
        assert(keep.contains(keep[i]));
        assert(numbers.contains(keep[i]));
        let j = choose|j: int| 0 <= j < numbers.len() && numbers[j] == keep[i];
        assert(kept[j] == pages[numbers[j] - 1]);
    }
}

/// Where none of the numbers asked for is that of a page there is nothing to make a document of, and
/// it is said so.
pub proof fn asking_for_no_page_is_refused(
    objects: document::Objects,
    trailer: document::Entries,
    pages: Seq<ObjectId>,
    keep: Seq<u32>,
)
    requires
        pages.len() <= u32::MAX,
        forall|i: int| 0 <= i < keep.len() ==> !(1 <= #[trigger] keep[i] <= pages.len()),
    ensures
        subset_objects(objects, trailer, pages, keep) == Err::<document::Objects, Fault>(
            Fault::NoPages,
        ),
{
    let numbers = exactly_the_pages_asked_for_are_kept(pages, keep);
    if numbers.len() > 0 {
        assert(1 <= numbers[0] <= pages.len());
        assert(numbers.contains(numbers[0]));
        assert(keep.contains(numbers[0]));
        let i = choose|i: int| 0 <= i < keep.len() && keep[i] == numbers[0];
        assert(!(1 <= keep[i] <= pages.len()));
    }
}

/// In the catalog nothing is changed but that ten entries are gone.
pub proof fn catalog_keeps_its_other_entries(entries: document::Entries, key: Seq<u8>)
    ensures
        entry(catalog_entries(entries), key) == (if key == document::key(
            "Outlines",
        ) || key == document::key(
            "Names",
        ) || key == document::key(
            "Dests",
        ) || key == document::key(
            "PageLabels",
        ) || key == document::key(
            "OpenAction",
        ) || key == document::key(
            "AA",
        ) || key == document::key(
            "AcroForm",
        ) || key == document::key(
            "StructTreeRoot",
        ) || key == document::key(
            "MarkInfo",
        ) || key == document::key(
            "Threads",
        ) {
            None
        } else {
            entry(entries, key)
        }),
{
}

/// In the root of the page tree nothing is changed but the list of its pages, which are the kept ones
/// in order, and their number.
pub proof fn root_lists_the_kept_pages(
    entries: document::Entries,
    ids: Seq<ObjectId>,
    key: Seq<u8>,
)
    requires
        ids.len() <= u32::MAX,
    ensures
        key == document::key("Kids") ==> (entry(tree_entries(entries, ids), key) matches Some(
            document::Value::Array(items),
        ) && items.len() == ids.len() && (forall|i: int|
            0 <= i < items.len() ==> #[trigger] items[i] == document::Value::Reference(ids[i]))),
        key == document::key("Count") ==> (entry(tree_entries(entries, ids), key) matches Some(
            document::Value::Integer(n),
        ) && n == ids.len()),
        key != document::key("Kids") && key != document::key("Count") ==> entry(
            tree_entries(entries, ids),
            key,
        ) == entry(entries, key),
{
    lemma_removed_keys();
}

/// In the dictionary of a kept page the parent is the root, three entries are gone, and nothing else
/// is changed but the four that a page can inherit.
pub proof fn kept_page_keeps_its_other_entries(
    objects: document::Objects,
    page: ObjectId,
    entries: document::Entries,
    root: ObjectId,
    key: Seq<u8>,
)
    ensures
        key == document::key("Annots") || key == document::key("B") || key == document::key("AA")
            ==> entry(page_entries(objects, page, entries, root), key) is None,
        key == document::key("Parent") ==> entry(
            page_entries(objects, page, entries, root),
            key,
        ) == Some(document::Value::Reference(root)),
        key != document::key("Annots") && key != document::key("B") && key != document::key("AA")
            && key != document::key("Parent") && key != document::key("Resources") && key
            != document::key("MediaBox") && key != document::key("CropBox") && key
            != document::key("Rotate") ==> entry(
            page_entries(objects, page, entries, root),
            key,
        ) == entry(entries, key),
{
    reveal_strlit("Parent");
    reveal_strlit("Annots");
    reveal_strlit("B");
    reveal_strlit("AA");
    assert("Parent"@[0] != "Annots"@[0]);
    document::keys_differ("Parent", "Annots");
    assert("Parent"@.len() != "B"@.len() && "Parent"@.len() != "AA"@.len());
    document::keys_differ("Parent", "B");
    document::keys_differ("Parent", "AA");
}

/// What a node inherits under a key is what the nearest of the nodes above it has: on a way up from
/// the node, parent by parent and short of the root, it is the entry of the first one that has any.
pub proof fn the_nearest_node_is_inherited_from(
    objects: document::Objects,
    way: Seq<document::Entries>,
    parents: Seq<ObjectId>,
    key: Seq<u8>,
    root: ObjectId,
    steps: nat,
)
    requires
        0 < way.len() <= steps + 1,
        parents.len() == way.len() - 1,
        forall|i: int|
            0 <= i < parents.len() ==> {
                &&& #[trigger] parents[i] != root
                &&& document::reference_at(way[i], document::key("Parent")) == Some(parents[i])
                &&& document::found_dictionary(objects, parents[i]) == Some(way[i + 1])
                &&& !way[i].dom().contains(key)
            },
        way.last().dom().contains(key),
    ensures
        inherited(objects, way[0], key, root, steps) == Some(way.last()[key]),
    decreases way.len(),
{
    if way.len() > 1 {
        let rest = way.skip(1);
        let higher = parents.skip(1);
        assert(parents[0] != root);
        assert forall|i: int| 0 <= i < higher.len() implies {
            &&& #[trigger] higher[i] != root
            &&& document::reference_at(rest[i], document::key("Parent")) == Some(higher[i])
            &&& document::found_dictionary(objects, higher[i]) == Some(rest[i + 1])
            &&& !rest[i].dom().contains(key)
        } by {
            assert(higher[i] == parents[i + 1]);
        }
        the_nearest_node_is_inherited_from(objects, rest, higher, key, root, (steps - 1) as nat);
    }
}

/// Each thing that can be wrong is told by an error of its own.
pub proof fn faults_are_told_apart(error: PdfError)
    ensures
        Fault::NoPages.is_told_by(error) <==> error is NoPages,
        Fault::MissingRoot.is_told_by(error) <==> error is MissingRoot,
        Fault::MissingPages.is_told_by(error) <==> error is MissingPages,
        Fault::PagesNotDictionary.is_told_by(error) <==> error is PagesNotDictionary,
{
}

/// What is wrong with a document of which some pages are asked for: that its trailer refers to no
/// catalog, or that the catalog is none or refers to no root of the page tree.
pub proof fn documents_are_refused_for_a_reason(
    objects: document::Objects,
    trailer: document::Entries,
    pages: Seq<ObjectId>,
    keep: Seq<u32>,
)
    requires
        kept_pages(pages, keep, pages.len()).len() > 0,
    ensures
        document::reference_at(trailer, document::key("Root")) is None <==> subset_objects(
            objects,
            trailer,
            pages,
            keep,
        ) == Err::<document::Objects, Fault>(Fault::MissingRoot),
        document::reference_at(trailer, document::key("Root")) matches Some(catalog) ==> ((match
        document::found_dictionary(objects, catalog) {
            Some(entries) => document::reference_at(entries, document::key("Pages")) is None,
            None => true,
        }) <==> subset_objects(objects, trailer, pages, keep) == Err::<document::Objects, Fault>(
            Fault::MissingPages,
        )),
{
}

/// A node inherits nothing under a key that neither it has nor any node on the way up to the root.
pub proof fn nothing_is_inherited_from_the_root(
    objects: document::Objects,
    way: Seq<document::Entries>,
    parents: Seq<ObjectId>,
    key: Seq<u8>,
    root: ObjectId,
    steps: nat,
)
    requires
        0 < way.len() == parents.len(),
        forall|i: int|
            0 <= i < parents.len() ==> {
                &&& document::reference_at(way[i], document::key("Parent")) == Some(
                    #[trigger] parents[i],
                )
                &&& !way[i].dom().contains(key)
                &&& i + 1 < parents.len() ==> document::found_dictionary(objects, parents[i])
                    == Some(way[i + 1])
            },
        parents.last() == root,
    ensures
        inherited(objects, way[0], key, root, steps) is None,
    decreases way.len(),
{
    assert(document::reference_at(way[0], document::key("Parent")) == Some(parents[0]));
    if way.len() > 1 && steps > 0 && parents[0] != root {
        let rest = way.skip(1);
        let higher = parents.skip(1);
        assert forall|i: int| 0 <= i < higher.len() implies {
            &&& document::reference_at(rest[i], document::key("Parent")) == Some(
                #[trigger] higher[i],
            )
            &&& !rest[i].dom().contains(key)
            &&& i + 1 < higher.len() ==> document::found_dictionary(objects, higher[i]) == Some(
                rest[i + 1],
            )
        } by {
            assert(higher[i] == parents[i + 1]);
        }
        nothing_is_inherited_from_the_root(
            objects,
            rest,
            higher,
            key,
            root,
            (steps - 1) as nat,
        );
    } else if way.len() == 1 {
        assert(parents[0] == root);
    }
}

} // verus!
