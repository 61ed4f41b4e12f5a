//! PDF documents as the planner needs them: pages, outline and images, and the document that
//! holds some of the pages.

use crate::access;
use crate::document;
use crate::inspect;
use crate::level::Boundary;
use crate::outline;
use crate::outline::{OutlineItem, OutlineLine, Title};
use crate::subset;
use crate::titles;
use std::collections::HashSet;
use vstd::prelude::*;
use vstd::string::*;

pub use crate::outline::{ObjectId, OutlineEntry};

verus! {

/// Why a document cannot be used, or no part of it can be taken.
#[derive(Debug)]
pub enum PdfError {
    /// The document has more pages than can be numbered.
    TooManyPages,
    /// None of the pages asked for is a page of the document.
    NoPages,
    /// The trailer names no catalog; the text says why.
    MissingRoot(String),
    /// The catalog names no page tree; the text says why.
    MissingPages(String),
    /// The root of the page tree is not a dictionary.
    PagesNotDictionary,
}

impl PdfError {
    /// What is said about the error.
    pub open spec fn text(self) -> Seq<char> {
        match self {
            PdfError::TooManyPages => "PDF has too many pages"@,
            PdfError::NoPages => "subset_to_pages called with empty keep list"@,
            PdfError::MissingRoot(why) => "missing /Root in trailer: "@ + why@,
            PdfError::MissingPages(why) => "missing /Pages in catalog: "@ + why@,
            PdfError::PagesNotDictionary => "/Pages object is not a dictionary"@,
        }
    }

    /// What is said about the error.
    pub fn message(&self) -> (text: String)
        ensures
            text@ == self.text(),
    {
        match self {
            PdfError::TooManyPages => "PDF has too many pages".to_owned(),
            PdfError::NoPages => "subset_to_pages called with empty keep list".to_owned(),
            PdfError::MissingRoot(why) => {
                let mut text = "missing /Root in trailer: ".to_owned();
                text.append(why.as_str());
                text
            },
            PdfError::MissingPages(why) => {
                let mut text = "missing /Pages in catalog: ".to_owned();
                text.append(why.as_str());
                text
            },
            PdfError::PagesNotDictionary => "/Pages object is not a dictionary".to_owned(),
        }
    }
}

/// A document whose pages can be numbered.
pub struct Pdf {
    doc: lopdf::Document,
    pages: Vec<ObjectId>,
}

impl Pdf {
    /// The document's objects.
    pub closed spec fn objects(&self) -> document::Objects {
        document::document_objects(self.doc)
    }

    /// The document's trailer.
    pub closed spec fn trailer(&self) -> document::Entries {
        document::document_trailer(self.doc)
    }

    /// The version of PDF that the document declares.
    pub closed spec fn version(&self) -> Seq<char> {
        document::document_version(self.doc)
    }

    /// The largest number that an object of the document was given.
    pub closed spec fn max_id(&self) -> u32 {
        document::document_max_id(self.doc)
    }

    /// The document's pages, in order.
    pub open spec fn pages(&self) -> Seq<ObjectId> {
        document::page_order(self.objects(), self.trailer())
    }

    /// Reading the document's outline comes to an end.
    pub open spec fn outline_is_readable(&self) -> bool {
        document::outline_is_readable(self.objects(), self.trailer())
    }

    /// Reading the document's outline, entries without a title and all, comes to an end.
    pub open spec fn entries_are_readable(&self) -> bool {
        document::outline_is_readable(
            titles::entitled(self.objects(), self.trailer()),
            self.trailer(),
        )
    }

    /// The bookmarks that the outline puts on the pages, in the order of the tree.
    pub open spec fn bookmarks(&self) -> Seq<outline::Mark> {
        match document::outline_tree(self.objects(), self.trailer()) {
            Some(tree) => outline::marks(tree, 1, self.pages()),
            None => Seq::empty(),
        }
    }

    /// The entries of the outline, those without a title among them, in the order of the tree.
    pub open spec fn entry_list(&self) -> Seq<EntryView> {
        match document::outline_tree(
            titles::entitled(self.objects(), self.trailer()),
            self.trailer(),
        ) {
            Some(tree) => titled(self.objects(), outline::flattened(tree, 1, self.pages())),
            None => Seq::empty(),
        }
    }

    #[verifier::type_invariant]
    spec fn is_numbered(self) -> bool {
        &&& self.pages@ == document::page_order(
            document::document_objects(self.doc),
            document::document_trailer(self.doc),
        )
        &&& self.pages@.len() < u32::MAX
        &&& forall|i: int|
            0 <= i < self.pages@.len() ==> document::is_page(
                document::document_objects(self.doc),
                #[trigger] self.pages@[i],
            )
    }

    /// Takes a document whose pages can be numbered. Where its page tree is flat, its pages are
    /// those that the tree lists.
    pub fn new(doc: lopdf::Document) -> (pdf: Result<Pdf, PdfError>)
        ensures
            match pdf {
                Ok(pdf) => {
                    &&& pdf.objects() == document::document_objects(doc)
                    &&& pdf.trailer() == document::document_trailer(doc)
                    &&& pdf.version() == document::document_version(doc)
                    &&& pdf.max_id() == document::document_max_id(doc)
                    &&& pdf.pages().len() < u32::MAX
                    &&& forall|flat: Seq<ObjectId>| #[trigger]
                        document::is_flat_tree(pdf.objects(), pdf.trailer(), flat) ==> pdf.pages()
                            == flat
                },
                Err(error) => error is TooManyPages && document::page_order(
                    document::document_objects(doc),
                    document::document_trailer(doc),
                ).len() >= u32::MAX,
            },
    {
        let pages: Vec<ObjectId> = document::page_ids(&doc);
        if pages.len() >= u32::MAX as usize {
            return Err(PdfError::TooManyPages);
        }
        Ok(Pdf { doc, pages })
    }

    /// The document.
    pub fn document(&self) -> (doc: &lopdf::Document)
        ensures
            document::document_objects(*doc) == self.objects(),
            document::document_trailer(*doc) == self.trailer(),
            document::document_version(*doc) == self.version(),
            document::document_max_id(*doc) == self.max_id(),
    {
        &self.doc
    }

    /// Gives the document back.
    pub fn into_document(self) -> (doc: lopdf::Document)
        ensures
            document::document_objects(doc) == self.objects(),
            document::document_trailer(doc) == self.trailer(),
            document::document_version(doc) == self.version(),
            document::document_max_id(doc) == self.max_id(),
    {
        self.doc
    }

    /// Reading the document's outline comes to an end, down to no more than `depth` levels and along
    /// to no more than `reach` entries on each.
    pub fn check_outline(&self, depth: u32, reach: u32) -> (readable: bool)
        ensures
            readable == document::outline_reads_within(
                self.objects(),
                self.trailer(),
                depth as nat,
                reach as nat,
            ),
            readable ==> self.outline_is_readable(),
    {
        access::check_readable(&self.doc, depth, reach)
    }

    /// Reading the document's outline, entries without a title and all, comes to an end, down to no
    /// more than `depth` levels and along to no more than `reach` entries on each.
    pub fn check_entries(&self, depth: u32, reach: u32) -> (readable: bool)
        ensures
            readable == document::outline_reads_within(
                titles::entitled(self.objects(), self.trailer()),
                self.trailer(),
                depth as nat,
                reach as nat,
            ),
            readable ==> self.entries_are_readable(),
    {
        let doc: lopdf::Document = titles::entitle(&self.doc);
        access::check_readable(&doc, depth, reach)
    }

    /// The number of pages.
    pub fn page_count(&self) -> (count: usize)
        ensures
            count == self.pages().len(),
            count < u32::MAX,
    {
        proof {
            use_type_invariant(self);
        }
        self.pages.len()
    }

    /// The numbers of the pages, in order, counted from 1.
    pub fn page_nums(&self) -> (nums: Vec<u32>)
        ensures
            nums@.len() == self.pages().len(),
            forall|i: int| 0 <= i < nums@.len() ==> #[trigger] nums@[i] == i + 1,
    {
        proof {
            use_type_invariant(self);
        }
        let mut nums: Vec<u32> = Vec::new();
        let mut i: usize = 0;
        while i < self.pages.len()
            invariant
                i == nums@.len() <= self.pages@.len() < u32::MAX,
                forall|j: int| 0 <= j < nums@.len() ==> #[trigger] nums@[j] == j + 1,
            decreases self.pages@.len() - i,
        {
            nums.push((i + 1) as u32);
            i = i + 1;
        }
        nums
    }

    /// The number of images on a page, counted from 1. A number that is not a page's has none.
    pub fn image_count(&self, page_num: u32) -> (count: usize)
        ensures
            1 <= page_num <= self.pages().len() ==> count == image_ids(
                self.objects(),
                self.pages()[page_num - 1],
            ).len(),
            !(1 <= page_num <= self.pages().len()) ==> count == 0,
    {
        proof {
            use_type_invariant(self);
        }
        if page_num == 0 || page_num as usize > self.pages.len() {
            return 0;
        }
        count_images_on_page(&self.doc, self.pages[page_num as usize - 1])
    }

    /// The document that holds, of this one's pages, those whose numbers are in `keep`.
    pub fn subset(&self, keep: &[u32]) -> (part: Result<lopdf::Document, PdfError>)
        ensures
            match part {
                Ok(part) => subset::subset_objects(
                    self.objects(),
                    self.trailer(),
                    self.pages(),
                    keep@,
                ) == Ok::<document::Objects, subset::Fault>(document::document_objects(part))
                    && document::document_trailer(part) == self.trailer()
                    && document::document_version(part) == self.version()
                    && document::document_max_id(part) == self.max_id(),
                Err(error) => subset::subset_objects(
                    self.objects(),
                    self.trailer(),
                    self.pages(),
                    keep@,
                ) matches Err(fault) && fault.is_told_by(error),
            },
    {
        proof {
            use_type_invariant(self);
        }
        subset::subset_to_pages(&self.doc, self.pages.as_slice(), keep)
    }

    /// The document that holds, of this one's pages, those whose numbers are in `keep`, taken in
    /// again. Where this one is laid out as documents are, its pages are exactly these, in order.
    pub fn excerpt(&self, keep: &[u32]) -> (part: Result<Pdf, PdfError>)
        ensures
            match part {
                Ok(part) => {
                    &&& subset::subset_objects(
                        self.objects(),
                        self.trailer(),
                        self.pages(),
                        keep@,
                    ) == Ok::<document::Objects, subset::Fault>(part.objects())
                    &&& part.trailer() == self.trailer()
                    &&& part.version() == self.version()
                    &&& part.max_id() == self.max_id()
                    &&& forall|catalog: ObjectId, root: ObjectId| #[trigger]
                        subset::laid_out(
                            self.objects(),
                            self.trailer(),
                            subset::kept_pages(self.pages(), keep@, self.pages().len()),
                            catalog,
                            root,
                        ) ==> part.pages() == subset::kept_pages(
                            self.pages(),
                            keep@,
                            self.pages().len(),
                        )
                },
                Err(error) => match subset::subset_objects(
                    self.objects(),
                    self.trailer(),
                    self.pages(),
                    keep@,
                ) {
                    Ok(objects) => error is TooManyPages && document::page_order(
                        objects,
                        self.trailer(),
                    ).len() >= u32::MAX,
                    Err(fault) => fault.is_told_by(error),
                },
            },
    {
        proof {
            use_type_invariant(self);
        }
        let part: lopdf::Document = self.subset(keep)?;
        proof {
            let ids = subset::kept_pages(self.pages(), keep@, self.pages().len());
            assert forall|catalog: ObjectId, root: ObjectId| #[trigger]
                subset::laid_out(
                    self.objects(),
                    self.trailer(),
                    ids,
                    catalog,
                    root,
                ) implies document::is_flat_tree(
                document::document_objects(part),
                self.trailer(),
                ids,
            ) by {
                subset::subset_has_a_flat_tree(
                    self.objects(),
                    self.trailer(),
                    self.pages(),
                    keep@,
                    catalog,
                    root,
                );
            }
        }
        Pdf::new(part)
    }

    /// The boundary of each page. A page that the outline targets has a bookmark of the smallest
    /// depth at which it is targeted; the first page has one of depth 1 in any case.
    pub fn boundaries(&self) -> (levels: Vec<Boundary>)
        requires
            self.outline_is_readable(),
        ensures
            levels@.len() == self.pages().len(),
            outline::marked(levels@, self.bookmarks()),
    {
        proof {
            use_type_invariant(self);
        }
        let items: Vec<OutlineItem> = match read_outline(&self.doc) {
            Some(items) => items,
            None => Vec::new(),
        };
        assert(outline::nodes(Seq::empty()) =~= Seq::empty());
        outline::outline_boundaries(self.pages.as_slice(), &items)
    }

    /// The document has an outline with something in it.
    pub fn has_outline(&self) -> (has: bool)
        requires
            self.outline_is_readable(),
        ensures
            has == (document::outline_tree(self.objects(), self.trailer()) matches Some(tree)
                && tree.len() > 0),
    {
        match read_outline(&self.doc) {
            Some(items) => items.len() > 0,
            None => false,
        }
    }

    /// The entries of the outline, in the order of the tree, each one by itself, those without a
    /// title among them. Entries that lead to no page of the document are left out.
    pub fn outline_entries(&self) -> (entries: Vec<OutlineEntry>)
        requires
            self.entries_are_readable(),
        ensures
            entry_views(entries@) == self.entry_list(),
            forall|i: int|
                0 <= i < entries@.len() ==> 1 <= (#[trigger] entries@[i]).page
                    <= self.pages().len(),
    {
        proof {
            use_type_invariant(self);
        }
        let doc: lopdf::Document = titles::entitle(&self.doc);
        let items: Vec<OutlineItem> = match read_outline(&doc) {
            Some(items) => items,
            None => {
                let none: Vec<OutlineEntry> = Vec::new();
                assert(entry_views(none@) =~= Seq::empty());
                return none;
            },
        };
        let lines: Vec<OutlineLine> = outline::outline_lines(self.pages.as_slice(), &items);
        let entries: Vec<OutlineEntry> = list_entries(&self.doc, &lines);
        proof {
            let flat = outline::flattened(outline::nodes(items@), 1, self.pages());
            assert(outline::line_views(lines@) == flat);
            assert(entry_views(entries@) == titled(self.objects(), flat));
            assert(entry_views(entries@).len() == entries@.len());
            assert(titled(self.objects(), flat).len() == flat.len());
            assert forall|i: int| 0 <= i < entries@.len() implies 1 <= (
            #[trigger] entries@[i]).page <= self.pages().len() by {
                assert(titled(self.objects(), flat)[i].page == flat[i].page);
                outline::lines_name_pages(outline::nodes(items@), 1, self.pages(), i);
                assert(entry_views(entries@)[i].page == entries@[i].page);
            }
        }
        entries
    }
}

/// Where every entry of the outline has a title, the entries that are told of and the boundaries at
/// which the document may be split come from the same bookmarks.
pub proof fn entries_mark_the_boundaries(
    pdf: Pdf,
    levels: Seq<Boundary>,
    entries: Seq<OutlineEntry>,
)
    requires
        titles::every_entry_is_titled(pdf.objects(), pdf.trailer()),
        outline::marked(levels, pdf.bookmarks()),
        entry_views(entries) == pdf.entry_list(),
    ensures
        inspect::entry_marks(entries) == pdf.bookmarks(),
        outline::marked(levels, inspect::entry_marks(entries)),
{
    titles::titled_outline_is_unchanged(pdf.objects(), pdf.trailer());
    if let Some(tree) = document::outline_tree(pdf.objects(), pdf.trailer()) {
        outline::lines_are_bookmarks(tree, 1, pdf.pages());
        let lines = outline::flattened(tree, 1, pdf.pages());
        assert(titled(pdf.objects(), lines).len() == lines.len());
        assert forall|i: int| 0 <= i < entries.len() implies #[trigger] inspect::entry_marks(
            entries,
        )[i] == outline::line_marks(lines)[i] by {
            assert(entry_views(entries)[i] == titled(pdf.objects(), lines)[i]);
        }
    }
    assert(entry_views(entries).len() == entries.len());
    assert(inspect::entry_marks(entries) =~= pdf.bookmarks());
}

/// The outline, or `None` where the document has none that can be read.
fn read_outline(doc: &lopdf::Document) -> (items: Option<Vec<OutlineItem>>)
    requires
        document::outline_is_readable(
            document::document_objects(*doc),
            document::document_trailer(*doc),
        ),
    ensures
        match items {
            Some(items) => document::outline_tree(
                document::document_objects(*doc),
                document::document_trailer(*doc),
            ) == Some(outline::nodes(items@)),
            None => document::outline_tree(
                document::document_objects(*doc),
                document::document_trailer(*doc),
            ) is None,
        },
{
    let found: Vec<lopdf::Outline> = match document::get_outlines(doc) {
        Some(found) => found,
        None => {
            return None;
        },
    };
    let ghost given = found@;
    let mut items: Vec<OutlineItem> = Vec::new();
    for node in it: found
        invariant
            it.seq() == given,
            items@.len() == it.index(),
            forall|j: int|
                0 <= j < items@.len() ==> (#[trigger] items@[j]).node() == document::outline_value(
                    given[j],
                ),
    {
        items.push(document::outline_item(node));
    }
    assert(outline::nodes(items@) =~= given.map_values(
        |node: lopdf::Outline| document::outline_value(node),
    ));
    Some(items)
}

/// An entry of an outline, as a mathematical value.
pub struct EntryView {
    pub depth: u32,
    pub page: u32,
    pub title: Seq<char>,
}

/// The entries as mathematical values.
pub open spec fn entry_views(entries: Seq<OutlineEntry>) -> Seq<EntryView> {
    entries.map_values(
        |entry: OutlineEntry|
            EntryView { depth: entry.depth, page: entry.page, title: entry.title@ },
    )
}

/// The text of an entry's title, with a reference followed; empty where it has none.
pub open spec fn title_of(objects: document::Objects, title: outline::TitleValue) -> Seq<char> {
    match title {
        outline::TitleValue::Text(bytes) => outline::title_text(bytes),
        outline::TitleValue::Reference(id) => match document::found(objects, id) {
            Some(document::Value::Text(bytes)) => outline::title_text(bytes),
            _ => Seq::empty(),
        },
        outline::TitleValue::Other => Seq::empty(),
    }
}

/// The lines of an outline with the text of their titles.
pub open spec fn titled(objects: document::Objects, lines: Seq<outline::Line>) -> Seq<EntryView> {
    lines.map_values(
        |line: outline::Line|
            EntryView { depth: line.depth, page: line.page, title: title_of(objects, line.title) },
    )
}

/// The text of an entry's title.
fn read_title(doc: &lopdf::Document, title: &Title) -> (text: String)
    ensures
        text@ == title_of(document::document_objects(*doc), title@),
{
    match title {
        Title::Text(bytes) => {
            return outline::decode_title(bytes.as_slice());
        },
        Title::Reference(id) => {
            if let Ok(object) = document::get_object(doc, *id) {
                if let Ok(bytes) = document::as_text(object) {
                    return outline::decode_title(bytes);
                }
            }
        },
        Title::Other => {},
    }
    let text = String::new();
    assert(text@ =~= Seq::empty());
    text
}

/// The lines of an outline with the text of their titles.
fn list_entries(doc: &lopdf::Document, lines: &Vec<OutlineLine>) -> (entries: Vec<OutlineEntry>)
    ensures
        entry_views(entries@) == titled(
            document::document_objects(*doc),
            outline::line_views(lines@),
        ),
{
    let ghost all = titled(document::document_objects(*doc), outline::line_views(lines@));
    let mut entries: Vec<OutlineEntry> = Vec::new();
    let mut i: usize = 0;
    while i < lines.len()
        invariant
            i == entries@.len() <= lines@.len(),
            all == titled(document::document_objects(*doc), outline::line_views(lines@)),
            entry_views(entries@) == all.take(i as int),
        decreases lines@.len() - i,
    {
        let title: String = read_title(doc, &lines[i].title);
        let ghost before = entry_views(entries@);
        entries.push(OutlineEntry { depth: lines[i].depth, page: lines[i].page, title });
        i = i + 1;
        assert(entry_views(entries@) =~= before.push(all[i - 1]));
        assert(entry_views(entries@) =~= all.take(i as int));
    }
    assert(entry_views(entries@) =~= all);
    entries
}

/// The external objects among the resources with the given identifiers.
pub open spec fn external_objects(objects: document::Objects, ids: Seq<ObjectId>) -> Seq<
    document::Entries,
>
    decreases ids.len(),
{
    if ids.len() == 0 {
        Seq::empty()
    } else {
        external_objects(objects, ids.drop_last()) + (match document::found_dictionary(
            objects,
            ids.last(),
        ) {
            Some(resources) => own_external_objects(objects, resources),
            None => Seq::empty(),
        })
    }
}

/// The external objects that resources hold or refer to.
pub open spec fn own_external_objects(
    objects: document::Objects,
    resources: document::Entries,
) -> Seq<document::Entries> {
    match document::dictionary_under(objects, resources, document::key("XObject")) {
        Some(entries) => seq![entries],
        None => Seq::empty(),
    }
}

/// The external objects of a page.
pub open spec fn page_objects(objects: document::Objects, page: ObjectId) -> Seq<
    document::Entries,
> {
    match document::page_resources(objects, page) {
        Some((own, ids)) => (match own {
            Some(resources) => own_external_objects(objects, resources),
            None => Seq::empty(),
        }) + external_objects(objects, ids),
        None => Seq::empty(),
    }
}

/// Some of the dictionaries refers to `id`.
pub open spec fn referred_to(dicts: Seq<document::Entries>, id: ObjectId) -> bool {
    exists|i: int|
        0 <= i < dicts.len() && refers_to(#[trigger] dicts[i], id)
}

/// The object is an image.
pub open spec fn is_image(objects: document::Objects, id: ObjectId) -> bool {
    document::found(objects, id) matches Some(document::Value::Stream(entries, _))
        && entries.dom().contains(document::key("Subtype")) && entries[document::key("Subtype")]
        == document::Value::Name(document::key("Image"))
}

/// The images that a page refers to.
pub open spec fn image_ids(objects: document::Objects, page: ObjectId) -> Set<ObjectId> {
    Set::new(
        |id: ObjectId| is_image(objects, id) && referred_to(page_objects(objects, page), id),
    )
}

/// The object is an image.
fn check_image(doc: &lopdf::Document, id: ObjectId) -> (image: bool)
    ensures
        image == is_image(document::document_objects(*doc), id),
{
    let dict: &lopdf::Dictionary = match document::get_object(doc, id) {
        Ok(object) => match document::as_stream(object) {
            Ok(dict) => dict,
            Err(_) => {
                return false;
            },
        },
        Err(_) => {
            return false;
        },
    };
    match document::get_entry(dict, "Subtype") {
        Ok(kind) => access::is_named(kind, "Image"),
        Err(_) => false,
    }
}

/// What the dictionaries hold.
spec fn entries_of(dicts: Seq<&lopdf::Dictionary>) -> Seq<document::Entries> {
    dicts.map_values(|dict: &lopdf::Dictionary| document::dictionary_entries(*dict))
}

/// The external objects of a page.
fn list_page_objects<'a>(doc: &'a lopdf::Document, page: ObjectId) -> (dicts: Vec<
    &'a lopdf::Dictionary,
>)
    ensures
        entries_of(dicts@)
            == page_objects(document::document_objects(*doc), page),
{
    let ghost objects = document::document_objects(*doc);
    let mut dicts: Vec<&'a lopdf::Dictionary> = Vec::new();
    let (own, ids) = match document::get_page_resources(doc, page) {
        Ok(resources) => resources,
        Err(_) => {
            assert(entries_of(dicts@) =~= Seq::empty());
            return dicts;
        },
    };
    if let Some(resources) = own {
        if let Some(dict) = access::get_under(doc, resources, "XObject") {
            dicts.push(dict);
        }
    }
    let ghost first = match own {
        Some(resources) => own_external_objects(
            objects,
            document::dictionary_entries(*resources),
        ),
        None => Seq::empty(),
    };
    let mut i: usize = 0;
    assert(entries_of(dicts@)
        =~= first + external_objects(objects, ids@.take(0)));
    while i < ids.len()
        invariant
            i <= ids@.len(),
            objects == document::document_objects(*doc),
            entries_of(dicts@)
                == first + external_objects(objects, ids@.take(i as int)),
        decreases ids@.len() - i,
    {
        assert(ids@.take(i + 1).drop_last() =~= ids@.take(i as int));
        let ghost before = entries_of(dicts@);
        if let Ok(resources) = access::get_dictionary(doc, ids[i]) {
            if let Some(dict) = access::get_under(doc, resources, "XObject") {
                dicts.push(dict);
                assert(entries_of(dicts@) =~= before + seq![document::dictionary_entries(*dict)]);
            }
        }
        assert(entries_of(dicts@)
            =~= first + external_objects(objects, ids@.take(i + 1)));
        i = i + 1;
    }
    assert(ids@.take(i as int) =~= ids@);
    dicts
}

/// A dictionary refers to `id`.
pub open spec fn refers_to(entries: document::Entries, id: ObjectId) -> bool {
    exists|k: Seq<u8>|
        entries.dom().contains(k) && #[trigger] entries[k] == document::Value::Reference(id)
}

/// The identifiers that a dictionary refers to.
fn list_references(dict: &lopdf::Dictionary) -> (ids: Vec<ObjectId>)
    ensures
        forall|id: ObjectId| #[trigger]
            ids@.contains(id) <==> refers_to(document::dictionary_entries(*dict), id),
{
    let ghost entries = document::dictionary_entries(*dict);
    let values: Vec<&lopdf::Object> = document::entry_objects(dict);
    let mut ids: Vec<ObjectId> = Vec::new();
    let mut i: usize = 0;
    while i < values.len()
        invariant
            i <= values@.len(),
            forall|id: ObjectId| #[trigger]
                ids@.contains(id) <==> exists|j: int|
                    0 <= j < i && document::object_value(*#[trigger] values@[j])
                        == document::Value::Reference(id),
        decreases values@.len() - i,
    {
        let ghost before = ids@;
        if let Ok(id) = document::as_reference(values[i]) {
            ids.push(id);
        }
        proof {
            assert forall|id: ObjectId| #[trigger]
                ids@.contains(id) <==> exists|j: int|
                    0 <= j < i + 1 && document::object_value(*#[trigger] values@[j])
                        == document::Value::Reference(id) by {
                assert(before.contains(id) <==> exists|j: int|
                    0 <= j < i && document::object_value(*#[trigger] values@[j])
                        == document::Value::Reference(id));
                if before.contains(id) {
                    let m = choose|m: int| 0 <= m < before.len() && before[m] == id;
                    assert(ids@[m] == id);
                }
                if ids@.contains(id) && !before.contains(id) {
                    let m = choose|m: int| 0 <= m < ids@.len() && ids@[m] == id;
                    assert(m == before.len());
                    assert(document::object_value(*values@[i as int])
                        == document::Value::Reference(id));
                }
                if document::object_value(*values@[i as int]) == document::Value::Reference(id) {
                    assert(ids@[before.len() as int] == id);
                }
            }
        }
        i = i + 1;
    }
    assert forall|id: ObjectId| #[trigger] ids@.contains(id) <==> refers_to(entries, id) by {
        if refers_to(entries, id) {
            let k = choose|k: Seq<u8>|
                entries.dom().contains(k) && #[trigger] entries[k] == document::Value::Reference(
                    id,
                );
            let j = choose|j: int|
                0 <= j < values@.len() && document::object_value(*values@[j])
                    == #[trigger] entries[k];
            assert(document::object_value(*values@[j]) == document::Value::Reference(id));
        }
    }
    ids
}

/// The number of different images that a page refers to.
fn count_images_on_page(doc: &lopdf::Document, page: ObjectId) -> (count: usize)
    ensures
        count == image_ids(document::document_objects(*doc), page).len(),
{
    broadcast use vstd::std_specs::hash::group_hash_axioms;

    let ghost objects = document::document_objects(*doc);
    let dicts: Vec<&lopdf::Dictionary> = list_page_objects(doc, page);
    let ghost values = page_objects(objects, page);
    let mut images: Vec<ObjectId> = Vec::new();
    let mut seen: HashSet<u64> = HashSet::new();
    let mut i: usize = 0;
    while i < dicts.len()
        invariant
            i <= dicts@.len(),
            objects == document::document_objects(*doc),
            values == entries_of(dicts@),
            images@.no_duplicates(),
            forall|id: ObjectId| #[trigger]
                images@.contains(id) <==> is_image(objects, id) && seen@.contains(
                    outline::id_key(id) as u64,
                ),
            forall|id: ObjectId| #[trigger]
                seen@.contains(outline::id_key(id) as u64) <==> referred_to(
                    values.take(i as int),
                    id,
                ),
        decreases dicts@.len() - i,
    {
        broadcast use vstd::std_specs::hash::group_hash_axioms;

        let ids: Vec<ObjectId> = list_references(dicts[i]);
        let ghost done = values.take(i as int);
        let mut j: usize = 0;
        while j < ids.len()
            invariant
                j <= ids@.len(),
                objects == document::document_objects(*doc),
                images@.no_duplicates(),
                forall|id: ObjectId| #[trigger]
                    images@.contains(id) <==> is_image(objects, id) && seen@.contains(
                        outline::id_key(id) as u64,
                    ),
                forall|id: ObjectId| #[trigger]
                    seen@.contains(outline::id_key(id) as u64) <==> referred_to(done, id)
                        || ids@.take(j as int).contains(id),
            decreases ids@.len() - j,
        {
            broadcast use vstd::std_specs::hash::group_hash_axioms;

            let id: ObjectId = ids[j];
            let ghost before = images@;
            let ghost seen_before = seen@;
            let fresh: bool = seen.insert(outline::object_key(id));
            if fresh {
                assert(!before.contains(id)) by {
                    assert(!seen_before.contains(outline::id_key(id) as u64));
                }
                assert(forall|m: int| 0 <= m < before.len() ==> before[m] != id);
                if check_image(doc, id) {
                    images.push(id);
                }
            }
            proof {
                assert(forall|other: ObjectId|
                    outline::id_key(other) == outline::id_key(id) ==> other == id);
                assert(ids@.take(j + 1) =~= ids@.take(j as int).push(id));
                assert forall|other: ObjectId| #[trigger]
                    ids@.take(j + 1).contains(other) <==> ids@.take(j as int).contains(other)
                        || other == id by {
                    outline::lemma_push_contains(ids@.take(j as int), id, other);
                }
                assert forall|other: ObjectId| #[trigger]
                    images@.contains(other) <==> is_image(objects, other) && seen@.contains(
                        outline::id_key(other) as u64,
                    ) by {
                    outline::lemma_push_contains(before, id, other);
                    assert(before.contains(other) <==> is_image(objects, other)
                        && seen_before.contains(outline::id_key(other) as u64));
                }
            }
            j = j + 1;
        }
        proof {
            assert(ids@.take(j as int) =~= ids@);
            assert(values.take(i + 1) =~= done.push(values[i as int]));
            assert(values[i as int] == document::dictionary_entries(*dicts@[i as int]));
            assert forall|id: ObjectId| #[trigger]
                seen@.contains(outline::id_key(id) as u64) <==> referred_to(
                    values.take(i + 1),
                    id,
                ) by {
                let next = values.take(i + 1);
                if referred_to(done, id) {
                    let m = choose|m: int| 0 <= m < done.len() && refers_to(#[trigger] done[m], id);
                    assert(refers_to(next[m], id));
                }
                assert(next[i as int] == values[i as int]);
                if referred_to(next, id) {
                    let m = choose|m: int| 0 <= m < next.len() && refers_to(#[trigger] next[m], id);
                    if m < i {
                        assert(refers_to(done[m], id));
                    }
                }
            }
        }
        i = i + 1;
    }
    proof {
        assert(values.take(i as int) =~= values);
        images@.unique_seq_to_set();
        assert(images@.to_set() =~= image_ids(objects, page));
    }
    images.len()
}

/// The external objects of a page are the lists that its own resources hold or refer to, and those
/// that resources do which it takes over by reference; there are no others.
pub proof fn images_come_from_resources(
    objects: document::Objects,
    page: ObjectId,
    own: Option<document::Entries>,
    ids: Seq<ObjectId>,
    id: ObjectId,
)
    requires
        document::page_resources(objects, page) == Some((own, ids)),
    ensures
        image_ids(objects, page).contains(id) <==> {
            &&& document::found(objects, id) matches Some(document::Value::Stream(entries, _))
            &&& entries.dom().contains(document::key("Subtype"))
            &&& entries[document::key("Subtype")] == document::Value::Name(document::key("Image"))
            &&& (own matches Some(resources) && lists(objects, resources, id)) || (exists|k: int|
                0 <= k < ids.len() && (document::found_dictionary(
                    objects,
                    #[trigger] ids[k],
                ) matches Some(resources) && lists(objects, resources, id)))
        },
{
    let dicts = page_objects(objects, page);
    let first = match own {
        Some(resources) => own_external_objects(objects, resources),
        None => Seq::empty(),
    };
    lemma_external(objects, ids, id);
    lemma_joined(first, external_objects(objects, ids), id);
    if let Some(resources) = own {
        lemma_own(objects, resources, id);
    }
}

/// The resources hold or refer to a list of external objects in which the object is.
pub open spec fn lists(
    objects: document::Objects,
    resources: document::Entries,
    id: ObjectId,
) -> bool {
    document::dictionary_under(objects, resources, document::key("XObject")) matches Some(list)
        && (exists|k: Seq<u8>|
        list.dom().contains(k) && #[trigger] list[k] == document::Value::Reference(id))
}

proof fn lemma_own(objects: document::Objects, resources: document::Entries, id: ObjectId)
    ensures
        referred_to(own_external_objects(objects, resources), id) <==> lists(
            objects,
            resources,
            id,
        ),
{
    let dicts = own_external_objects(objects, resources);
    if let Some(list) = document::dictionary_under(
        objects,
        resources,
        document::key("XObject"),
    ) {
        assert(dicts[0] == list);
        assert(refers_to(list, id) <==> lists(objects, resources, id));
        if refers_to(list, id) {
            assert(refers_to(dicts[0], id));
        }
    }
}

proof fn lemma_joined(a: Seq<document::Entries>, b: Seq<document::Entries>, id: ObjectId)
    ensures
        referred_to(a + b, id) <==> referred_to(a, id) || referred_to(b, id),
{
    let both = a + b;
    if referred_to(a, id) {
        let i = choose|i: int| 0 <= i < a.len() && refers_to(#[trigger] a[i], id);
        assert(refers_to(both[i], id));
    }
    if referred_to(b, id) {
        let i = choose|i: int| 0 <= i < b.len() && refers_to(#[trigger] b[i], id);
        assert(both[a.len() + i] == b[i]);
        assert(refers_to(both[a.len() + i], id));
    }
    if referred_to(both, id) {
        let i = choose|i: int| 0 <= i < both.len() && refers_to(#[trigger] both[i], id);
        if i < a.len() {
            assert(refers_to(a[i], id));
        } else {
            assert(refers_to(b[i - a.len()], id));
        }
    }
}

proof fn lemma_external(objects: document::Objects, ids: Seq<ObjectId>, id: ObjectId)
    ensures
        referred_to(external_objects(objects, ids), id) <==> exists|k: int|
            0 <= k < ids.len() && (document::found_dictionary(
                objects,
                #[trigger] ids[k],
            ) matches Some(resources) && lists(objects, resources, id)),
    decreases ids.len(),
{
    if ids.len() > 0 {
        let shorter = ids.drop_last();
        let last = ids.len() - 1;
        lemma_external(objects, shorter, id);
        assert(forall|k: int| 0 <= k < shorter.len() ==> shorter[k] == #[trigger] ids[k]);
        assert(ids[last] == ids.last());
        let added = match document::found_dictionary(objects, ids.last()) {
            Some(resources) => own_external_objects(objects, resources),
            None => Seq::empty(),
        };
        lemma_joined(external_objects(objects, shorter), added, id);
        if let Some(resources) = document::found_dictionary(objects, ids.last()) {
            lemma_own(objects, resources, id);
        }
        if exists|k: int|
            0 <= k < shorter.len() && (document::found_dictionary(
                objects,
                #[trigger] shorter[k],
            ) matches Some(resources) && lists(objects, resources, id)) {
            let k = choose|k: int|
                0 <= k < shorter.len() && (document::found_dictionary(
                    objects,
                    #[trigger] shorter[k],
                ) matches Some(resources) && lists(objects, resources, id));
            assert(ids[k] == shorter[k]);
        }
    }
}

/// The text of a title: what its bytes say, or those of the object that it refers to; otherwise there
/// is none.
pub proof fn titles_are_read_through_references(
    objects: document::Objects,
    bytes: Seq<u8>,
    id: ObjectId,
)
    ensures
        title_of(objects, outline::TitleValue::Text(bytes)) == outline::title_text(bytes),
        document::found(objects, id) == Some(document::Value::Text(bytes)) ==> title_of(
            objects,
            outline::TitleValue::Reference(id),
        ) == outline::title_text(bytes),
        !(document::found(objects, id) matches Some(document::Value::Text(_))) ==> title_of(
            objects,
            outline::TitleValue::Reference(id),
        ).len() == 0,
        title_of(objects, outline::TitleValue::Other).len() == 0,
{
}

/// The entries of an outline are its lines, one for one: each has the depth and the page of its line
/// and the text of its title.
pub proof fn entries_are_the_lines(pdf: Pdf, entries: Seq<OutlineEntry>, i: int)
    requires
        entry_views(entries) == pdf.entry_list(),
        0 <= i < entries.len(),
    ensures
        document::outline_tree(
            titles::entitled(pdf.objects(), pdf.trailer()),
            pdf.trailer(),
        ) matches Some(tree) && {
            let lines = outline::flattened(tree, 1, pdf.pages());
            &&& entries.len() == lines.len()
            &&& entries[i].depth == lines[i].depth
            &&& entries[i].page == lines[i].page
            &&& entries[i].title@ == title_of(pdf.objects(), lines[i].title)
        },
{
    assert(entry_views(entries).len() == entries.len());
    assert(entry_views(entries)[i].depth == entries[i].depth);
    if let Some(tree) = document::outline_tree(
        titles::entitled(pdf.objects(), pdf.trailer()),
        pdf.trailer(),
    ) {
        let lines = outline::flattened(tree, 1, pdf.pages());
        assert(titled(pdf.objects(), lines).len() == lines.len());
        assert(titled(pdf.objects(), lines)[i].depth == lines[i].depth);
    }
}

/// What is said about each error.
pub proof fn pdf_errors_are_told_apart(why: String)
    ensures
        PdfError::TooManyPages.text() == "PDF has too many pages"@,
        PdfError::NoPages.text() == "subset_to_pages called with empty keep list"@,
        PdfError::MissingRoot(why).text() == "missing /Root in trailer: "@ + why@,
        PdfError::MissingPages(why).text() == "missing /Pages in catalog: "@ + why@,
        PdfError::PagesNotDictionary.text() == "/Pages object is not a dictionary"@,
{
}

/// The entries at the top of an outline stand at depth 1.
pub proof fn outlines_begin_at_depth_one(pdf: Pdf, tree: Seq<outline::OutlineNode>)
    requires
        document::outline_tree(pdf.objects(), pdf.trailer()) == Some(tree),
    ensures
        pdf.bookmarks() == outline::marks(tree, 1, pdf.pages()),
{
}

/// A document without an outline has no bookmarks.
pub proof fn no_outline_no_bookmarks(pdf: Pdf)
    requires
        document::outline_tree(pdf.objects(), pdf.trailer()) is None,
    ensures
        pdf.bookmarks().len() == 0,
{
}

} // verus!
