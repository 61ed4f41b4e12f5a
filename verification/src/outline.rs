//! The outline (bookmarks) of a document: its tree, the pages that it targets, and the boundary
//! that it gives to each page.

use crate::level::Boundary;
use std::collections::HashMap;
use vstd::prelude::*;
use vstd::string::*;

verus! {

/// The identifier of an object in a document: its number and its generation.
pub type ObjectId = (u32, u16);

/// One entry of a document's outline.
#[derive(Debug, Clone, PartialEq, Eq)]
pub struct OutlineEntry {
    /// Depth in the outline, counted from 1.
    pub depth: u32,
    /// Number, counted from 1, of the page that the entry targets.
    pub page: u32,
    /// Title text; empty where the entry has none.
    pub title: String,
}

/// Where an outline entry leads.
#[derive(Debug, Clone, Copy)]
pub enum Target {
    /// The page that is the object with this identifier.
    Page(ObjectId),
    /// The page with this index, counted from 0.
    Index(i64),
    /// Nothing that names a page.
    Other,
}

/// What an outline entry has for its title.
#[derive(Debug)]
pub enum Title {
    /// These bytes.
    Text(Vec<u8>),
    /// What the object with this identifier is.
    Reference(ObjectId),
    /// Nothing that is a text.
    Other,
}

/// What an outline entry has for its title, as a mathematical value.
pub enum TitleValue {
    Text(Seq<u8>),
    Reference(ObjectId),
    Other,
}

impl View for Title {
    type V = TitleValue;

    open spec fn view(&self) -> TitleValue {
        match *self {
            Title::Text(bytes) => TitleValue::Text(bytes@),
            Title::Reference(id) => TitleValue::Reference(id),
            Title::Other => TitleValue::Other,
        }
    }
}

/// A node of the outline tree: an entry, or the entries below the entry before it.
#[derive(Debug)]
pub enum OutlineItem {
    Destination(Target, Title),
    SubOutlines(Vec<OutlineItem>),
}

/// A node of the outline tree, as a mathematical value.
pub enum OutlineNode {
    Destination(Target, TitleValue),
    SubOutlines(Seq<OutlineNode>),
}

impl OutlineItem {
    /// The node as a mathematical value.
    pub open spec fn node(self) -> OutlineNode
        decreases self,
    {
        match self {
            OutlineItem::Destination(target, title) => OutlineNode::Destination(target, title@),
            OutlineItem::SubOutlines(children) => OutlineNode::SubOutlines(
                Seq::new(
                    children@.len(),
                    |i: int|
                        if 0 <= i < children@.len() {
                            children@[i].node()
                        } else {
                            arbitrary()
                        },
                ),
            ),
        }
    }
}

/// The nodes as mathematical values.
pub open spec fn nodes(outline: Seq<OutlineItem>) -> Seq<OutlineNode> {
    outline.map_values(|o: OutlineItem| o.node())
}

/// A bookmark: the depth at which it stands and the number of the page that it targets.
pub struct Mark {
    pub depth: u32,
    pub page: u32,
}

/// The number, counted from 1, of the last page that is the object `id`.
pub open spec fn page_number(pages: Seq<ObjectId>, id: ObjectId) -> Option<u32>
    decreases pages.len(),
{
    if pages.len() == 0 {
        None
    } else if pages.last() == id {
        Some(pages.len() as u32)
    } else {
        page_number(pages.drop_last(), id)
    }
}

/// The number of the page that a target names, if it is a page of the document.
pub open spec fn resolved(target: Target, pages: Seq<ObjectId>) -> Option<u32> {
    match target {
        Target::Page(id) => page_number(pages, id),
        Target::Index(i) => if 0 <= i < pages.len() {
            Some((i + 1) as u32)
        } else {
            None
        },
        Target::Other => None,
    }
}

/// One level further down.
pub open spec fn deeper(depth: u32) -> u32 {
    if depth < u32::MAX {
        (depth + 1) as u32
    } else {
        depth
    }
}

/// The bookmarks of an outline whose nodes stand at `depth`, in the order of the tree. Entries
/// that lead to no page of the document are left out.
pub open spec fn marks(outline: Seq<OutlineNode>, depth: u32, pages: Seq<ObjectId>) -> Seq<Mark>
    decreases outline,
{
    if outline.len() == 0 {
        Seq::empty()
    } else {
        marks(outline.drop_last(), depth, pages) + match outline.last() {
            OutlineNode::Destination(target, _) => match resolved(target, pages) {
                Some(page) => seq![Mark { depth, page }],
                None => Seq::empty(),
            },
            OutlineNode::SubOutlines(children) => marks(children, deeper(depth), pages),
        }
    }
}

/// The boundary of a page: a bookmark of the smallest depth at which the page is marked. The
/// first page of a document counts as marked at depth 1.
pub open spec fn boundary_of(bookmarks: Seq<Mark>, page: u32) -> Boundary
    decreases bookmarks.len(),
{
    if bookmarks.len() == 0 {
        if page == 1 {
            Boundary::Bookmark { depth: 1 }
        } else {
            Boundary::Page
        }
    } else {
        coarser(boundary_of(bookmarks.drop_last(), page), bookmarks.last(), page)
    }
}

/// What a further bookmark makes of a page's boundary.
pub open spec fn coarser(boundary: Boundary, mark: Mark, page: u32) -> Boundary {
    if mark.page != page {
        boundary
    } else {
        match boundary {
            Boundary::Bookmark { depth } => if depth <= mark.depth {
                boundary
            } else {
                Boundary::Bookmark { depth: mark.depth }
            },
            Boundary::Page => Boundary::Bookmark { depth: mark.depth },
        }
    }
}

/// The levels are the boundaries that the bookmarks give to the pages.
pub open spec fn marked(levels: Seq<Boundary>, bookmarks: Seq<Mark>) -> bool {
    forall|i: int|
        0 <= i < levels.len() ==> #[trigger] levels[i] == boundary_of(bookmarks, (i + 1) as u32)
}

/// An object identifier as one number.
pub open spec fn id_key(id: ObjectId) -> int {
    id.0 * 0x1_0000 + id.1
}

/// An object identifier as one number.
pub(crate) fn object_key(id: ObjectId) -> (key: u64)
    ensures
        key == id_key(id),
{
    id.0 as u64 * 0x1_0000 + id.1 as u64
}

/// A longer list holds what it held before, and what was put in.
pub proof fn lemma_push_contains(ids: Seq<ObjectId>, id: ObjectId, other: ObjectId)
    ensures
        ids.push(id).contains(other) <==> ids.contains(other) || other == id,
{
    let longer = ids.push(id);
    assert(longer[ids.len() as int] == id);
    if ids.contains(other) {
        let m = choose|m: int| 0 <= m < ids.len() && ids[m] == other;
        assert(longer[m] == other);
    }
    if longer.contains(other) && other != id {
        let m = choose|m: int| 0 <= m < longer.len() && longer[m] == other;
        assert(ids[m] == other);
    }
}

/// The map leads from each page's object to the page's number.
spec fn indexes(index: Map<u64, u32>, pages: Seq<ObjectId>) -> bool {
    &&& forall|id: ObjectId|
        (#[trigger] page_number(pages, id) matches Some(n) ==> index.dom().contains(
            id_key(id) as u64,
        ) && index[id_key(id) as u64] == n)
    &&& forall|id: ObjectId|
        #[trigger] page_number(pages, id) is None ==> !index.dom().contains(id_key(id) as u64)
}

/// The number of each page, by the page's object.
fn index_pages(pages: &[ObjectId]) -> (index: HashMap<u64, u32>)
    requires
        pages@.len() <= u32::MAX,
    ensures
        indexes(index@, pages@),
{
    broadcast use vstd::std_specs::hash::group_hash_axioms;

    let mut index: HashMap<u64, u32> = HashMap::new();
    let mut i: usize = 0;
    while i < pages.len()
        invariant
            i <= pages@.len() <= u32::MAX,
            indexes(index@, pages@.take(i as int)),
        decreases pages@.len() - i,
    {
        broadcast use vstd::std_specs::hash::group_hash_axioms;

        let ghost before = pages@.take(i as int);
        let ghost now = pages@.take(i + 1);
        proof {
            assert(now.drop_last() =~= before);
            assert forall|id: ObjectId| #[trigger]
                page_number(now, id) == (if id == pages@[i as int] {
                    Some((i + 1) as u32)
                } else {
                    page_number(before, id)
                }) by {}
            assert forall|a: ObjectId, b: ObjectId| #[trigger] id_key(a) == #[trigger] id_key(
                b,
            ) implies a == b by {}
        }
        index.insert(object_key(pages[i]), (i + 1) as u32);
        i = i + 1;
    }
    assert(pages@.take(i as int) =~= pages@);
    index
}

/// The number of the page that a target names, if it is a page of the document.
fn resolve_page(target: Target, index: &HashMap<u64, u32>, page_count: usize, Ghost(pages): Ghost<
    Seq<ObjectId>,
>) -> (page: Option<u32>)
    requires
        indexes(index@, pages),
        page_count == pages.len() <= u32::MAX,
    ensures
        page == resolved(target, pages),
{
    broadcast use vstd::std_specs::hash::group_hash_axioms;

    match target {
        Target::Page(id) => match index.get(&object_key(id)) {
            Some(n) => Some(*n),
            None => None,
        },
        Target::Index(i) => if i >= 0 && (i as u64) < page_count as u64 {
            Some(i as u32 + 1)
        } else {
            None
        },
        Target::Other => None,
    }
}

/// Marks the pages that the nodes target.
fn walk(
    outline: &Vec<OutlineItem>,
    depth: u32,
    index: &HashMap<u64, u32>,
    levels: &mut Vec<Boundary>,
    Ghost(pages): Ghost<Seq<ObjectId>>,
    Ghost(before): Ghost<Seq<Mark>>,
)
    requires
        indexes(index@, pages),
        old(levels)@.len() == pages.len() <= u32::MAX,
        marked(old(levels)@, before),
    ensures
        final(levels)@.len() == pages.len(),
        marked(final(levels)@, before + marks(nodes(outline@), depth, pages)),
    decreases outline,
{
    let mut i: usize = 0;
    let page_count: usize = levels.len();
    assert(before + marks(nodes(outline@.take(0)), depth, pages) =~= before);
    while i < outline.len()
        invariant
            i <= outline@.len(),
            indexes(index@, pages),
            page_count == levels@.len() == pages.len() <= u32::MAX,
            marked(levels@, before + marks(nodes(outline@.take(i as int)), depth, pages)),
        decreases outline@.len() - i,
    {
        let ghost seen = nodes(outline@.take(i as int));
        let ghost now = before + marks(seen, depth, pages);
        proof {
            assert(nodes(outline@.take(i + 1)).drop_last() =~= seen);
            assert(nodes(outline@.take(i + 1)).last() == outline@[i as int].node());
        }
        match &outline[i] {
            OutlineItem::Destination(target, _) => {
                if let Some(page) = resolve_page(*target, index, page_count, Ghost(pages)) {
                    proof {
                        lemma_resolved_in_range(*target, pages);
                    }
                    let at: usize = (page - 1) as usize;
                    let ghost mark = Mark { depth, page };
                    let marked_before: bool = match levels[at] {
                        Boundary::Bookmark { depth: current } => current <= depth,
                        Boundary::Page => false,
                    };
                    if !marked_before {
                        levels.set(at, Boundary::Bookmark { depth });
                    }
                    proof {
                        assert(now.push(mark).drop_last() =~= now);
                        assert(now.push(mark) =~= before + marks(
                            nodes(outline@.take(i + 1)),
                            depth,
                            pages,
                        ));
                    }
                } else {
                    assert(now =~= before + marks(nodes(outline@.take(i + 1)), depth, pages));
                }
            },
            OutlineItem::SubOutlines(children) => {
                let below: u32 = if depth < u32::MAX {
                    depth + 1
                } else {
                    depth
                };
                proof {
                    assert(outline@[i as int] == OutlineItem::SubOutlines(*children));
                    assert(outline@[i as int].node()->SubOutlines_0 =~= nodes(children@));
                    assert(decreases_to!(outline => outline@));
                    assert(decreases_to!(outline@ => outline@[i as int]));
                    assert(decreases_to!(outline@[i as int] => children));
                }
                walk(children, below, index, levels, Ghost(pages), Ghost(now));
                assert(now + marks(nodes(children@), below, pages) =~= before + marks(
                    nodes(outline@.take(i + 1)),
                    depth,
                    pages,
                ));
            },
        }
        i = i + 1;
    }
    assert(outline@.take(i as int) =~= outline@);
}

proof fn lemma_page_number_in_range(pages: Seq<ObjectId>, id: ObjectId)
    requires
        pages.len() <= u32::MAX,
    ensures
        page_number(pages, id) matches Some(n) ==> 1 <= n <= pages.len() && pages[n - 1] == id,
    decreases pages.len(),
{
    if pages.len() > 0 {
        lemma_page_number_in_range(pages.drop_last(), id);
    }
}

proof fn lemma_resolved_in_range(target: Target, pages: Seq<ObjectId>)
    requires
        pages.len() <= u32::MAX,
    ensures
        resolved(target, pages) matches Some(n) ==> 1 <= n <= pages.len(),
{
    if let Target::Page(id) = target {
        lemma_page_number_in_range(pages, id);
    }
}

/// The boundary of each page of a document with the given pages and outline.
pub fn outline_boundaries(pages: &[ObjectId], outline: &Vec<OutlineItem>) -> (levels: Vec<Boundary>)
    requires
        pages@.len() <= u32::MAX,
    ensures
        levels@.len() == pages@.len(),
        marked(levels@, marks(nodes(outline@), 1, pages@)),
{
    let mut levels: Vec<Boundary> = Vec::new();
    let mut i: usize = 0;
    while i < pages.len()
        invariant
            i == levels@.len() <= pages@.len() <= u32::MAX,
            marked(levels@, Seq::empty()),
        decreases pages@.len() - i,
    {
        if i == 0 {
            levels.push(Boundary::Bookmark { depth: 1 });
        } else {
            levels.push(Boundary::Page);
        }
        i = i + 1;
    }
    let index: HashMap<u64, u32> = index_pages(pages);
    walk(outline, 1, &index, &mut levels, Ghost(pages@), Ghost(Seq::empty()));
    assert(Seq::<Mark>::empty() + marks(nodes(outline@), 1, pages@) =~= marks(
        nodes(outline@),
        1,
        pages@,
    ));
    levels
}

/// An entry of an outline, flattened: its depth, the number of the page that it targets, and what it
/// has for its title.
#[derive(Debug)]
pub struct OutlineLine {
    pub depth: u32,
    pub page: u32,
    pub title: Title,
}

/// An entry of an outline, flattened, as a mathematical value.
pub struct Line {
    pub depth: u32,
    pub page: u32,
    pub title: TitleValue,
}

impl View for OutlineLine {
    type V = Line;

    open spec fn view(&self) -> Line {
        Line { depth: self.depth, page: self.page, title: self.title@ }
    }
}

/// The lines as mathematical values.
pub open spec fn line_views(lines: Seq<OutlineLine>) -> Seq<Line> {
    lines.map_values(|line: OutlineLine| line@)
}

/// The entries of an outline whose nodes stand at `depth`, in the order of the tree, each one a line
/// of its own. Entries that lead to no page of the document are left out.
pub open spec fn flattened(outline: Seq<OutlineNode>, depth: u32, pages: Seq<ObjectId>) -> Seq<Line>
    decreases outline,
{
    if outline.len() == 0 {
        Seq::empty()
    } else {
        flattened(outline.drop_last(), depth, pages) + match outline.last() {
            OutlineNode::Destination(target, title) => match resolved(target, pages) {
                Some(page) => seq![Line { depth, page, title }],
                None => Seq::empty(),
            },
            OutlineNode::SubOutlines(children) => flattened(children, deeper(depth), pages),
        }
    }
}

/// The bookmarks that the lines are.
pub open spec fn line_marks(lines: Seq<Line>) -> Seq<Mark> {
    lines.map_values(|line: Line| Mark { depth: line.depth, page: line.page })
}

/// The lines of an outline are its bookmarks, one for one: what is printed of an outline and where
/// it allows a document to be split agree.
pub proof fn lines_are_bookmarks(outline: Seq<OutlineNode>, depth: u32, pages: Seq<ObjectId>)
    ensures
        line_marks(flattened(outline, depth, pages)) == marks(outline, depth, pages),
    decreases outline,
{
    if outline.len() == 0 {
        assert(line_marks(flattened(outline, depth, pages)) =~= marks(outline, depth, pages));
    } else {
        lines_are_bookmarks(outline.drop_last(), depth, pages);
        if let OutlineNode::SubOutlines(children) = outline.last() {
            assert(decreases_to!(outline => outline[outline.len() - 1]));
            lines_are_bookmarks(children, deeper(depth), pages);
        }
        assert(line_marks(flattened(outline, depth, pages)) =~= marks(outline, depth, pages));
    }
}

/// Every line of an outline names a page of the document.
pub proof fn lines_name_pages(outline: Seq<OutlineNode>, depth: u32, pages: Seq<ObjectId>, i: int)
    requires
        pages.len() <= u32::MAX,
        0 <= i < flattened(outline, depth, pages).len(),
    ensures
        1 <= flattened(outline, depth, pages)[i].page <= pages.len(),
    decreases outline,
{
    if outline.len() > 0 {
        let before = flattened(outline.drop_last(), depth, pages);
        if i < before.len() {
            lines_name_pages(outline.drop_last(), depth, pages, i);
        } else {
            match outline.last() {
                OutlineNode::Destination(target, _) => {
                    lemma_resolved_in_range(target, pages);
                },
                OutlineNode::SubOutlines(children) => {
                    assert(decreases_to!(outline => outline[outline.len() - 1]));
                    lines_name_pages(children, deeper(depth), pages, i - before.len());
                },
            }
        }
    }
}

/// A copy of what an entry has for its title.
fn copy_title(title: &Title) -> (copy: Title)
    ensures
        copy@ == title@,
{
    match title {
        Title::Text(bytes) => {
            let mut copy: Vec<u8> = Vec::new();
            let mut i: usize = 0;
            while i < bytes.len()
                invariant
                    i <= bytes@.len(),
                    copy@ == bytes@.take(i as int),
                decreases bytes@.len() - i,
            {
                copy.push(bytes[i]);
                i = i + 1;
                assert(copy@ =~= bytes@.take(i as int));
            }
            assert(copy@ =~= bytes@);
            Title::Text(copy)
        },
        Title::Reference(id) => Title::Reference(*id),
        Title::Other => Title::Other,
    }
}

/// Appends the lines of the nodes.
fn flatten(
    outline: &Vec<OutlineItem>,
    depth: u32,
    index: &HashMap<u64, u32>,
    page_count: usize,
    lines: &mut Vec<OutlineLine>,
    Ghost(pages): Ghost<Seq<ObjectId>>,
)
    requires
        indexes(index@, pages),
        page_count == pages.len() <= u32::MAX,
    ensures
        line_views(final(lines)@) == line_views(old(lines)@) + flattened(
            nodes(outline@),
            depth,
            pages,
        ),
    decreases outline,
{
    let ghost before = line_views(lines@);
    let mut i: usize = 0;
    assert(before + flattened(nodes(outline@.take(0)), depth, pages) =~= before);
    while i < outline.len()
        invariant
            i <= outline@.len(),
            indexes(index@, pages),
            page_count == pages.len() <= u32::MAX,
            line_views(lines@) == before + flattened(nodes(outline@.take(i as int)), depth, pages),
        decreases outline@.len() - i,
    {
        let ghost seen = nodes(outline@.take(i as int));
        let ghost now = line_views(lines@);
        proof {
            assert(nodes(outline@.take(i + 1)).drop_last() =~= seen);
            assert(nodes(outline@.take(i + 1)).last() == outline@[i as int].node());
        }
        match &outline[i] {
            OutlineItem::Destination(target, title) => {
                if let Some(page) = resolve_page(*target, index, page_count, Ghost(pages)) {
                    let line = OutlineLine { depth, page, title: copy_title(title) };
                    let ghost view = line@;
                    lines.push(line);
                    assert(line_views(lines@) =~= now.push(view));
                }
                assert(line_views(lines@) =~= before + flattened(
                    nodes(outline@.take(i + 1)),
                    depth,
                    pages,
                ));
            },
            OutlineItem::SubOutlines(children) => {
                let below: u32 = if depth < u32::MAX {
                    depth + 1
                } else {
                    depth
                };
                proof {
                    assert(outline@[i as int] == OutlineItem::SubOutlines(*children));
                    assert(outline@[i as int].node()->SubOutlines_0 =~= nodes(children@));
                    assert(decreases_to!(outline => outline@));
                    assert(decreases_to!(outline@ => outline@[i as int]));
                    assert(decreases_to!(outline@[i as int] => children));
                }
                flatten(children, below, index, page_count, lines, Ghost(pages));
                assert(line_views(lines@) =~= before + flattened(
                    nodes(outline@.take(i + 1)),
                    depth,
                    pages,
                ));
            },
        }
        i = i + 1;
    }
    assert(outline@.take(i as int) =~= outline@);
}

/// The entries of an outline, in the order of the tree, each one a line of its own. Entries that
/// lead to no page of the document are left out.
pub fn outline_lines(pages: &[ObjectId], outline: &Vec<OutlineItem>) -> (lines: Vec<OutlineLine>)
    requires
        pages@.len() <= u32::MAX,
    ensures
        line_views(lines@) == flattened(nodes(outline@), 1, pages@),
{
    let mut lines: Vec<OutlineLine> = Vec::new();
    let index: HashMap<u64, u32> = index_pages(pages);
    flatten(outline, 1, &index, pages.len(), &mut lines, Ghost(pages@));
    assert(line_views(lines@) =~= flattened(nodes(outline@), 1, pages@));
    lines
}

/// The text that `String::from_utf8_lossy` reads from bytes.
pub uninterp spec fn utf8_lossy(bytes: Seq<u8>) -> Seq<char>;

/// The text that `String::from_utf16_lossy` reads from 16-bit units.
pub uninterp spec fn utf16_lossy(units: Seq<u16>) -> Seq<char>;

/// `String::from_utf8_lossy`: the bytes read as UTF-8, with a replacement character for what cannot
/// be read.
#[verifier::external_body]
fn from_utf8_lossy(bytes: &[u8]) -> (text: String)
    ensures
        text@ == utf8_lossy(bytes@),
{
    String::from_utf8_lossy(bytes).into_owned()
}

/// `String::from_utf16_lossy`: the units read as UTF-16, with a replacement character for what
/// cannot be read.
#[verifier::external_body]
fn from_utf16_lossy(units: &[u16]) -> (text: String)
    ensures
        text@ == utf16_lossy(units@),
{
    String::from_utf16_lossy(units)
}

/// Two bytes as a 16-bit unit, the high one given first.
pub open spec fn unit(high: u8, low: u8) -> u16 {
    (high * 0x100 + low) as u16
}

/// The 16-bit units that pairs of bytes are, behind the first pair; the high byte of each comes
/// first, or the low one where `swapped`.
pub open spec fn units_of(bytes: Seq<u8>, swapped: bool) -> Seq<u16> {
    Seq::new(
        (bytes.len() / 2 - 1) as nat,
        |i: int|
            if swapped {
                unit(bytes[2 * i + 3], bytes[2 * i + 2])
            } else {
                unit(bytes[2 * i + 2], bytes[2 * i + 3])
            },
    )
}

/// The text of a title. Behind a byte order mark it is UTF-16; without one it is UTF-8. Where half a
/// unit is left over there is none.
pub open spec fn title_text(bytes: Seq<u8>) -> Seq<char> {
    let big = bytes.len() >= 2 && bytes[0] == 0xfe && bytes[1] == 0xff;
    let little = bytes.len() >= 2 && bytes[0] == 0xff && bytes[1] == 0xfe;
    if !big && !little {
        utf8_lossy(bytes)
    } else if bytes.len() % 2 != 0 {
        Seq::empty()
    } else {
        utf16_lossy(units_of(bytes, little))
    }
}

/// The 16-bit units that pairs of bytes are, behind the first pair.
pub fn pair_bytes(bytes: &[u8], swapped: bool) -> (units: Vec<u16>)
    requires
        bytes@.len() >= 2,
    ensures
        units@ == units_of(bytes@, swapped),
{
    let mut units: Vec<u16> = Vec::new();
    let count: usize = bytes.len() / 2 - 1;
    let mut i: usize = 0;
    while i < count
        invariant
            count == bytes@.len() / 2 - 1,
            2 * count + 2 <= bytes@.len() <= usize::MAX,
            i <= count,
            units@ == units_of(bytes@, swapped).take(i as int),
        decreases count - i,
    {
        let first: u8 = bytes[2 * i + 2];
        let second: u8 = bytes[2 * i + 3];
        let next: u16 = if swapped {
            second as u16 * 0x100 + first as u16
        } else {
            first as u16 * 0x100 + second as u16
        };
        units.push(next);
        i = i + 1;
        assert(units@ =~= units_of(bytes@, swapped).take(i as int));
    }
    assert(units@ =~= units_of(bytes@, swapped));
    units
}

/// The text of a title.
pub fn decode_title(bytes: &[u8]) -> (text: String)
    ensures
        text@ == title_text(bytes@),
{
    let big: bool = bytes.len() >= 2 && bytes[0] == 0xfe && bytes[1] == 0xff;
    let little: bool = bytes.len() >= 2 && bytes[0] == 0xff && bytes[1] == 0xfe;
    if !big && !little {
        from_utf8_lossy(bytes)
    } else if bytes.len() % 2 != 0 {
        let text = String::new();
        assert(text@ =~= Seq::empty());
        text
    } else {
        from_utf16_lossy(pair_bytes(bytes, little).as_slice())
    }
}

/// A page that some bookmark targets, and the first page, has a bookmark for its boundary, at the
/// smallest depth of them; any other page has none.
pub proof fn boundary_is_coarsest(bookmarks: Seq<Mark>, page: u32)
    ensures
        boundary_of(bookmarks, page) is Page <==> page != 1 && (forall|i: int|
            0 <= i < bookmarks.len() ==> (#[trigger] bookmarks[i]).page != page),
        boundary_of(bookmarks, page) matches Boundary::Bookmark { depth } ==> {
            &&& forall|i: int|
                0 <= i < bookmarks.len() && (#[trigger] bookmarks[i]).page == page ==> depth
                    <= bookmarks[i].depth
            &&& page == 1 ==> depth <= 1
            &&& (page == 1 && depth == 1) || exists|i: int|
                0 <= i < bookmarks.len() && (#[trigger] bookmarks[i]).page == page
                    && bookmarks[i].depth == depth
        },
    decreases bookmarks.len(),
{
    if bookmarks.len() > 0 {
        let shorter = bookmarks.drop_last();
        boundary_is_coarsest(shorter, page);
        assert(forall|i: int| 0 <= i < shorter.len() ==> shorter[i] == #[trigger] bookmarks[i]);
        let last = bookmarks.len() - 1;
        assert(bookmarks[last] == bookmarks.last());
        match boundary_of(shorter, page) {
            Boundary::Bookmark { depth } => {
                if exists|i: int|
                    0 <= i < shorter.len() && (#[trigger] shorter[i]).page == page
                        && shorter[i].depth == depth {
                    let i = choose|i: int|
                        0 <= i < shorter.len() && (#[trigger] shorter[i]).page == page
                            && shorter[i].depth == depth;
                    assert(bookmarks[i] == shorter[i]);
                }
            },
            Boundary::Page => {},
        }
    }
}

/// What stands below an entry stands one level further down than the entry itself.
pub proof fn children_stand_one_deeper(
    children: Seq<OutlineNode>,
    depth: u32,
    pages: Seq<ObjectId>,
)
    requires
        depth < u32::MAX,
    ensures
        marks(seq![OutlineNode::SubOutlines(children)], depth, pages) == marks(
            children,
            (depth + 1) as u32,
            pages,
        ),
        flattened(seq![OutlineNode::SubOutlines(children)], depth, pages) == flattened(
            children,
            (depth + 1) as u32,
            pages,
        ),
{
    let outline = seq![OutlineNode::SubOutlines(children)];
    assert(outline.drop_last() =~= Seq::empty());
    assert(outline.last() == OutlineNode::SubOutlines(children));
    assert(marks(outline.drop_last(), depth, pages) =~= Seq::empty());
    assert(flattened(outline.drop_last(), depth, pages) =~= Seq::empty());
    assert(marks(outline, depth, pages) =~= marks(children, (depth + 1) as u32, pages));
    assert(flattened(outline, depth, pages) =~= flattened(children, (depth + 1) as u32, pages));
}

/// An entry is one bookmark and one line, at the depth at which it stands, for the page that it leads
/// to and with its own title; it is none where it leads to no page.
pub proof fn an_entry_is_one_bookmark(
    target: Target,
    title: TitleValue,
    depth: u32,
    pages: Seq<ObjectId>,
)
    ensures
        marks(seq![OutlineNode::Destination(target, title)], depth, pages) == (match resolved(
            target,
            pages,
        ) {
            Some(page) => seq![Mark { depth, page }],
            None => Seq::empty(),
        }),
        flattened(seq![OutlineNode::Destination(target, title)], depth, pages) == (match resolved(
            target,
            pages,
        ) {
            Some(page) => seq![Line { depth, page, title }],
            None => Seq::empty(),
        }),
{
    let outline = seq![OutlineNode::Destination(target, title)];
    assert(outline.drop_last() =~= Seq::empty());
    assert(outline.last() == OutlineNode::Destination(target, title));
    assert(marks(outline.drop_last(), depth, pages) =~= Seq::empty());
    assert(flattened(outline.drop_last(), depth, pages) =~= Seq::empty());
    match resolved(target, pages) {
        Some(page) => {
            assert(marks(outline, depth, pages) =~= seq![Mark { depth, page }]);
            assert(flattened(outline, depth, pages) =~= seq![Line { depth, page, title }]);
        },
        None => {
            assert(marks(outline, depth, pages) =~= Seq::empty());
            assert(flattened(outline, depth, pages) =~= Seq::empty());
        },
    }
}

/// The bookmarks and the lines of an outline are those of its parts, one part after the other.
pub proof fn outlines_are_read_in_order(
    a: Seq<OutlineNode>,
    b: Seq<OutlineNode>,
    depth: u32,
    pages: Seq<ObjectId>,
)
    ensures
        marks(a + b, depth, pages) == marks(a, depth, pages) + marks(b, depth, pages),
        flattened(a + b, depth, pages) == flattened(a, depth, pages) + flattened(b, depth, pages),
        marks(Seq::empty(), depth, pages) == Seq::<Mark>::empty(),
        flattened(Seq::empty(), depth, pages) == Seq::<Line>::empty(),
    decreases b.len(),
{
    if b.len() == 0 {
        assert(a + b =~= a);
        assert(marks(a, depth, pages) + marks(b, depth, pages) =~= marks(a, depth, pages));
        assert(flattened(a, depth, pages) + flattened(b, depth, pages) =~= flattened(
            a,
            depth,
            pages,
        ));
    } else {
        outlines_are_read_in_order(a, b.drop_last(), depth, pages);
        assert((a + b).drop_last() =~= a + b.drop_last());
        assert((a + b).last() == b.last());
        assert(marks(a + b, depth, pages) =~= marks(a, depth, pages) + marks(b, depth, pages));
        assert(flattened(a + b, depth, pages) =~= flattened(a, depth, pages) + flattened(
            b,
            depth,
            pages,
        ));
    }
}

/// The node to which a path leads: the first number says which node of the outline, each further one
/// which node below the one before.
pub open spec fn reached(outline: Seq<OutlineNode>, path: Seq<int>) -> Option<OutlineNode>
    decreases path.len(),
{
    if path.len() == 0 || !(0 <= path[0] < outline.len()) {
        None
    } else if path.len() == 1 {
        Some(outline[path[0]])
    } else {
        match outline[path[0]] {
            OutlineNode::SubOutlines(children) => reached(children, path.skip(1)),
            _ => None,
        }
    }
}

proof fn lemma_part_is_read(outline: Seq<OutlineNode>, k: int, depth: u32, pages: Seq<ObjectId>)
    requires
        0 <= k < outline.len(),
    ensures
        marks(outline, depth, pages) == marks(outline.take(k), depth, pages) + marks(
            seq![outline[k]],
            depth,
            pages,
        ) + marks(outline.skip(k + 1), depth, pages),
        flattened(outline, depth, pages) == flattened(outline.take(k), depth, pages) + flattened(
            seq![outline[k]],
            depth,
            pages,
        ) + flattened(outline.skip(k + 1), depth, pages),
{
    assert(outline =~= outline.take(k) + seq![outline[k]] + outline.skip(k + 1));
    outlines_are_read_in_order(
        outline.take(k) + seq![outline[k]],
        outline.skip(k + 1),
        depth,
        pages,
    );
    outlines_are_read_in_order(outline.take(k), seq![outline[k]], depth, pages);
}

/// The depth of a bookmark is that of the outline plus the number of entries that it stands below:
/// an entry to which a path of some length leads is a bookmark and a line one less further down.
pub proof fn depth_is_the_number_of_levels(
    outline: Seq<OutlineNode>,
    path: Seq<int>,
    depth: u32,
    pages: Seq<ObjectId>,
    target: Target,
    title: TitleValue,
    page: u32,
)
    requires
        reached(outline, path) == Some(OutlineNode::Destination(target, title)),
        resolved(target, pages) == Some(page),
        depth + path.len() - 1 <= u32::MAX,
    ensures
        marks(outline, depth, pages).contains(
            Mark { depth: (depth + path.len() - 1) as u32, page },
        ),
        flattened(outline, depth, pages).contains(
            Line { depth: (depth + path.len() - 1) as u32, page, title },
        ),
    decreases path.len(),
{
    let k = path[0];
    let mark = Mark { depth: (depth + path.len() - 1) as u32, page };
    let line = Line { depth: (depth + path.len() - 1) as u32, page, title };
    lemma_part_is_read(outline, k, depth, pages);
    let own = marks(seq![outline[k]], depth, pages);
    let own_lines = flattened(seq![outline[k]], depth, pages);
    if path.len() == 1 {
        an_entry_is_one_bookmark(target, title, depth, pages);
        assert(own[0] == mark);
        assert(own_lines[0] == line);
    } else if let OutlineNode::SubOutlines(children) = outline[k] {
        children_stand_one_deeper(children, depth, pages);
        depth_is_the_number_of_levels(
            children,
            path.skip(1),
            (depth + 1) as u32,
            pages,
            target,
            title,
            page,
        );
    }
    assert(own.contains(mark) && own_lines.contains(line));
    let i = choose|i: int| 0 <= i < own.len() && own[i] == mark;
    let j = choose|j: int| 0 <= j < own_lines.len() && own_lines[j] == line;
    assert(marks(outline, depth, pages)[marks(outline.take(k), depth, pages).len() + i] == mark);
    assert(flattened(outline, depth, pages)[flattened(outline.take(k), depth, pages).len() + j]
        == line);
}

/// Every line of an outline is one of its entries: some path leads to an entry that has the line's
/// title, leads to its page, and stands below as many entries as the line is deep.
pub proof fn every_line_is_an_entry(
    outline: Seq<OutlineNode>,
    depth: u32,
    pages: Seq<ObjectId>,
    i: int,
) -> (path: Seq<int>)
    requires
        0 <= i < flattened(outline, depth, pages).len(),
        flattened(outline, depth, pages)[i].depth < u32::MAX,
    ensures
        reached(outline, path) matches Some(OutlineNode::Destination(target, title)) && {
            &&& title == flattened(outline, depth, pages)[i].title
            &&& resolved(target, pages) == Some(flattened(outline, depth, pages)[i].page)
            &&& flattened(outline, depth, pages)[i].depth == depth + path.len() - 1
        },
    decreases outline,
{
    let shorter = outline.drop_last();
    let before = flattened(shorter, depth, pages);
    if i < before.len() {
        let path = every_line_is_an_entry(shorter, depth, pages, i);
        assert(shorter[path[0]] == outline[path[0]]);
        path
    } else {
        let last = outline.len() - 1;
        match outline.last() {
            OutlineNode::Destination(_, _) => {
                let path = seq![last as int];
                assert(reached(outline, path) == Some(outline[last as int]));
                path
            },
            OutlineNode::SubOutlines(children) => {
                assert(decreases_to!(outline => outline[outline.len() - 1]));
                lemma_lines_are_deep(children, deeper(depth), pages, i - before.len());
                assert(depth < u32::MAX);
                children_stand_one_deeper(children, depth, pages);
                let rest = every_line_is_an_entry(
                    children,
                    deeper(depth),
                    pages,
                    i - before.len(),
                );
                let path = seq![last as int] + rest;
                assert(path.skip(1) =~= rest);
                path
            },
        }
    }
}

proof fn lemma_lines_are_deep(
    outline: Seq<OutlineNode>,
    depth: u32,
    pages: Seq<ObjectId>,
    i: int,
)
    requires
        0 <= i < flattened(outline, depth, pages).len(),
    ensures
        depth <= flattened(outline, depth, pages)[i].depth,
    decreases outline,
{
    let shorter = outline.drop_last();
    let before = flattened(shorter, depth, pages);
    if i < before.len() {
        lemma_lines_are_deep(shorter, depth, pages, i);
    } else if let OutlineNode::SubOutlines(children) = outline.last() {
        assert(decreases_to!(outline => outline[outline.len() - 1]));
        lemma_lines_are_deep(children, deeper(depth), pages, i - before.len());
    }
}

/// A target that is an index leads to the page with that index, if there is one. One that is an
/// object leads to the last page that is this object, if there is one. Any other leads nowhere.
pub proof fn targets_name_pages(target: Target, pages: Seq<ObjectId>)
    requires
        pages.len() <= u32::MAX,
    ensures
        target matches Target::Index(i) ==> resolved(target, pages) == (if 0 <= i < pages.len() {
            Some((i + 1) as u32)
        } else {
            None
        }),
        target matches Target::Page(id) ==> match resolved(target, pages) {
            Some(page) => 1 <= page <= pages.len() && pages[page - 1] == id && (forall|k: int|
                page <= k < pages.len() ==> #[trigger] pages[k] != id),
            None => !pages.contains(id),
        },
        target is Other ==> resolved(target, pages) is None,
{
    if let Target::Page(id) = target {
        lemma_page_number(pages, id);
    }
}

proof fn lemma_page_number(pages: Seq<ObjectId>, id: ObjectId)
    requires
        pages.len() <= u32::MAX,
    ensures
        match page_number(pages, id) {
            Some(page) => 1 <= page <= pages.len() && pages[page - 1] == id && (forall|k: int|
                page <= k < pages.len() ==> #[trigger] pages[k] != id),
            None => !pages.contains(id),
        },
    decreases pages.len(),
{
    if pages.len() > 0 {
        let shorter = pages.drop_last();
        assert(forall|k: int| 0 <= k < shorter.len() ==> shorter[k] == #[trigger] pages[k]);
        lemma_page_number(shorter, id);
        assert(pages[pages.len() - 1] == pages.last());
        if page_number(pages, id) is None && pages.contains(id) {
            let k = choose|k: int| 0 <= k < pages.len() && pages[k] == id;
            assert(shorter[k] == id);
        }
    }
}

/// Where the boundaries of pages are those that bookmarks give, a page has none exactly if it is not
/// the first and no bookmark targets it; the depth of the others is the smallest of their bookmarks',
/// and of 1 on the first page.
pub proof fn boundaries_are_the_coarsest_bookmarks(
    levels: Seq<Boundary>,
    bookmarks: Seq<Mark>,
    i: int,
)
    requires
        marked(levels, bookmarks),
        0 <= i < levels.len() <= u32::MAX,
    ensures
        levels[i] is Page <==> i != 0 && (forall|k: int|
            0 <= k < bookmarks.len() ==> (#[trigger] bookmarks[k]).page != i + 1),
        levels[i] matches Boundary::Bookmark { depth } ==> {
            &&& forall|k: int|
                0 <= k < bookmarks.len() && (#[trigger] bookmarks[k]).page == i + 1 ==> depth
                    <= bookmarks[k].depth
            &&& i == 0 ==> depth <= 1
            &&& (i == 0 && depth == 1) || exists|k: int|
                0 <= k < bookmarks.len() && (#[trigger] bookmarks[k]).page == i + 1
                    && bookmarks[k].depth == depth
        },
{
    boundary_is_coarsest(bookmarks, (i + 1) as u32);
}

/// An outline as it was read and as a mathematical value have the same nodes, with the same targets
/// and titles, and the same nodes below.
pub proof fn nodes_are_the_items(outline: Seq<OutlineItem>, i: int)
    requires
        0 <= i < outline.len(),
    ensures
        nodes(outline).len() == outline.len(),
        outline[i] matches OutlineItem::Destination(target, title) ==> nodes(outline)[i]
            == OutlineNode::Destination(target, title@),
        outline[i] matches OutlineItem::SubOutlines(children) ==> nodes(outline)[i]
            == OutlineNode::SubOutlines(nodes(children@)),
{
    if let OutlineItem::SubOutlines(children) = outline[i] {
        let below = outline[i].node()->SubOutlines_0;
        assert(below =~= nodes(children@));
    }
}

/// Objects that differ have numbers that differ.
pub proof fn object_numbers_differ(a: ObjectId, b: ObjectId)
    requires
        id_key(a) == id_key(b),
    ensures
        a == b,
{
}

/// The text of a title: behind the bytes `fe ff` pairs of bytes with the high one first, behind
/// `ff fe` pairs with the low one first, either as UTF-16, and nothing where a byte is left over;
/// otherwise the bytes as UTF-8.
pub proof fn titles_are_read_by_their_mark(bytes: Seq<u8>)
    ensures
        bytes.len() < 2 ==> title_text(bytes) == utf8_lossy(bytes),
        bytes.len() >= 2 && !(bytes[0] == 0xfe && bytes[1] == 0xff) && !(bytes[0] == 0xff && bytes[1]
            == 0xfe) ==> title_text(bytes) == utf8_lossy(bytes),
        bytes.len() >= 2 && bytes.len() % 2 == 0 && bytes[0] == 0xfe && bytes[1] == 0xff
            ==> title_text(bytes) == utf16_lossy(
            Seq::new(
                (bytes.len() / 2 - 1) as nat,
                |i: int| (256 * bytes[2 * i + 2] + bytes[2 * i + 3]) as u16,
            ),
        ),
        bytes.len() >= 2 && bytes.len() % 2 == 0 && bytes[0] == 0xff && bytes[1] == 0xfe
            ==> title_text(bytes) == utf16_lossy(
            Seq::new(
                (bytes.len() / 2 - 1) as nat,
                |i: int| (256 * bytes[2 * i + 3] + bytes[2 * i + 2]) as u16,
            ),
        ),
        bytes.len() % 2 == 1 && bytes.len() >= 2 && ((bytes[0] == 0xfe && bytes[1] == 0xff) || (
        bytes[0] == 0xff && bytes[1] == 0xfe)) ==> title_text(bytes).len() == 0,
{
    if bytes.len() >= 2 {
        assert(units_of(bytes, false) =~= Seq::new(
            (bytes.len() / 2 - 1) as nat,
            |i: int| (256 * bytes[2 * i + 2] + bytes[2 * i + 3]) as u16,
        ));
        assert(units_of(bytes, true) =~= Seq::new(
            (bytes.len() / 2 - 1) as nat,
            |i: int| (256 * bytes[2 * i + 3] + bytes[2 * i + 2]) as u16,
        ));
    }
}

/// A title as a mathematical value is the same bytes, or refers to the same object.
pub proof fn titles_are_told_as_they_are(bytes: Vec<u8>, id: ObjectId)
    ensures
        Title::Text(bytes)@ == TitleValue::Text(bytes@),
        Title::Reference(id)@ == TitleValue::Reference(id),
        Title::Other@ == TitleValue::Other,
{
}

/// A line as a mathematical value has the same depth, page and title.
pub proof fn lines_are_told_as_they_are(lines: Seq<OutlineLine>, i: int)
    requires
        0 <= i < lines.len(),
    ensures
        line_views(lines).len() == lines.len(),
        line_views(lines)[i].depth == lines[i].depth,
        line_views(lines)[i].page == lines[i].page,
        line_views(lines)[i].title == lines[i].title@,
{
}

} // verus!
