use lopdf::content::{Content, Operation};
use lopdf::{Dictionary, Document, Object, ObjectId, Stream, StringFormat};
use tchunk_pdf::level::Boundary;
use tchunk_pdf::outline::{
    decode_title, outline_boundaries, outline_lines, pair_bytes, OutlineItem, Target, Title,
};
use tchunk_pdf::pdf::{OutlineEntry, Pdf, PdfError};
use tchunk_pdf::inspect::list_cuts;
use tchunk_pdf::plan::{plan_chunks, segment_units, SplitAt};
use tchunk_pdf::tokenize::{TiktokenTokenizer, Tokenizer};

fn dict(entries: Vec<(&str, Object)>) -> Dictionary {
    let mut dict = Dictionary::new();
    for (key, value) in entries {
        dict.set(key, value);
    }
    dict
}

fn name(text: &str) -> Object {
    Object::Name(text.as_bytes().to_vec())
}

/// A document of `page_count` pages that say "Page 1", "Page 2" and so on, with the identifiers
/// of its pages and of its catalog.
fn synthesize(page_count: usize) -> (Document, Vec<ObjectId>, ObjectId) {
    let mut doc = Document::with_version("1.5");
    let pages_id = doc.new_object_id();
    let font_id = doc.add_object(dict(vec![
        ("Type", name("Font")),
        ("Subtype", name("Type1")),
        ("BaseFont", name("Helvetica")),
    ]));
    let fonts = dict(vec![("F1", Object::Reference(font_id))]);
    let resources_id = doc.add_object(dict(vec![("Font", Object::Dictionary(fonts))]));
    let mut ids: Vec<ObjectId> = Vec::new();
    for i in 1..=page_count {
        let content = Content {
            operations: vec![
                Operation::new("BT", vec![]),
                Operation::new("Tf", vec!["F1".into(), 24.into()]),
                Operation::new("Td", vec![100.into(), 700.into()]),
                Operation::new("Tj", vec![Object::string_literal(format!("Page {i}"))]),
                Operation::new("ET", vec![]),
            ],
        };
        let content_id =
            doc.add_object(Stream::new(Dictionary::new(), content.encode().unwrap()));
        let page_id = doc.add_object(dict(vec![
            ("Type", name("Page")),
            ("Parent", Object::Reference(pages_id)),
            ("Contents", Object::Reference(content_id)),
        ]));
        ids.push(page_id);
    }
    let pages = dict(vec![
        ("Type", name("Pages")),
        ("Kids", Object::Array(ids.iter().map(|&id| Object::Reference(id)).collect())),
        ("Count", Object::Integer(page_count as i64)),
        ("Resources", Object::Reference(resources_id)),
        ("MediaBox", Object::Array(vec![0.into(), 0.into(), 595.into(), 842.into()])),
    ]);
    doc.objects.insert(pages_id, Object::Dictionary(pages));
    let catalog_id = doc.add_object(dict(vec![
        ("Type", name("Catalog")),
        ("Pages", Object::Reference(pages_id)),
    ]));
    doc.trailer.set("Root", Object::Reference(catalog_id));
    (doc, ids, catalog_id)
}

/// A document with an outline, given as `(depth, page, title)` in document order. A page that the
/// document does not have is targeted through an object that is no page.
fn synthesize_with_outline(page_count: usize, outline: &[(u32, u32, &str)]) -> Document {
    let (mut doc, pages, catalog_id) = synthesize(page_count);
    let item_ids: Vec<ObjectId> = outline.iter().map(|_| doc.new_object_id()).collect();
    let outlines_id = doc.new_object_id();
    let nowhere = doc.add_object(Object::Null);
    let parent_of = |i: usize| -> Option<usize> {
        (0..i).rev().find(|&j| outline[j].0 == outline[i].0 - 1)
    };
    for (i, &(depth, page, title)) in outline.iter().enumerate() {
        let target = match pages.get((page as usize).wrapping_sub(1)) {
            Some(&id) => id,
            None => nowhere,
        };
        let parent = if depth == 1 { None } else { parent_of(i) };
        let mut item = dict(vec![
            ("Title", Object::string_literal(title)),
            ("Parent", Object::Reference(parent.map_or(outlines_id, |p| item_ids[p]))),
            ("Dest", Object::Array(vec![Object::Reference(target), name("Fit")])),
        ]);
        let siblings: Vec<usize> = (0..outline.len())
            .filter(|&j| {
                outline[j].0 == depth && (if depth == 1 { None } else { parent_of(j) }) == parent
            })
            .collect();
        let at = siblings.iter().position(|&j| j == i).unwrap();
        if at > 0 {
            item.set("Prev", Object::Reference(item_ids[siblings[at - 1]]));
        }
        if at + 1 < siblings.len() {
            item.set("Next", Object::Reference(item_ids[siblings[at + 1]]));
        }
        let children: Vec<usize> = (i + 1..outline.len())
            .filter(|&j| outline[j].0 == depth + 1 && parent_of(j) == Some(i))
            .collect();
        if let (Some(&first), Some(&last)) = (children.first(), children.last()) {
            item.set("First", Object::Reference(item_ids[first]));
            item.set("Last", Object::Reference(item_ids[last]));
            item.set("Count", Object::Integer(children.len() as i64));
        }
        doc.objects.insert(item_ids[i], Object::Dictionary(item));
    }
    let top: Vec<usize> = (0..outline.len()).filter(|&i| outline[i].0 == 1).collect();
    let mut outlines = dict(vec![
        ("Type", name("Outlines")),
        ("Count", Object::Integer(top.len() as i64)),
    ]);
    if let (Some(&first), Some(&last)) = (top.first(), top.last()) {
        outlines.set("First", Object::Reference(item_ids[first]));
        outlines.set("Last", Object::Reference(item_ids[last]));
    }
    doc.objects.insert(outlines_id, Object::Dictionary(outlines));
    set_entry(&mut doc, catalog_id, "Outlines", Object::Reference(outlines_id));
    doc
}

fn set_entry(doc: &mut Document, id: ObjectId, key: &str, value: Object) {
    doc.get_object_mut(id).and_then(Object::as_dict_mut).unwrap().set(key, value);
}

/// The document after it was written and read again.
fn reloaded(mut doc: Document) -> Document {
    doc.compress();
    let mut bytes = Vec::new();
    doc.save_to(&mut bytes).expect("save to memory");
    Document::load_mem(&bytes).expect("load from memory")
}

fn pdf_of(doc: Document) -> Pdf {
    match Pdf::new(reloaded(doc)) {
        Ok(pdf) => pdf,
        Err(error) => panic!("{}", error.message()),
    }
}

fn page_text(pdf: &Pdf, page: u32) -> String {
    pdf.document().extract_text(&[page]).unwrap_or_default()
}

#[test]
fn split_six_page_pdf_into_three_chunks_preserves_pages() {
    let pdf = pdf_of(synthesize(6).0);
    assert_eq!(pdf.page_count(), 6);

    let tok = TiktokenTokenizer::new("cl100k_base").unwrap();
    let tokens: Vec<usize> =
        pdf.page_nums().iter().map(|&n| tok.count(&page_text(&pdf, n))).collect();
    let boundaries = vec![Boundary::Page; 6];

    let budget = tokens.iter().sum::<usize>().div_ceil(3).max(1);
    let plan = plan_chunks(&tokens, &boundaries, SplitAt::Page, budget);

    let flat: Vec<u32> = plan.chunks.iter().flat_map(|c| c.pages.clone()).collect();
    assert_eq!(flat, (1..=6).collect::<Vec<_>>(), "pages reordered or lost");
    assert!(plan.chunks.len() >= 2, "expected multiple chunks, got {}", plan.chunks.len());

    for (i, chunk) in plan.chunks.iter().enumerate() {
        let page_nums = &chunk.pages;
        let out_pdf = pdf_of(pdf.subset(page_nums).expect("subset"));
        assert_eq!(out_pdf.page_count(), page_nums.len(), "chunk {} page count mismatch", i + 1);
        let out_page_nums = out_pdf.page_nums();
        for (k, &orig_page) in page_nums.iter().enumerate() {
            let want = format!("Page {orig_page}");
            let got = page_text(&out_pdf, out_page_nums[k]);
            assert!(
                got.contains(&want),
                "chunk {} position {} expected text containing '{want}', got '{}'",
                i + 1,
                k,
                got
            );
        }
    }
}

#[test]
fn single_chunk_when_budget_exceeds_total() {
    let pdf = pdf_of(synthesize(3).0);
    let tok = TiktokenTokenizer::new("cl100k_base").unwrap();
    let tokens: Vec<usize> =
        pdf.page_nums().iter().map(|&n| tok.count(&page_text(&pdf, n))).collect();
    let plan = plan_chunks(&tokens, &[Boundary::Page; 3], SplitAt::Page, 10_000);
    assert_eq!(plan.chunks.len(), 1);
    assert_eq!(plan.chunks[0].pages, vec![1, 2, 3]);

    let written = pdf_of(pdf.subset(&plan.chunks[0].pages).ok().unwrap());
    assert_eq!(written.page_count(), 3);
}

#[test]
fn subset_strips_catalog_open_action_referencing_dropped_page() {
    let (mut doc, pages, catalog_id) = synthesize(6);
    let action = Object::Array(vec![Object::Reference(pages[4]), name("Fit")]);
    set_entry(&mut doc, catalog_id, "OpenAction", action);
    let pdf = pdf_of(doc);
    assert_eq!(pdf.page_count(), 6);

    let out_doc = reloaded(pdf.subset(&[1, 2]).expect("subset"));
    let catalog_id = out_doc
        .trailer
        .get(b"Root")
        .and_then(Object::as_reference)
        .expect("catalog ref in trailer");
    let catalog = out_doc.get_dictionary(catalog_id).expect("catalog dict");
    assert!(
        catalog.get(b"OpenAction").is_err(),
        "catalog still carries /OpenAction after subset"
    );

    let pages = out_doc.get_pages();
    assert_eq!(pages.len(), 2, "expected 2 pages in chunk, got {}", pages.len());
}

#[test]
fn outline_entries_empty_when_no_outline() {
    let pdf = pdf_of(synthesize(3).0);
    assert!(pdf.outline_entries().is_empty(), "expected empty Vec for outlineless PDF");
    assert!(!pdf.has_outline());
}

#[test]
fn outline_entries_in_document_order() {
    let outline: Vec<(u32, u32, &str)> = vec![
        (1, 1, "Chapter 1"),
        (2, 2, "Section 1.1"),
        (2, 3, "Section 1.2"),
        (1, 4, "Chapter 2"),
        (2, 5, "Section 2.1"),
    ];
    let pdf = pdf_of(synthesize_with_outline(5, &outline));
    let entries = pdf.outline_entries();

    let expected: Vec<OutlineEntry> = outline
        .iter()
        .map(|&(d, p, t)| OutlineEntry { depth: d, page: p, title: t.to_string() })
        .collect();
    assert_eq!(entries, expected);
    assert!(pdf.has_outline());
}

#[test]
fn outline_entries_decodes_utf16be_bom_titles() {
    let mut doc = synthesize_with_outline(2, &[(1, 1, "PLACEHOLDER")]);
    let object_ids: Vec<ObjectId> = doc.objects.keys().copied().collect();
    for id in object_ids {
        if let Ok(dict) = doc.get_object_mut(id).and_then(Object::as_dict_mut) {
            if dict.has(b"Title") && dict.has(b"Parent") {
                let bytes: Vec<u8> =
                    vec![0xFE, 0xFF, 0x00, 0x43, 0x00, 0x61, 0x00, 0x66, 0x00, 0xE9];
                dict.set("Title", Object::String(bytes, StringFormat::Hexadecimal));
            }
        }
    }
    let entries = pdf_of(doc).outline_entries();
    assert_eq!(entries.len(), 1);
    assert_eq!(
        entries[0].title, "Café",
        "expected UTF-16BE decoded title, got {:?}",
        entries[0].title
    );
}

#[test]
fn outline_entries_skips_out_of_range_pages() {
    let outline: Vec<(u32, u32, &str)> =
        vec![(1, 1, "Real"), (1, 99, "Out of range"), (1, 3, "Also real")];
    let entries = pdf_of(synthesize_with_outline(3, &outline)).outline_entries();

    let titles: Vec<&str> = entries.iter().map(|e| e.title.as_str()).collect();
    assert_eq!(titles, vec!["Real", "Also real"]);
    assert_eq!(entries[0].page, 1);
    assert_eq!(entries[1].page, 3);
}

#[test]
fn boundaries_come_from_the_outline() {
    let outline: Vec<(u32, u32, &str)> = vec![
        (1, 2, "Chapter 1"),
        (2, 2, "Section 1.1"),
        (2, 4, "Section 1.2"),
        (1, 4, "Chapter 2"),
        (2, 5, "Section 2.1"),
    ];
    let pdf = pdf_of(synthesize_with_outline(6, &outline));
    assert_eq!(
        pdf.boundaries(),
        vec![
            Boundary::Bookmark { depth: 1 },
            Boundary::Bookmark { depth: 1 },
            Boundary::Page,
            Boundary::Bookmark { depth: 1 },
            Boundary::Bookmark { depth: 2 },
            Boundary::Page,
        ]
    );
    assert_eq!(
        pdf_of(synthesize(2).0).boundaries(),
        vec![Boundary::Bookmark { depth: 1 }, Boundary::Page]
    );
}

#[test]
fn outline_targets_are_resolved() {
    let pages = [(5u32, 0u16), (6, 0), (7, 0), (6, 0)];
    let outline = vec![
        OutlineItem::Destination(Target::Index(2), Title::Other),
        OutlineItem::Destination(Target::Index(4), Title::Other),
        OutlineItem::Destination(Target::Index(-1), Title::Other),
        OutlineItem::Destination(Target::Index(1 << 32), Title::Other),
        OutlineItem::Destination(Target::Page((99, 0)), Title::Other),
        OutlineItem::Destination(Target::Other, Title::Other),
        OutlineItem::SubOutlines(vec![
            OutlineItem::Destination(Target::Page((6, 0)), Title::Other),
            OutlineItem::SubOutlines(vec![OutlineItem::Destination(Target::Index(2), Title::Other)]),
        ]),
    ];
    assert_eq!(
        outline_boundaries(&pages, &outline),
        vec![
            Boundary::Bookmark { depth: 1 },
            Boundary::Page,
            Boundary::Bookmark { depth: 1 },
            Boundary::Bookmark { depth: 2 },
        ]
    );
    assert!(outline_boundaries(&[], &outline).is_empty());
}

#[test]
fn an_outline_is_flattened_in_the_order_of_the_tree() {
    let pages = [(5u32, 0u16), (6, 0)];
    let text = |s: &str| Title::Text(s.as_bytes().to_vec());
    let outline = vec![
        OutlineItem::Destination(Target::Index(1), text("same")),
        OutlineItem::SubOutlines(vec![
            OutlineItem::Destination(Target::Page((5, 0)), text("same")),
            OutlineItem::Destination(Target::Index(2), text("nowhere")),
            OutlineItem::Destination(Target::Other, text("nothing")),
        ]),
        OutlineItem::Destination(Target::Index(1), Title::Reference((9, 0))),
    ];
    let lines = outline_lines(&pages, &outline);
    let places: Vec<(u32, u32)> = lines.iter().map(|line| (line.depth, line.page)).collect();
    assert_eq!(places, vec![(1, 2), (2, 1), (1, 2)]);
    assert!(matches!(&lines[0].title, Title::Text(bytes) if bytes.as_slice() == b"same"));
    assert!(matches!(&lines[1].title, Title::Text(bytes) if bytes.as_slice() == b"same"));
    assert!(matches!(&lines[2].title, Title::Reference((9, 0))));
}

#[test]
fn titles_are_decoded_by_their_byte_order_mark() {
    assert_eq!(decode_title(b""), "");
    assert_eq!(decode_title(b"A"), "A");
    assert_eq!(decode_title("Chapter — é".as_bytes()), "Chapter — é");
    assert_eq!(decode_title(b"a\xffb"), "a\u{fffd}b");
    assert_eq!(decode_title(&[0xfe, 0xff, 0x00, 0x43, 0x20, 0xac]), "C€");
    assert_eq!(decode_title(&[0xff, 0xfe, 0x43, 0x00, 0xac, 0x20]), "C€");
    assert_eq!(decode_title(&[0xfe, 0xff, 0xd8, 0x00]), "\u{fffd}");
    assert_eq!(decode_title(&[0xfe, 0xff, 0x00]), "");
    assert_eq!(decode_title(&[0xfe, 0xff]), "");
    assert_eq!(pair_bytes(&[0xfe, 0xff, 0x12, 0x34, 0x56, 0x78], false), vec![0x1234, 0x5678]);
    assert_eq!(pair_bytes(&[0xff, 0xfe, 0x12, 0x34, 0x56, 0x78], true), vec![0x3412, 0x7856]);
}

#[test]
fn entries_with_equal_titles_are_entries_of_their_own() {
    let outline: Vec<(u32, u32, &str)> =
        vec![(1, 1, "Notes"), (2, 1, "Notes"), (1, 3, "Notes"), (1, 3, "")];
    let entries = pdf_of(synthesize_with_outline(3, &outline)).outline_entries();
    let expected: Vec<OutlineEntry> = outline
        .iter()
        .map(|&(d, p, t)| OutlineEntry { depth: d, page: p, title: t.to_string() })
        .collect();
    assert_eq!(entries, expected);
}

#[test]
fn an_entry_that_leads_nowhere_leaves_the_others() {
    let mut doc = synthesize_with_outline(2, &[(1, 1, "A"), (1, 2, "B"), (1, 2, "C")]);
    let items: Vec<ObjectId> = doc
        .objects
        .iter()
        .filter(|(_, o)| o.as_dict().map(|d| d.has(b"Title")).unwrap_or(false))
        .map(|(id, _)| *id)
        .collect();
    let nowhere = Object::Array(vec![Object::Null, name("Fit")]);
    set_entry(&mut doc, items[0], "Dest", nowhere);
    let title = doc.add_object(Object::string_literal("by reference"));
    set_entry(&mut doc, items[1], "Title", Object::Reference(title));
    set_entry(&mut doc, items[2], "Title", Object::Integer(7));
    let titles: Vec<String> =
        pdf_of(doc).outline_entries().into_iter().map(|entry| entry.title).collect();
    assert_eq!(titles, vec!["by reference".to_string(), String::new()]);
}

#[test]
fn an_entry_without_a_title_is_an_entry() {
    let mut doc = synthesize_with_outline(3, &[(1, 1, "A"), (1, 2, "B"), (2, 3, "C")]);
    let items: Vec<ObjectId> = doc
        .objects
        .iter()
        .filter(|(_, o)| o.as_dict().map(|d| d.has(b"Title")).unwrap_or(false))
        .map(|(id, _)| *id)
        .collect();
    doc.get_object_mut(items[1]).and_then(Object::as_dict_mut).unwrap().remove(b"Title");
    let pdf = pdf_of(doc);
    assert!(pdf.check_entries(1, 2));
    assert!(!pdf.check_entries(0, 2));
    let entries = pdf.outline_entries();
    let expected = vec![
        OutlineEntry { depth: 1, page: 1, title: "A".to_string() },
        OutlineEntry { depth: 1, page: 2, title: String::new() },
        OutlineEntry { depth: 2, page: 3, title: "C".to_string() },
    ];
    assert_eq!(entries, expected);
    assert!(!pdf.document().get_object(items[1]).unwrap().as_dict().unwrap().has(b"Title"));
}

#[test]
fn an_outline_that_leads_back_into_itself_cannot_be_read() {
    let mut doc = synthesize_with_outline(2, &[(1, 1, "A"), (1, 2, "B")]);
    let items: Vec<ObjectId> = doc
        .objects
        .iter()
        .filter(|(_, o)| o.as_dict().map(|d| d.has(b"Title")).unwrap_or(false))
        .map(|(id, _)| *id)
        .collect();
    assert!(Pdf::new(doc.clone()).ok().unwrap().check_outline(0, 2));
    assert!(!Pdf::new(doc.clone()).ok().unwrap().check_outline(0, 1));
    set_entry(&mut doc, items[1], "First", Object::Reference(items[0]));
    let pdf = Pdf::new(doc).ok().unwrap();
    assert!(!pdf.check_outline(500, 500));
    assert_eq!(pdf.page_count(), 2);
    assert_eq!(pdf.excerpt(&[2]).ok().unwrap().page_count(), 1);
}

#[test]
fn a_short_destination_cannot_be_read() {
    let mut doc = synthesize_with_outline(2, &[(1, 1, "A")]);
    let item = doc
        .objects
        .iter()
        .find(|(_, o)| o.as_dict().map(|d| d.has(b"Title")).unwrap_or(false))
        .map(|(id, _)| *id)
        .unwrap();
    set_entry(&mut doc, item, "Dest", Object::Array(vec![Object::Integer(0)]));
    assert!(!Pdf::new(doc).ok().unwrap().check_outline(500, 500));
}

#[test]
fn a_named_destination_without_target_cannot_be_read() {
    let (mut doc, pages, catalog_id) = synthesize(2);
    let good = doc.add_object(dict(vec![(
        "D",
        Object::Array(vec![Object::Reference(pages[1]), name("Fit")]),
    )]));
    let bad = doc.add_object(Dictionary::new());
    let item = doc.add_object(dict(vec![
        ("Title", Object::string_literal("A")),
        ("Dest", Object::string_literal("there")),
    ]));
    let outlines = doc.add_object(dict(vec![("First", Object::Reference(item))]));
    set_entry(&mut doc, catalog_id, "Outlines", Object::Reference(outlines));
    let mut broken = doc.clone();
    let names = |id: ObjectId| {
        Object::Dictionary(dict(vec![(
            "Names",
            Object::Array(vec![Object::string_literal("there"), Object::Reference(id)]),
        )]))
    };
    set_entry(&mut doc, catalog_id, "Dests", names(good));
    set_entry(&mut broken, catalog_id, "Dests", names(bad));
    let pdf = pdf_of(doc);
    assert!(pdf.check_outline(500, 500));
    assert_eq!(
        pdf.boundaries(),
        vec![Boundary::Bookmark { depth: 1 }, Boundary::Bookmark { depth: 1 }]
    );
    assert!(!Pdf::new(broken).ok().unwrap().check_outline(500, 500));
}

#[test]
fn an_outline_that_is_given_up_is_no_outline() {
    let cyclic = synthesize_with_outline(2, &[(1, 1, "A"), (1, 2, "B")]);
    let items: Vec<ObjectId> = cyclic
        .objects
        .iter()
        .filter(|(_, o)| o.as_dict().map(|d| d.has(b"Title")).unwrap_or(false))
        .map(|(id, _)| *id)
        .collect();
    let catalog_id = cyclic.trailer.get(b"Root").and_then(Object::as_reference).unwrap();

    let mut no_child = cyclic.clone();
    set_entry(&mut no_child, items[0], "First", Object::Integer(7));
    set_entry(&mut no_child, items[1], "Next", Object::Reference(items[0]));
    let pdf = Pdf::new(no_child).ok().unwrap();
    assert!(pdf.check_outline(500, 500));
    assert!(!pdf.has_outline());
    assert!(pdf.outline_entries().is_empty());

    let mut no_names = cyclic;
    set_entry(&mut no_names, items[1], "Next", Object::Reference(items[0]));
    let names = dict(vec![("Names", Object::Integer(7))]);
    set_entry(&mut no_names, catalog_id, "Dests", Object::Dictionary(names));
    let pdf = Pdf::new(no_names).ok().unwrap();
    assert!(pdf.check_outline(500, 500));
    assert!(!pdf.has_outline());
    assert_eq!(pdf.boundaries(), vec![Boundary::Bookmark { depth: 1 }, Boundary::Page]);
}

#[test]
fn a_short_destination_that_nobody_asks_for_is_passed_over() {
    let mut doc = synthesize_with_outline(2, &[(1, 1, "A"), (1, 2, "B")]);
    let item = doc
        .objects
        .iter()
        .find(|(_, o)| o.as_dict().map(|d| d.has(b"Title")).unwrap_or(false))
        .map(|(id, _)| *id)
        .unwrap();
    let action = dict(vec![("S", name("GoTo")), ("D", Object::Array(vec![]))]);
    set_entry(&mut doc, item, "A", Object::Dictionary(action));
    assert!(!Pdf::new(doc.clone()).ok().unwrap().check_outline(500, 500));
    set_entry(&mut doc, item, "Title", Object::Integer(7));
    let pdf = Pdf::new(doc).ok().unwrap();
    assert!(pdf.check_outline(500, 500));
    assert!(pdf.has_outline());
}

#[test]
fn images_are_counted_on_pages_that_lie_deep() {
    let (mut doc, pages, _) = synthesize(1);
    let image = doc.add_object(Stream::new(dict(vec![("Subtype", name("Image"))]), vec![1]));
    let objects = dict(vec![("A", Object::Reference(image))]);
    let own = dict(vec![("XObject", Object::Dictionary(objects))]);
    set_entry(&mut doc, pages[0], "Resources", Object::Dictionary(own));

    let mut deep = doc.clone();
    let mut top = deep.add_object(Dictionary::new());
    for _ in 0..600 {
        top = deep.add_object(dict(vec![("Parent", Object::Reference(top))]));
    }
    set_entry(&mut deep, pages[0], "Parent", Object::Reference(top));
    assert_eq!(Pdf::new(deep).ok().unwrap().image_count(1), 1);

    set_entry(&mut doc, pages[0], "Parent", Object::Reference(pages[0]));
    assert_eq!(Pdf::new(doc).ok().unwrap().image_count(1), 0);
}

#[test]
fn the_pages_are_those_that_are_there_not_those_that_are_declared() {
    let (mut doc, pages, catalog_id) = synthesize(1);
    let child = doc.add_object(dict(vec![
        ("Type", name("Pages")),
        ("Kids", Object::Array(vec![])),
        ("Count", Object::Integer(i64::MAX)),
    ]));
    let root = doc
        .get_dictionary(catalog_id)
        .and_then(|d| d.get(b"Pages"))
        .and_then(Object::as_reference)
        .unwrap();
    let kids = vec![Object::Reference(pages[0]), Object::Reference(child)];
    set_entry(&mut doc, root, "Kids", Object::Array(kids));
    assert_eq!(Pdf::new(doc).ok().unwrap().page_count(), 1);
}

#[test]
fn an_excerpt_has_the_kept_pages_in_order() {
    let pdf = pdf_of(synthesize(6).0);
    let part = pdf.excerpt(&[5, 2, 3]).ok().unwrap();
    assert_eq!(part.page_count(), 3);
    assert_eq!(part.document().version, pdf.document().version);
    assert_eq!(part.document().max_id, pdf.document().max_id);
    let read_back = pdf_of(part.into_document());
    assert_eq!(read_back.page_count(), 3);
    for (at, page) in [2u32, 3, 5].iter().enumerate() {
        assert_eq!(page_text(&read_back, at as u32 + 1), page_text(&pdf, *page));
    }
    assert!(matches!(pdf.excerpt(&[7]), Err(PdfError::NoPages)));
}

#[test]
fn images_are_counted_once() {
    let (mut doc, pages, _) = synthesize(2);
    let image = doc.add_object(Stream::new(dict(vec![("Subtype", name("Image"))]), vec![1]));
    let other = doc.add_object(Stream::new(dict(vec![("Subtype", name("Image"))]), vec![2]));
    let form = doc.add_object(Stream::new(dict(vec![("Subtype", name("Form"))]), vec![3]));
    let plain = doc.add_object(dict(vec![("Subtype", name("Image"))]));
    let objects = dict(vec![
        ("A", Object::Reference(image)),
        ("B", Object::Reference(image)),
        ("C", Object::Reference(form)),
        ("D", Object::Reference(plain)),
        ("E", Object::Reference(other)),
        ("F", Object::Integer(1)),
    ]);
    let own = dict(vec![("XObject", Object::Dictionary(objects))]);
    set_entry(&mut doc, pages[0], "Resources", Object::Dictionary(own));
    let shared = dict(vec![("G", Object::Reference(other))]);
    let by_reference =
        doc.add_object(dict(vec![("XObject", Object::Dictionary(shared))]));
    set_entry(&mut doc, pages[1], "Resources", Object::Reference(by_reference));
    let pdf = Pdf::new(doc).ok().unwrap();
    assert_eq!(pdf.image_count(1), 2);
    assert_eq!(pdf.image_count(2), 1);
    assert_eq!(pdf.image_count(0), 0);
    assert_eq!(pdf.image_count(3), 0);
}

#[test]
fn a_subset_has_a_flat_page_tree_of_the_kept_pages() {
    let (mut doc, pages, catalog_id) = synthesize(4);
    let note = doc.add_object(dict(vec![("Dest", Object::Reference(pages[3]))]));
    set_entry(&mut doc, pages[1], "Annots", Object::Array(vec![Object::Reference(note)]));
    set_entry(&mut doc, pages[1], "B", Object::Array(vec![]));
    set_entry(&mut doc, pages[1], "AA", Object::Dictionary(Dictionary::new()));
    set_entry(&mut doc, pages[1], "Rotate", Object::Integer(90));
    for key in ["Outlines", "Names", "Dests", "PageLabels", "AA", "AcroForm", "StructTreeRoot"] {
        set_entry(&mut doc, catalog_id, key, Object::Null);
    }
    let pdf = Pdf::new(doc).ok().unwrap();
    let part = pdf.subset(&[3, 2, 2, 9]).ok().unwrap();
    let catalog = part.catalog().unwrap();
    assert_eq!(catalog.len(), 2);
    let root = catalog.get(b"Pages").and_then(Object::as_reference).unwrap();
    let tree = part.get_dictionary(root).unwrap();
    assert_eq!(
        tree.get(b"Kids").unwrap(),
        &Object::Array(vec![Object::Reference(pages[1]), Object::Reference(pages[2])])
    );
    assert_eq!(tree.get(b"Count").unwrap(), &Object::Integer(2));
    let page = part.get_dictionary(pages[1]).unwrap();
    assert_eq!(page.get(b"Parent").unwrap(), &Object::Reference(root));
    assert_eq!(page.get(b"Rotate").unwrap(), &Object::Integer(90));
    assert!(!page.has(b"Annots") && !page.has(b"B") && !page.has(b"AA"));
    assert!(!part.objects.contains_key(&pages[0]));
    assert!(!part.objects.contains_key(&pages[3]));
    assert!(!part.objects.contains_key(&note));
    let contents = page.get(b"Contents").and_then(Object::as_reference).unwrap();
    assert_eq!(
        part.objects.get(&contents),
        pdf.document().objects.get(&contents),
        "page content changed"
    );
}

#[test]
fn a_subset_of_no_pages_is_refused() {
    let pdf = Pdf::new(synthesize(2).0).ok().unwrap();
    let error = pdf.subset(&[]).err().unwrap();
    assert!(matches!(error, PdfError::NoPages));
    assert_eq!(error.message(), "subset_to_pages called with empty keep list");
    assert!(matches!(pdf.subset(&[0, 3]), Err(PdfError::NoPages)));
}

#[test]
fn a_document_without_pages_has_none() {
    let pdf = Pdf::new(Document::with_version("1.5")).ok().unwrap();
    assert_eq!(pdf.page_count(), 0);
    assert!(pdf.page_nums().is_empty());
    assert!(pdf.boundaries().is_empty());
}

#[test]
fn subset_errors_say_what_is_missing() {
    let missing = PdfError::MissingRoot("why".to_string());
    assert_eq!(missing.message(), "missing /Root in trailer: why");
    let missing = PdfError::MissingPages("why".to_string());
    assert_eq!(missing.message(), "missing /Pages in catalog: why");
    assert_eq!(PdfError::PagesNotDictionary.message(), "/Pages object is not a dictionary");
    assert_eq!(PdfError::TooManyPages.message(), "PDF has too many pages");
}

#[test]
fn entries_and_boundaries_come_from_the_same_bookmarks() {
    let outline = [(1, 1, "A"), (2, 2, "B"), (2, 4, "C"), (1, 5, "D"), (3, 6, "E")];
    let pdf = pdf_of(synthesize_with_outline(7, &outline));
    let entries = pdf.outline_entries();
    let boundaries = pdf.boundaries();
    for d in 1..=3 {
        let units = segment_units(&boundaries, 0..boundaries.len(), SplitAt::Depth(d));
        assert_eq!(units.len(), list_cuts(&entries, d).len());
    }
}

#[test]
fn titles_are_put_into_entries_only() {
    let (mut doc, pages, catalog_id) = synthesize(2);
    let dest = Object::Array(vec![Object::Reference(pages[1]), name("Fit")]);
    let link = doc.add_object(dict(vec![("Dest", dest.clone()), ("Next", Object::Null)]));
    let second = doc.add_object(dict(vec![("Dest", dest.clone())]));
    let first = doc.add_object(dict(vec![
        ("Dest", dest),
        ("Title", Object::string_literal("A")),
        ("Next", Object::Reference(second)),
        ("Link", Object::Reference(link)),
    ]));
    let outlines = dict(vec![("First", Object::Reference(first))]);
    set_entry(&mut doc, catalog_id, "Outlines", Object::Dictionary(outlines));
    let pdf = Pdf::new(doc).ok().unwrap();
    assert!(pdf.check_entries(10, 10));
    let titles: Vec<String> = pdf.outline_entries().into_iter().map(|e| e.title).collect();
    assert_eq!(titles, vec!["A".to_string(), String::new()]);
}

#[test]
fn images_are_counted_where_resources_refer_to_their_list() {
    let (mut doc, pages, _) = synthesize(2);
    let image = doc.add_object(Stream::new(dict(vec![("Subtype", name("Image"))]), vec![1]));
    let list = doc.add_object(dict(vec![("A", Object::Reference(image))]));
    let own = dict(vec![("XObject", Object::Reference(list))]);
    let shared = doc.add_object(own.clone());
    set_entry(&mut doc, pages[0], "Resources", Object::Dictionary(own));
    set_entry(&mut doc, pages[1], "Resources", Object::Reference(shared));
    let pdf = Pdf::new(doc).ok().unwrap();
    assert_eq!(pdf.image_count(1), 1);
    assert_eq!(pdf.image_count(2), 1);
}

/// A document of four pages, the last two below a node of their own with resources, a crop box and
/// a rotation, with the identifiers of its pages and of the resources below that node.
fn synthesize_nested() -> (Document, Vec<ObjectId>, ObjectId) {
    let (mut doc, pages, catalog_id) = synthesize(4);
    let root = doc
        .get_dictionary(catalog_id)
        .and_then(|d| d.get(b"Pages"))
        .and_then(Object::as_reference)
        .unwrap();
    let resources = doc.get_dictionary(root).unwrap().get(b"Resources").unwrap().clone();
    let fonts = resources.as_reference().unwrap();
    doc.get_object_mut(root).and_then(Object::as_dict_mut).unwrap().remove(b"Resources");
    let node = doc.add_object(dict(vec![
        ("Type", name("Pages")),
        ("Parent", Object::Reference(root)),
        ("Kids", Object::Array(vec![Object::Reference(pages[2]), Object::Reference(pages[3])])),
        ("Count", Object::Integer(2)),
        ("Resources", resources),
        ("CropBox", Object::Array(vec![0.into(), 0.into(), 100.into(), 100.into()])),
        ("Rotate", Object::Integer(180)),
    ]));
    for &page in &pages[2..] {
        set_entry(&mut doc, page, "Parent", Object::Reference(node));
    }
    set_entry(&mut doc, pages[3], "Rotate", Object::Integer(90));
    let kids = [pages[0], pages[1], node].iter().map(|&id| Object::Reference(id)).collect();
    set_entry(&mut doc, root, "Kids", Object::Array(kids));
    (doc, pages, fonts)
}

#[test]
fn kept_pages_have_what_they_inherited() {
    let (doc, pages, fonts) = synthesize_nested();
    let pdf = Pdf::new(doc).ok().unwrap();
    assert_eq!(pdf.page_count(), 4);
    let part = pdf.subset(&[1, 3, 4]).ok().unwrap();
    let crop = Object::Array(vec![0.into(), 0.into(), 100.into(), 100.into()]);
    for (page, rotate) in [(pages[2], 180), (pages[3], 90)] {
        let page = part.get_dictionary(page).unwrap();
        assert_eq!(page.get(b"Resources").unwrap(), &Object::Reference(fonts));
        assert_eq!(page.get(b"CropBox").unwrap(), &crop);
        assert_eq!(page.get(b"Rotate").unwrap(), &Object::Integer(rotate));
        assert!(!page.has(b"MediaBox"), "the root still has it");
    }
    let plain = part.get_dictionary(pages[0]).unwrap();
    assert!(!plain.has(b"Resources") && !plain.has(b"CropBox") && !plain.has(b"Rotate"));
    let read_back = pdf_of(part);
    assert_eq!(page_text(&read_back, 2), page_text(&pdf, 3));
    assert!(page_text(&read_back, 3).contains("Page 4"));
}

#[test]
fn inheriting_ends_where_nodes_form_a_circle() {
    let (mut doc, pages, _) = synthesize(1);
    let below = doc.new_object_id();
    let above = doc.add_object(dict(vec![
        ("Parent", Object::Reference(below)),
        ("Rotate", Object::Integer(270)),
    ]));
    doc.objects.insert(below, Object::Dictionary(dict(vec![("Parent", Object::Reference(above))])));
    set_entry(&mut doc, pages[0], "Parent", Object::Reference(below));
    let part = Pdf::new(doc).ok().unwrap().subset(&[1]).ok().unwrap();
    let page = part.get_dictionary(pages[0]).unwrap();
    assert_eq!(page.get(b"Rotate").unwrap(), &Object::Integer(270));
    assert!(!page.has(b"CropBox"));
}

#[test]
fn an_excerpt_follows_references_to_the_catalog_and_the_pages() {
    let (mut doc, pages, catalog_id) = synthesize(3);
    let root = doc
        .get_dictionary(catalog_id)
        .and_then(|d| d.get(b"Pages"))
        .and_then(Object::as_reference)
        .unwrap();
    let to_catalog = doc.add_object(Object::Reference(catalog_id));
    doc.trailer.set("Root", Object::Reference(to_catalog));
    let to_root = doc.add_object(Object::Reference(root));
    set_entry(&mut doc, catalog_id, "Pages", Object::Reference(to_root));
    set_entry(&mut doc, catalog_id, "OpenAction", Object::Reference(pages[0]));
    let to_page = doc.add_object(Object::Reference(pages[1]));
    let kids = [pages[0], to_page, pages[2]].iter().map(|&id| Object::Reference(id)).collect();
    set_entry(&mut doc, root, "Kids", Object::Array(kids));
    let pdf = Pdf::new(doc).ok().unwrap();
    assert_eq!(pdf.page_count(), 3);
    let part = pdf.excerpt(&[2, 3]).ok().unwrap();
    assert_eq!(part.page_count(), 2);
    assert!(part.document().objects.contains_key(&to_page));
    assert!(!part.document().objects.contains_key(&pages[0]));
    assert!(!part.document().catalog().unwrap().has(b"OpenAction"));
    for (at, page) in [2u32, 3].iter().enumerate() {
        assert_eq!(page_text(&part, at as u32 + 1), page_text(&pdf, *page));
    }
}
