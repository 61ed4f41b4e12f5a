use tchunk_pdf::inspect::{list_cuts, print_histogram, print_tree};
use tchunk_pdf::pdf::OutlineEntry;

fn entry(depth: u32, page: u32, title: &str) -> OutlineEntry {
    OutlineEntry { depth, page, title: title.to_string() }
}

#[test]
fn print_histogram_no_outline_emits_single_line() {
    let mut buf = String::new();
    print_histogram(&mut buf, &[], 423);
    assert_eq!(buf, "423 pages, no outline present\n");
}

#[test]
fn print_histogram_basic() {
    let entries = vec![
        OutlineEntry { depth: 1, page: 1, title: "C1".into() },
        OutlineEntry { depth: 2, page: 3, title: "C1.1".into() },
        OutlineEntry { depth: 2, page: 5, title: "C1.2".into() },
        OutlineEntry { depth: 1, page: 10, title: "C2".into() },
        OutlineEntry { depth: 2, page: 14, title: "C2.1".into() },
    ];
    let mut got = String::new();
    print_histogram(&mut got, &entries, 20);
    let expected = "\
20 pages, 5 bookmarks, max depth 2
  at depth 1: 2 bookmarks  → 2 segments, 9-11 pages long
  at depth 2: 3 bookmarks  → 5 segments, 2-7 pages long
";
    assert_eq!(got, expected, "got:\n{got}\nexpected:\n{expected}");
}

#[test]
fn histogram_text_is_appended() {
    let mut buf = "before\n".to_string();
    print_histogram(&mut buf, &[], 1);
    assert_eq!(buf, "before\n1 pages, no outline present\n");
}

#[test]
fn histogram_singular_grammar() {
    let entries = vec![entry(1, 2, "A")];
    let mut got = String::new();
    print_histogram(&mut got, &entries, 2);
    assert_eq!(
        got,
        "2 pages, 1 bookmark, max depth 1\n  at depth 1: 1 bookmark  → 1 segment, 1 page long\n"
    );
}

#[test]
fn histogram_min_eq_max_collapses() {
    let entries = vec![entry(1, 1, "A"), entry(1, 4, "B")];
    let mut got = String::new();
    print_histogram(&mut got, &entries, 6);
    assert_eq!(
        got,
        "6 pages, 2 bookmarks, max depth 1\n  at depth 1: 2 bookmarks  → 2 segments, 3 pages long\n"
    );
}

#[test]
fn histogram_has_rows_for_depths_without_entries() {
    let entries = vec![entry(1, 1, "A"), entry(3, 5, "B")];
    let mut got = String::new();
    print_histogram(&mut got, &entries, 10);
    assert_eq!(
        got,
        "10 pages, 2 bookmarks, max depth 3\n\
         \x20 at depth 1: 1 bookmark  → 1 segment, 10 pages long\n\
         \x20 at depth 2: 0 bookmarks  → 1 segment, 10 pages long\n\
         \x20 at depth 3: 1 bookmark  → 2 segments, 4-6 pages long\n"
    );
}

#[test]
fn histogram_aligns_counts_and_merges_cuts_on_one_page() {
    let mut entries: Vec<OutlineEntry> = (1..=12).map(|p| entry(2, p, "s")).collect();
    entries.push(entry(1, 1, "c"));
    let mut got = String::new();
    print_histogram(&mut got, &entries, 12);
    assert_eq!(
        got,
        "12 pages, 13 bookmarks, max depth 2\n\
         \x20 at depth 1:  1 bookmark  → 1 segment, 12 pages long\n\
         \x20 at depth 2: 12 bookmarks  → 12 segments, 1 page long\n"
    );
}

#[test]
fn cuts_are_in_page_order_and_each_once() {
    let entries = vec![entry(1, 9, ""), entry(2, 3, ""), entry(1, 3, ""), entry(3, 5, "")];
    assert_eq!(list_cuts(&entries, 0), Vec::<u32>::new());
    assert_eq!(list_cuts(&entries, 1), vec![3, 9]);
    assert_eq!(list_cuts(&entries, 2), vec![3, 9]);
    assert_eq!(list_cuts(&entries, 3), vec![3, 5, 9]);
}

#[test]
fn print_tree_no_outline() {
    let mut buf = String::new();
    print_tree(&mut buf, &[], 100);
    assert_eq!(buf, "100 pages, no outline present\n");
}

#[test]
fn tree_indents_by_depth_and_pads_the_page_column() {
    let entries = vec![
        entry(1, 1, "Front Matter"),
        entry(2, 3, "Acknowledgements"),
        entry(1, 9, "Chapter 1"),
        entry(2, 11, "1.1 Background"),
        entry(3, 423, "1.1.1"),
    ];
    let mut got = String::new();
    print_tree(&mut got, &entries, 423);
    assert_eq!(
        got,
        "[p1]   Front Matter\n[p3]     Acknowledgements\n[p9]   Chapter 1\n[p11]    1.1 Background\n[p423]     1.1.1\n"
    );
}

#[test]
fn tree_names_untitled_entries() {
    let mut got = String::new();
    print_tree(&mut got, &[entry(1, 1, "")], 9);
    assert_eq!(got, "[p1] (untitled)\n");
}

#[test]
fn histogram_says_nothing_about_lengths_without_segments() {
    let mut got = String::new();
    print_histogram(&mut got, &[entry(2, 3, "a"), entry(2, 5, "b")], 8);
    assert_eq!(
        got,
        "8 pages, 2 bookmarks, max depth 2\n  at depth 1: 0 bookmarks  → 0 segments\n  at depth 2: 2 bookmarks  → 2 segments, 2-4 pages long\n"
    );
}

#[test]
fn histogram_depends_neither_on_order_nor_on_titles() {
    let a = [entry(1, 1, "a"), entry(2, 4, "b"), entry(2, 4, "c"), entry(3, 9, "d")];
    let b = [entry(3, 9, ""), entry(2, 4, "x"), entry(1, 1, "y"), entry(2, 4, "z")];
    let mut first = String::new();
    let mut second = String::new();
    print_histogram(&mut first, &a, 12);
    print_histogram(&mut second, &b, 12);
    assert_eq!(first, second);
}

#[test]
fn histogram_lengths_stay_within_the_document() {
    let entries = [entry(1, 4, "a"), entry(3, 1, "b"), entry(3, 10, "c")];
    let mut got = String::new();
    print_histogram(&mut got, &entries, 10);
    assert_eq!(
        got,
        "10 pages, 3 bookmarks, max depth 3\n  at depth 1: 1 bookmark  → 1 segment, 7 pages long\n  at depth 2: 0 bookmarks  → 1 segment, 7 pages long\n  at depth 3: 2 bookmarks  → 3 segments, 1-6 pages long\n"
    );
}
