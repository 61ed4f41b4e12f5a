use tchunk_pdf::inspect::list_cuts;
use tchunk_pdf::pdf::OutlineEntry;
use tchunk_pdf::plan::{
    plan_chunks, segment_units, try_rebalance_pair, Boundary, Diagnostic, PlannedChunk, SplitAt,
};

fn sum(tokens: &[usize], chunk: &PlannedChunk) -> usize {
    chunk.pages.iter().map(|&p| tokens[(p - 1) as usize]).sum()
}

fn mark(depth: u32) -> Boundary {
    Boundary::Bookmark { depth }
}

/// A document with chapters, sections, an oversized page and pages without bookmarks.
fn sample() -> (Vec<usize>, Vec<Boundary>) {
    let tokens = vec![40, 30, 20, 10, 90, 150, 5, 60, 60, 60, 10, 10, 10, 80, 0, 0];
    let mut boundaries = vec![Boundary::Page; tokens.len()];
    boundaries[0] = mark(1);
    boundaries[2] = mark(2);
    boundaries[4] = mark(1);
    boundaries[5] = mark(3);
    boundaries[7] = mark(2);
    boundaries[8] = mark(3);
    boundaries[10] = mark(1);
    boundaries[13] = mark(2);
    (tokens, boundaries)
}

fn levels() -> Vec<SplitAt> {
    vec![
        SplitAt::Depth(0),
        SplitAt::Depth(1),
        SplitAt::Depth(2),
        SplitAt::Depth(3),
        SplitAt::AnyBookmark,
        SplitAt::Page,
    ]
}

#[test]
fn every_page_is_in_one_chunk_and_in_order() {
    let (tokens, boundaries) = sample();
    for level in levels() {
        for budget in [0, 10, 60, 100, 149, 150, 1000] {
            let plan = plan_chunks(&tokens, &boundaries, level, budget);
            let flat: Vec<u32> = plan.chunks.iter().flat_map(|c| c.pages.clone()).collect();
            assert_eq!(flat, (1..=tokens.len() as u32).collect::<Vec<u32>>());
        }
    }
}

#[test]
fn chunks_respect_budget_and_levels() {
    let (tokens, boundaries) = sample();
    for level in levels() {
        for budget in [0, 10, 60, 100, 149, 150, 1000] {
            let plan = plan_chunks(&tokens, &boundaries, level, budget);
            for pair in plan.chunks.windows(2) {
                let first = boundaries[(pair[1].pages[0] - 1) as usize];
                assert!(pair[0].effective_level.matches(&first));
                assert!(pair[1].effective_level.matches(&first));
                if pair[0].effective_level == level && pair[1].effective_level == level {
                    assert!(sum(&tokens, &pair[0]) + sum(&tokens, &pair[1]) > budget);
                }
            }
            for chunk in &plan.chunks {
                assert!(level <= chunk.effective_level);
                assert!(sum(&tokens, chunk) <= budget || chunk.pages.len() == 1);
            }
        }
    }
}

#[test]
fn oversized_pages_stand_alone_and_are_told() {
    let (tokens, boundaries) = sample();
    let plan = plan_chunks(&tokens, &boundaries, SplitAt::Depth(1), 80);
    assert_eq!(
        plan.diagnostics,
        vec![
            Diagnostic::OversizedPage { page: 5, tokens: 90 },
            Diagnostic::OversizedPage { page: 6, tokens: 150 },
        ]
    );
    for page in [5, 6] {
        let chunk = plan.chunks.iter().find(|c| c.pages.contains(&page)).unwrap();
        assert_eq!(chunk.pages, vec![page]);
        assert_eq!(chunk.effective_level, SplitAt::Page);
    }
}

#[test]
fn fitting_document_is_one_chunk_at_the_requested_level() {
    let (tokens, boundaries) = sample();
    let total: usize = tokens.iter().sum();
    for level in levels() {
        let plan = plan_chunks(&tokens, &boundaries, level, total);
        assert_eq!(plan.chunks.len(), 1);
        assert_eq!(plan.chunks[0].effective_level, level);
    }
}

#[test]
fn page_packing_uses_the_fewest_chunks() {
    let tokens = vec![30, 40, 50, 20, 70, 10, 10, 60, 30, 30];
    let n = tokens.len();
    for budget in [70, 80, 100, 130, 200, 350] {
        let plan = plan_chunks(&tokens, &vec![Boundary::Page; n], SplitAt::Page, budget);
        let mut fewest = vec![0usize; n + 1];
        for end in 1..=n {
            fewest[end] = (0..end)
                .filter(|&start| tokens[start..end].iter().sum::<usize>() <= budget)
                .map(|start| fewest[start] + 1)
                .min()
                .unwrap();
        }
        assert_eq!(plan.chunks.len(), fewest[n]);
    }
}

#[test]
fn fitting_units_keep_the_requested_level() {
    let tokens = vec![40, 40, 40, 40];
    let boundaries = vec![mark(1), mark(2), mark(1), mark(3)];
    let plan = plan_chunks(&tokens, &boundaries, SplitAt::Depth(1), 80);
    assert_eq!(plan.chunks.len(), 2);
    assert!(plan.chunks.iter().all(|c| c.effective_level == SplitAt::Depth(1)));
}

#[test]
fn sums_beyond_a_machine_word_are_planned() {
    let tokens = vec![usize::MAX, usize::MAX, 1];
    let plan = plan_chunks(&tokens, &vec![Boundary::Page; 3], SplitAt::Page, usize::MAX);
    let pages: Vec<Vec<u32>> = plan.chunks.iter().map(|c| c.pages.clone()).collect();
    assert_eq!(pages, vec![vec![1], vec![2], vec![3]]);
    assert!(plan.diagnostics.is_empty());
}

#[test]
fn segments_of_the_histogram_are_units_of_the_split() {
    let marks = [(1u32, 1u32), (2, 3), (2, 5), (1, 10), (2, 14)];
    let entries: Vec<OutlineEntry> = marks
        .iter()
        .map(|&(depth, page)| OutlineEntry { depth, page, title: String::new() })
        .collect();
    let mut boundaries = vec![Boundary::Page; 20];
    for &(depth, page) in &marks {
        boundaries[(page - 1) as usize] = mark(depth);
    }
    for d in [1, 2] {
        let units = segment_units(&boundaries, 0..20, SplitAt::Depth(d));
        assert_eq!(units.len(), list_cuts(&entries, d).len());
    }
    let units = segment_units(&boundaries, 0..20, SplitAt::Depth(1));
    assert_eq!(units.len(), list_cuts(&entries[1..], 1).len() + 1);
}

#[test]
fn ranges_may_end_behind_the_last_boundary() {
    let boundaries = vec![Boundary::Page, mark(1)];
    assert_eq!(segment_units(&boundaries, 0..4, SplitAt::Depth(1)), vec![0..1, 1..4]);
    assert!(segment_units(&boundaries, 3..3, SplitAt::Page).is_empty());
}

#[test]
fn rebalancing_a_pair_twice_changes_nothing() {
    let tokens = vec![10, 20, 30, 40, 50, 60];
    let boundaries = vec![Boundary::Page; tokens.len()];
    let pair = |left: &[u32], right: &[u32]| {
        vec![
            PlannedChunk { pages: left.to_vec(), effective_level: SplitAt::Page },
            PlannedChunk { pages: right.to_vec(), effective_level: SplitAt::Depth(1) },
        ]
    };
    let mut chunks = pair(&[6, 1, 6, 2], &[3]);
    assert!(try_rebalance_pair(&mut chunks, 0, &tokens, &boundaries, SplitAt::Page, 200));
    let once = chunks.clone();
    assert_eq!(once, pair(&[6, 1], &[6, 2, 3]));
    assert!(!try_rebalance_pair(&mut chunks, 0, &tokens, &boundaries, SplitAt::Page, 200));
    assert_eq!(chunks, once);

    let mut tight = pair(&[6, 1], &[5]);
    assert!(!try_rebalance_pair(&mut tight, 0, &tokens, &boundaries, SplitAt::Page, 10));
    assert_eq!(tight, pair(&[6, 1], &[5]));

    let mut behind_last = pair(&[6, 1, 2], &[]);
    assert!(try_rebalance_pair(&mut behind_last, 0, &tokens, &boundaries, SplitAt::Depth(1), 100));
    assert_eq!(behind_last, pair(&[6], &[1, 2]));
}
