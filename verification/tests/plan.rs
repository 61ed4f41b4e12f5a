use tchunk_pdf::plan::{
    next_effective_level, plan_chunks, segment_units, Boundary, Diagnostic, PlanResult, SplitAt,
};


fn pages_only(n: usize) -> Vec<Boundary> {
    vec![Boundary::Page; n]
}

fn chunk_pages(r: &PlanResult) -> Vec<Vec<u32>> {
    r.chunks.iter().map(|c| c.pages.clone()).collect()
}

fn chunk_tokens(r: &PlanResult, tokens: &[usize]) -> Vec<usize> {
    r.chunks
        .iter()
        .map(|c| c.pages.iter().map(|&p| tokens[(p - 1) as usize]).sum())
        .collect()
}

#[test]
fn empty_input_yields_empty_plan() {
    let r = plan_chunks(&[], &[], SplitAt::Page, 100);
    assert!(r.chunks.is_empty());
    assert!(r.diagnostics.is_empty());
}

#[test]
fn single_chunk_when_total_under_budget() {
    let tokens = vec![10, 20, 30];
    let r = plan_chunks(&tokens, &pages_only(3), SplitAt::Page, 100);
    assert_eq!(chunk_pages(&r), vec![vec![1, 2, 3]]);
    assert!(r.diagnostics.is_empty());
    assert_eq!(r.chunks[0].effective_level, SplitAt::Page);
}

#[test]
fn two_chunks_get_rebalanced() {
    let tokens = vec![10, 20, 30];
    let r = plan_chunks(&tokens, &pages_only(3), SplitAt::Page, 35);
    assert_eq!(r.chunks.len(), 2);
    let sums = chunk_tokens(&r, &tokens);
    assert!(sums[0].abs_diff(sums[1]) <= 10, "rebalance failed: {:?}", sums);
    assert!(sums.iter().all(|&s| s <= 35));
}

#[test]
fn greedy_then_rebalance_classic() {
    let tokens = vec![30, 30, 30, 5];
    let r = plan_chunks(&tokens, &pages_only(4), SplitAt::Page, 60);
    assert_eq!(chunk_pages(&r), vec![vec![1, 2], vec![3, 4]]);
}

#[test]
fn three_or_more_chunks_only_last_two_rebalance() {
    let tokens = vec![50, 50, 50, 50, 50, 1];
    let r = plan_chunks(&tokens, &pages_only(6), SplitAt::Page, 100);
    assert_eq!(chunk_pages(&r), vec![vec![1, 2], vec![3, 4], vec![5, 6]]);
}

#[test]
fn rebalance_last_two_against_remainder_pattern() {
    let tokens = vec![40, 40, 40, 40, 40, 40, 40, 5];
    let r = plan_chunks(&tokens, &pages_only(8), SplitAt::Page, 100);
    assert_eq!(r.chunks.len(), 4);
    let sums = chunk_tokens(&r, &tokens);
    assert!(sums.iter().all(|&s| s <= 100));
    let last_sum = sums[sums.len() - 1];
    let second_last_sum = sums[sums.len() - 2];
    assert!(second_last_sum + last_sum <= 200);
}

#[test]
fn oversized_page_emits_own_chunk_with_diagnostic() {
    let tokens = vec![10, 200, 10];
    let r = plan_chunks(&tokens, &pages_only(3), SplitAt::Page, 50);
    assert_eq!(chunk_pages(&r), vec![vec![1], vec![2], vec![3]]);
    assert_eq!(
        r.diagnostics,
        vec![Diagnostic::OversizedPage { page: 2, tokens: 200 }]
    );
}

#[test]
fn split_at_section_only_cuts_at_section_boundaries() {
    let tokens = vec![30, 30, 30, 30];
    let boundaries = vec![
        Boundary::Bookmark { depth: 1 },
        Boundary::Page,
        Boundary::Bookmark { depth: 2 },
        Boundary::Page,
    ];
    let r = plan_chunks(&tokens, &boundaries, SplitAt::Depth(2), 70);
    assert_eq!(chunk_pages(&r), vec![vec![1, 2], vec![3, 4]]);
    assert!(r.diagnostics.is_empty());
    assert!(r.chunks.iter().all(|c| c.effective_level == SplitAt::Depth(2)));
}

#[test]
fn split_at_section_no_interior_boundary_recurses_to_page() {
    // 4 pages of 30 tokens; only boundary at page 1 (start). budget 70. split_at=Depth(2).
    // No interior boundary qualifying for Depth(2) anywhere → the whole doc is one unit
    // which overruns, recurses down to Page level, and emits balanced page-level chunks.
    let tokens = vec![30, 30, 30, 30];
    let boundaries = vec![
        Boundary::Bookmark { depth: 1 },
        Boundary::Page,
        Boundary::Page,
        Boundary::Page,
    ];
    let r = plan_chunks(&tokens, &boundaries, SplitAt::Depth(2), 70);
    assert_eq!(chunk_pages(&r), vec![vec![1, 2], vec![3, 4]]);
    assert!(r.diagnostics.is_empty());
    assert!(r.chunks.iter().all(|c| c.effective_level == SplitAt::Page));
}

#[test]
fn split_at_chapter_emits_no_diagnostic_for_page_only_doc_when_total_fits_one_chunk() {
    let tokens = vec![10, 10, 10];
    let boundaries = vec![
        Boundary::Bookmark { depth: 1 },
        Boundary::Page,
        Boundary::Page,
    ];
    let r = plan_chunks(&tokens, &boundaries, SplitAt::Depth(1), 100);
    assert_eq!(chunk_pages(&r), vec![vec![1, 2, 3]]);
    assert!(r.diagnostics.is_empty());
}

#[test]
fn rebalance_respects_allowed_cuts() {
    let tokens = vec![10, 50, 10, 30];
    let boundaries = vec![
        Boundary::Bookmark { depth: 1 },
        Boundary::Page,
        Boundary::Bookmark { depth: 2 },
        Boundary::Page,
    ];
    let r = plan_chunks(&tokens, &boundaries, SplitAt::Depth(2), 70);
    assert_eq!(chunk_pages(&r), vec![vec![1, 2], vec![3, 4]]);
}

#[test]
fn rebalance_does_not_pick_cut_that_exceeds_budget() {
    let tokens = vec![10, 10, 60, 10];
    let r = plan_chunks(&tokens, &pages_only(4), SplitAt::Page, 80);
    assert_eq!(chunk_pages(&r), vec![vec![1, 2], vec![3, 4]]);
}

// ---- recursive-balance tests ----

#[test]
fn oversized_chapter_recurses_to_section_and_balances() {
    // One chapter containing three equal sections at pages 1, 2, 3 (each 100 tokens).
    // Chapter tokens = 300; budget = 120 (so the chapter is ~2.5× budget).
    // split_at = Depth(1) → unit is the whole doc → overruns → recurses to Depth(2).
    let tokens = vec![100, 100, 100];
    let boundaries = vec![
        Boundary::Bookmark { depth: 1 },
        Boundary::Bookmark { depth: 2 },
        Boundary::Bookmark { depth: 2 },
    ];
    let r = plan_chunks(&tokens, &boundaries, SplitAt::Depth(1), 120);
    let sums = chunk_tokens(&r, &tokens);
    assert!(sums.iter().all(|&s| s <= 120), "budget violated: {:?}", sums);
    // Flat coverage: all three pages accounted for once, in order.
    let flat: Vec<u32> = r.chunks.iter().flat_map(|c| c.pages.clone()).collect();
    assert_eq!(flat, vec![1, 2, 3]);
    assert!(
        r.chunks.iter().all(|c| c.effective_level == SplitAt::Depth(2)),
        "expected all chunks at Depth(2), got {:?}",
        r.chunks.iter().map(|c| c.effective_level).collect::<Vec<_>>()
    );
    assert!(r.diagnostics.is_empty());
}

#[test]
fn oversized_chapter_falls_through_to_page_when_no_finer_boundaries() {
    // One chapter, no finer outline. Chapter overruns → recursion falls through
    // (no deeper bookmarks inside) → Page level.
    let tokens = vec![30, 30, 30, 30, 30];
    let boundaries = vec![
        Boundary::Bookmark { depth: 1 },
        Boundary::Page,
        Boundary::Page,
        Boundary::Page,
        Boundary::Page,
    ];
    let r = plan_chunks(&tokens, &boundaries, SplitAt::Depth(1), 90);
    let sums = chunk_tokens(&r, &tokens);
    assert!(sums.iter().all(|&s| s <= 90), "budget violated: {:?}", sums);
    assert!(r.chunks.iter().all(|c| c.effective_level == SplitAt::Page));
    assert!(r.diagnostics.is_empty());
    let flat: Vec<u32> = r.chunks.iter().flat_map(|c| c.pages.clone()).collect();
    assert_eq!(flat, vec![1, 2, 3, 4, 5]);
}

#[test]
fn mixed_top_level_some_fit_some_recurse() {
    // Two chapters. Chapter A (pages 1-2) fits in its own chunk. Chapter B (pages 3-6)
    // contains four sections of 40 tokens each and overruns budget 80 → recurses to Depth(2).
    // Expect chunk 0 at Depth(1), subsequent chunks at Depth(2).
    let tokens = vec![40, 40, 40, 40, 40, 40];
    let boundaries = vec![
        Boundary::Bookmark { depth: 1 }, // page 1 starts chapter A
        Boundary::Bookmark { depth: 2 }, // page 2 is a section within A
        Boundary::Bookmark { depth: 1 }, // page 3 starts chapter B
        Boundary::Bookmark { depth: 2 },
        Boundary::Bookmark { depth: 2 },
        Boundary::Bookmark { depth: 2 },
    ];
    let r = plan_chunks(&tokens, &boundaries, SplitAt::Depth(1), 80);
    let sums = chunk_tokens(&r, &tokens);
    assert!(sums.iter().all(|&s| s <= 80), "budget violated: {:?}", sums);

    // First chunk is chapter A (pages 1-2) at Depth(1).
    assert_eq!(r.chunks[0].pages, vec![1, 2]);
    assert_eq!(r.chunks[0].effective_level, SplitAt::Depth(1));
    // Later chunks are sub-chunks of chapter B at Depth(2).
    assert!(
        r.chunks[1..]
            .iter()
            .all(|c| c.effective_level == SplitAt::Depth(2)),
        "expected later chunks at Depth(2)"
    );
    let flat: Vec<u32> = r.chunks.iter().flat_map(|c| c.pages.clone()).collect();
    assert_eq!(flat, vec![1, 2, 3, 4, 5, 6]);
}

#[test]
fn oversized_page_inside_recursed_unit_still_fires_diagnostic() {
    // Chapter = 1 page that itself is oversized. No finer structure. Recursion falls
    // through to Page, where the single-page base case still emits OversizedPage.
    let tokens = vec![10, 200, 10];
    let boundaries = vec![
        Boundary::Bookmark { depth: 1 },
        Boundary::Bookmark { depth: 1 }, // page 2 starts a new chapter (which overruns)
        Boundary::Bookmark { depth: 1 },
    ];
    let r = plan_chunks(&tokens, &boundaries, SplitAt::Depth(1), 50);
    assert_eq!(chunk_pages(&r), vec![vec![1], vec![2], vec![3]]);
    assert_eq!(
        r.diagnostics,
        vec![Diagnostic::OversizedPage { page: 2, tokens: 200 }]
    );
}

#[test]
fn oversized_page_inside_multi_page_recursed_chapter_warns() {
    // One chapter, five pages, page 3 is oversized (tokens > budget). The chapter overruns
    // so we recurse to Page level. The oversized page must still trigger the
    // OversizedPage diagnostic — this is the "recursion bottomed out but a single atomic
    // unit still exceeds budget" signal the user needs to see.
    let tokens = vec![100, 100, 8000, 100, 100];
    let boundaries = vec![
        Boundary::Bookmark { depth: 1 },
        Boundary::Page,
        Boundary::Page,
        Boundary::Page,
        Boundary::Page,
    ];
    let r = plan_chunks(&tokens, &boundaries, SplitAt::Depth(1), 1000);
    assert_eq!(
        r.diagnostics,
        vec![Diagnostic::OversizedPage { page: 3, tokens: 8000 }]
    );
    // The oversized page is its own chunk; neighbors pack around it.
    assert!(
        r.chunks.iter().any(|c| c.pages == vec![3]),
        "expected page 3 alone in its own chunk, got {:?}",
        r.chunks.iter().map(|c| c.pages.clone()).collect::<Vec<_>>()
    );
}

#[test]
fn recursed_chunks_never_mergeable_with_neighbors() {
    // Regression: the Draco_Malfoy book at budget 7000 produced pairs like [3145, 3218] and
    // [2286, 2374] within the same recursed chapter — both pairs sum under budget. The
    // equal-target packing bug was causing that; budget-greedy should make adjacent pairs
    // always sum strictly *over* budget within a recursed unit.
    //
    // 14 pages of 500 tokens each = 7000 total. Chapter covers all. Budget 6000 forces
    // recursion to Page. Expect the produced chunks to have the invariant that no two
    // adjacent chunks can be combined under budget.
    let tokens = vec![500usize; 14];
    let mut boundaries = vec![Boundary::Page; 14];
    boundaries[0] = Boundary::Bookmark { depth: 1 };
    let r = plan_chunks(&tokens, &boundaries, SplitAt::Depth(1), 6000);
    let sums = chunk_tokens(&r, &tokens);
    assert!(sums.iter().all(|&s| s <= 6000), "budget violated: {:?}", sums);
    for w in sums.windows(2) {
        assert!(
            w[0] + w[1] > 6000,
            "adjacent chunks could be merged under budget: {} + {} = {} ≤ 6000",
            w[0],
            w[1],
            w[0] + w[1]
        );
    }
}

#[test]
fn recursed_chapter_does_not_oversplit() {
    // Another regression: pack a chapter of 8 pages @ 400 tokens each = 3200 total, budget
    // 2000. Budget-greedy should give 2 chunks (each 1600-2000 tokens), not 3+ tiny ones.
    let tokens = vec![400usize; 8];
    let mut boundaries = vec![Boundary::Page; 8];
    boundaries[0] = Boundary::Bookmark { depth: 1 };
    let r = plan_chunks(&tokens, &boundaries, SplitAt::Depth(1), 2000);
    assert_eq!(r.chunks.len(), 2, "expected 2 chunks, got {}: {:?}", r.chunks.len(), chunk_tokens(&r, &tokens));
    let sums = chunk_tokens(&r, &tokens);
    assert!(sums.iter().all(|&s| s <= 2000));
    // Balanced within 1 page (400 tokens).
    assert!(sums[0].abs_diff(sums[1]) <= 400, "unbalanced: {:?}", sums);
}

#[test]
fn balance_improves_with_pairwise_sweep() {
    // Without pairwise sweep, equal-target greedy could leave the final chunk small.
    // Five sections of [60, 60, 60, 60, 60] (total 300), budget 120. Verify budget and
    // ordering are preserved.
    let tokens = vec![60, 60, 60, 60, 60];
    let boundaries = vec![
        Boundary::Bookmark { depth: 1 },
        Boundary::Bookmark { depth: 2 },
        Boundary::Bookmark { depth: 2 },
        Boundary::Bookmark { depth: 2 },
        Boundary::Bookmark { depth: 2 },
    ];
    let r = plan_chunks(&tokens, &boundaries, SplitAt::Depth(1), 120);
    let sums = chunk_tokens(&r, &tokens);
    assert!(sums.iter().all(|&s| s <= 120));
    let flat: Vec<u32> = r.chunks.iter().flat_map(|c| c.pages.clone()).collect();
    assert_eq!(flat, vec![1, 2, 3, 4, 5]);
}

#[test]
fn next_effective_level_walks_depth_then_page() {
    // From Depth(1), with an interior Bookmark{depth:2} → next is Depth(2).
    let b = vec![
        Boundary::Bookmark { depth: 1 },
        Boundary::Bookmark { depth: 2 },
        Boundary::Page,
    ];
    assert_eq!(
        next_effective_level(&b, 0..3, SplitAt::Depth(1)),
        SplitAt::Depth(2)
    );
    // From Depth(2), no deeper bookmarks → falls through to Page.
    let b = vec![
        Boundary::Bookmark { depth: 2 },
        Boundary::Page,
        Boundary::Page,
    ];
    assert_eq!(
        next_effective_level(&b, 0..3, SplitAt::Depth(2)),
        SplitAt::Page
    );
    // From AnyBookmark → Page directly.
    let b = vec![
        Boundary::Bookmark { depth: 5 },
        Boundary::Bookmark { depth: 5 },
    ];
    assert_eq!(
        next_effective_level(&b, 0..2, SplitAt::AnyBookmark),
        SplitAt::Page
    );
}

#[test]
fn segment_units_at_page_returns_singletons() {
    let b = pages_only(4);
    let units = segment_units(&b, 0..4, SplitAt::Page);
    assert_eq!(units, vec![0..1, 1..2, 2..3, 3..4]);
}

#[test]
fn segment_units_at_section_splits_on_interior_boundaries() {
    let b = vec![
        Boundary::Bookmark { depth: 1 },
        Boundary::Page,
        Boundary::Bookmark { depth: 2 },
        Boundary::Page,
        Boundary::Bookmark { depth: 2 },
    ];
    let units = segment_units(&b, 0..5, SplitAt::Depth(2));
    assert_eq!(units, vec![0..2, 2..4, 4..5]);
}

#[test]
fn next_effective_level_skips_empty_levels() {
    // Depth(1) requested; interior has only Page boundaries → fall through to Page.
    let b = vec![
        Boundary::Bookmark { depth: 1 },
        Boundary::Page,
        Boundary::Page,
    ];
    assert_eq!(
        next_effective_level(&b, 0..3, SplitAt::Depth(1)),
        SplitAt::Page
    );
    // Depth(1) requested; interior has a depth-2 bookmark → land on Depth(2).
    let b = vec![
        Boundary::Bookmark { depth: 1 },
        Boundary::Bookmark { depth: 2 },
        Boundary::Page,
    ];
    assert_eq!(
        next_effective_level(&b, 0..3, SplitAt::Depth(1)),
        SplitAt::Depth(2)
    );
}

#[test]
fn splitat_display_covers_all_variants() {
    assert_eq!(SplitAt::Page.to_string(), "page");
    assert_eq!(SplitAt::AnyBookmark.to_string(), "any-bookmark");
    assert_eq!(SplitAt::Depth(1).to_string(), "depth-1");
    assert_eq!(SplitAt::Depth(42).to_string(), "depth-42");
}

#[test]
fn splitat_matches_depth_threshold() {
    let page_split = SplitAt::Page;
    let any_b = SplitAt::AnyBookmark;
    let d1 = SplitAt::Depth(1);
    let d2 = SplitAt::Depth(2);
    let page = Boundary::Page;
    let b1 = Boundary::Bookmark { depth: 1 };
    let b2 = Boundary::Bookmark { depth: 2 };
    let b3 = Boundary::Bookmark { depth: 3 };

    // Page matches everything (every page boundary qualifies at Page level).
    assert!(page_split.matches(&page));
    assert!(page_split.matches(&b1));

    // AnyBookmark matches every Bookmark, never Page.
    assert!(any_b.matches(&b1));
    assert!(any_b.matches(&b3));
    assert!(!any_b.matches(&page));

    // Depth(N) matches Bookmark{depth} where depth <= N.
    assert!(d1.matches(&b1));
    assert!(!d1.matches(&b2));
    assert!(d2.matches(&b1));
    assert!(d2.matches(&b2));
    assert!(!d2.matches(&b3));
    assert!(!d1.matches(&page));
}

#[test]
fn splitat_ord_runs_coarse_to_fine() {
    // Variant order in the enum declaration drives derive(Ord), so:
    //   Depth(small N) < Depth(large N) < AnyBookmark < Page
    assert!(SplitAt::Depth(1) < SplitAt::Depth(2));
    assert!(SplitAt::Depth(99) < SplitAt::AnyBookmark);
    assert!(SplitAt::AnyBookmark < SplitAt::Page);
    assert!(SplitAt::Depth(1) < SplitAt::Page);
}

#[test]
fn next_effective_level_is_the_smallest_deeper_one_with_a_bookmark() {
    let b1 = Boundary::Bookmark { depth: 1 };
    let b5 = Boundary::Bookmark { depth: 5 };
    let at = |marks: &[Boundary], level: SplitAt| next_effective_level(marks, 0..marks.len(), level);
    assert_eq!(at(&[b1, b1, Boundary::Page], SplitAt::Depth(1)), SplitAt::Depth(2));
    assert_eq!(at(&[b1, b5, Boundary::Page], SplitAt::Depth(1)), SplitAt::Depth(5));
    assert_eq!(at(&[b1, b5, b1], SplitAt::Depth(3)), SplitAt::Depth(4));
    assert_eq!(at(&[b1, b1], SplitAt::Depth(u32::MAX)), SplitAt::Page);
    assert_eq!(at(&[b1, Boundary::Page], SplitAt::Depth(1)), SplitAt::Page);
}

#[test]
fn regions_planned_at_a_deeper_level_stay_intact() {
    let b2 = Boundary::Bookmark { depth: 2 };
    let b3 = Boundary::Bookmark { depth: 3 };
    let r = plan_chunks(
        &[20, 10, 10, 30, 30],
        &[b2, b2, b2, b3, Boundary::Page],
        SplitAt::Depth(1),
        50,
    );
    assert_eq!(chunk_pages(&r), vec![vec![1, 2], vec![3], vec![4], vec![5]]);
    let levels: Vec<SplitAt> = r.chunks.iter().map(|c| c.effective_level).collect();
    assert_eq!(levels, vec![SplitAt::Depth(2), SplitAt::Depth(3), SplitAt::Page, SplitAt::Page]);
}
