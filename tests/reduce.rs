use handout::grouping::{group_pages, SlideGroup};
use handout::reduce::{
    group_index_of, relabel_ranges, remap_label_starts, removed_page_numbers, retarget, retarget_all, terminal_for,
    terminal_pages, LabelStart,
};

fn groups(spans: &[(usize, usize)]) -> Vec<SlideGroup> {
    spans.iter().map(|&(start, end)| SlideGroup { start, end }).collect()
}

fn ids(n: u32) -> Vec<(u32, u16)> {
    (0..n).map(|i| (10 + i, 0)).collect()
}

#[test]
fn five_pages_two_slides_keep_third_and_fifth() {
    let pages = ids(5);
    let contents: Vec<Option<Vec<u8>>> = vec![
        Some(b"a".to_vec()),
        Some(b"ab".to_vec()),
        Some(b"abc".to_vec()),
        Some(b"x".to_vec()),
        Some(b"xy".to_vec()),
    ];
    let g = group_pages(&contents);
    assert_eq!(terminal_pages(&pages, &g), vec![(12, 0), (14, 0)]);
    assert_eq!(removed_page_numbers(&g, 5), vec![1, 2, 4]);
}

#[test]
fn singleton_groups_remove_nothing() {
    let pages = ids(3);
    let g = groups(&[(0, 1), (1, 2), (2, 3)]);
    assert_eq!(terminal_pages(&pages, &g), pages);
    assert!(removed_page_numbers(&g, 3).is_empty());
}

#[test]
fn output_count_equals_group_count() {
    let g = groups(&[(0, 2), (2, 3), (3, 7), (7, 8)]);
    let pages = ids(8);
    let kept = terminal_pages(&pages, &g);
    let removed = removed_page_numbers(&g, 8);
    assert_eq!(kept.len(), g.len());
    assert_eq!(kept.len() + removed.len(), 8);
    assert_eq!(removed, vec![1, 4, 5, 6]);
}

#[test]
fn terminal_of_each_page() {
    let g = groups(&[(0, 3), (3, 4), (4, 6)]);
    let expected = [2, 2, 2, 3, 5, 5];
    for (i, &t) in expected.iter().enumerate() {
        assert_eq!(terminal_for(&g, 6, i), t);
    }
}

#[test]
fn link_to_non_terminal_page_moves_to_terminal() {
    // pages 1-3 form one slide, pages 4-6 another; page 2 links to page 5
    let pages = ids(6);
    let g = groups(&[(0, 3), (3, 6)]);
    let link_target = pages[4];
    let moved = retarget(link_target, &pages, &g);
    assert_eq!(moved, pages[5]);
    let removed = removed_page_numbers(&g, 6);
    for n in removed {
        assert_ne!(moved, pages[(n - 1) as usize]);
    }
}

#[test]
fn reference_to_other_object_is_unchanged() {
    let pages = ids(4);
    let g = groups(&[(0, 2), (2, 4)]);
    assert_eq!(retarget((99, 0), &pages, &g), (99, 0));
    assert_eq!(retarget((10, 1), &pages, &g), (10, 1));
    assert_eq!(retarget(pages[3], &pages, &g), pages[3]);
}

#[test]
fn tracked_references_never_point_at_removed_pages() {
    let pages = ids(6);
    let g = groups(&[(0, 2), (2, 3), (3, 6)]);
    let targets = vec![pages[0], pages[1], pages[2], pages[3], pages[4], (7, 0)];
    let moved = retarget_all(&targets, &pages, &g);
    assert_eq!(moved, vec![pages[1], pages[1], pages[2], pages[5], pages[5], (7, 0)]);
    let removed = removed_page_numbers(&g, 6);
    for r in &moved {
        for n in &removed {
            assert_ne!(*r, pages[(*n - 1) as usize]);
        }
    }
}

#[test]
fn group_of_each_page() {
    let g = groups(&[(0, 2), (2, 3), (3, 6)]);
    let expected = [0, 0, 1, 2, 2, 2];
    for (i, &k) in expected.iter().enumerate() {
        assert_eq!(group_index_of(&g, 6, i), k);
    }
}

#[test]
fn label_ranges_follow_their_groups() {
    // groups: pages 0-2, 3, 4-5
    let g = groups(&[(0, 3), (3, 4), (4, 6)]);
    let starts = vec![0, 1, 3, 5, 9];
    assert_eq!(
        remap_label_starts(&starts, &g, 6),
        vec![
            LabelStart::Dropped,
            LabelStart::Moved(0),
            LabelStart::Moved(1),
            LabelStart::Moved(2),
            LabelStart::Untouched,
        ]
    );
}

#[test]
fn label_ranges_of_singleton_groups_stay() {
    let g = groups(&[(0, 1), (1, 2), (2, 3)]);
    assert_eq!(
        remap_label_starts(&vec![0, 2], &g, 3),
        vec![LabelStart::Moved(0), LabelStart::Moved(2)]
    );
    assert!(remap_label_starts(&Vec::new(), &g, 3).is_empty());
}

#[test]
fn label_ranges_are_rebuilt_for_the_handout() {
    // groups: pages 0-2, 3, 4-5
    let g = groups(&[(0, 3), (3, 4), (4, 6)]);
    let nums = vec![(0, "a"), (1, "b"), (3, "c"), (5, "d"), (9, "e")];
    assert_eq!(
        relabel_ranges(nums, &g, 6),
        vec![(0, "b"), (1, "c"), (2, "d"), (9, "e")]
    );
    assert!(relabel_ranges(Vec::<(usize, u8)>::new(), &g, 6).is_empty());
}
