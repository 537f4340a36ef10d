//! Reducing each slide group to its terminal page: retargeting the references
//! that pointed at the pages that leave, and moving the page-label ranges.
use vstd::prelude::*;
use crate::grouping::{
    SlideGroup,
    continues_at,
    is_grouping_of,
    is_partition,
    lemma_page_in_one_group,
    lemma_reduced_input_is_fixed,
    lemma_starts_increase,
};

verus! {

/// Identifier of an indirect object: object number and generation.
pub type ObjectRef = (u32, u16);

/// Page `i` is the terminal page of its group.
pub open spec fn is_terminal(g: Seq<SlideGroup>, i: int) -> bool {
    exists|k: int| 0 <= k < g.len() && #[trigger] g[k].terminal() == i
}

/// One-based page numbers of the non-terminal pages, in document order.
pub open spec fn non_terminal_numbers(g: Seq<SlideGroup>) -> Seq<int>
    decreases g.len(),
{
    if g.len() == 0 {
        seq![]
    } else {
        let last = g.last();
        non_terminal_numbers(g.drop_last()) + Seq::new(
            (last.end - last.start - 1) as nat,
            |j: int| last.start + j + 1,
        )
    }
}

/// `r` is where a reference to `target` points once the pages `pages` are
/// reduced by the groups `g`: a reference to a page goes to the terminal page
/// of that page's group, any other reference is left as it is.
pub open spec fn retarget_result(
    target: ObjectRef,
    pages: Seq<ObjectRef>,
    g: Seq<SlideGroup>,
    r: ObjectRef,
) -> bool {
    if exists|i: int| 0 <= i < pages.len() && pages[i] == target {
        exists|i: int, k: int|
            #![trigger pages[i], g[k]]
            0 <= i < pages.len() && pages[i] == target && (forall|j: int|
                0 <= j < i ==> pages[j] != target) && 0 <= k < g.len() && g[k].start <= i
                < g[k].end && r == pages[g[k].terminal()]
    } else {
        r == target
    }
}

/// Index of the terminal page of the group that holds page `i`.
pub fn terminal_for(groups: &Vec<SlideGroup>, n: usize, i: usize) -> (r: usize)
    requires
        is_partition(groups@, n as int),
        i < n,
    ensures
        exists|k: int|
            0 <= k < groups@.len() && #[trigger] groups@[k].start <= i < groups@[k].end && r
                == groups@[k].terminal(),
{
    let k = group_index_of(groups, n, i);
    assert(groups@[k as int].start < groups@[k as int].end);
    groups[k].end - 1
}

/// Group `k` of `g` holds page `i`.
pub open spec fn in_group(g: Seq<SlideGroup>, k: int, i: int) -> bool {
    0 <= k < g.len() && g[k].start <= i < g[k].end
}

/// Index of the group that holds page `i`.
pub fn group_index_of(groups: &Vec<SlideGroup>, n: usize, i: usize) -> (r: usize)
    requires
        is_partition(groups@, n as int),
        i < n,
    ensures
        in_group(groups@, r as int, i as int),
{
    let m = groups.len();
    let mut k: usize = 0;
    while groups[k].end <= i
        invariant
            m == groups@.len(),
            is_partition(groups@, n as int),
            i < n,
            k < groups@.len(),
            groups@[k as int].start <= i,
        decreases groups@.len() - k,
    {
        assert(k + 1 < groups@.len());
        assert(groups@[k as int].end == groups@[k + 1].start);
        k += 1;
    }
    k
}

/// What becomes of a page-label range of the input.
#[derive(Clone, Copy, Debug, PartialEq, Eq)]
pub enum LabelStart {
    /// The range now starts at this page of the handout.
    Moved(usize),
    /// A later range starts within the same slide group and covers its
    /// terminal page, so this one labels no page any more.
    Dropped,
    /// The range starts past the last page; it is left as it was.
    Untouched,
}

/// The fate of the label range starting at page `starts[j]`: it moves to the
/// handout page of its group, unless the next range starts in that group
/// too.
pub open spec fn label_start_result(starts: Seq<usize>, g: Seq<SlideGroup>, n: int, j: int) -> LabelStart {
    if starts[j] >= n {
        LabelStart::Untouched
    } else {
        let k = choose|k: int| #[trigger] in_group(g, k, starts[j] as int);
        if j + 1 < starts.len() && starts[j + 1] < n && in_group(g, k, starts[j + 1] as int) {
            LabelStart::Dropped
        } else {
            LabelStart::Moved(k as usize)
        }
    }
}

/// Remaps the start pages `starts` of the page-label ranges of the input
/// onto the handout's pages.
pub fn remap_label_starts(starts: &Vec<usize>, groups: &Vec<SlideGroup>, n: usize) -> (r: Vec<LabelStart>)
    requires
        is_partition(groups@, n as int),
    ensures
        r@.len() == starts@.len(),
        forall|j: int| 0 <= j < starts@.len() ==> #[trigger] r@[j] == label_start_result(starts@, groups@, n as int, j),
{
    let mut r: Vec<LabelStart> = Vec::new();
    let mut j: usize = 0;
    while j < starts.len()
        invariant
            is_partition(groups@, n as int),
            j <= starts@.len(),
            r@.len() == j,
            forall|m: int| 0 <= m < j ==> #[trigger] r@[m] == label_start_result(starts@, groups@, n as int, m),
        decreases starts@.len() - j,
    {
        let out = if starts[j] >= n {
            LabelStart::Untouched
        } else {
            let k = group_index_of(groups, n, starts[j]);
            proof {
                let kc = choose|kc: int| #[trigger] in_group(groups@, kc, starts@[j as int] as int);
                lemma_page_in_one_group(groups@, n as int, starts@[j as int] as int);
                assert(in_group(groups@, kc, starts@[j as int] as int));
                assert(kc == k);
            }
            if j + 1 < starts.len() && starts[j + 1] < n && groups[k].start <= starts[j + 1]
                && starts[j + 1] < groups[k].end {
                LabelStart::Dropped
            } else {
                LabelStart::Moved(k)
            }
        };
        r.push(out);
        j += 1;
    }
    r
}

/// The start pages of the label ranges `nums`.
pub open spec fn label_keys<V>(nums: Seq<(usize, V)>) -> Seq<usize> {
    nums.map_values(|p: (usize, V)| p.0)
}

/// The first `m` label ranges of `nums` as they stand in the handout: a
/// moved range takes its new start page, a dropped one leaves, and one past
/// the last page stays as it was.
pub open spec fn relabeled<V>(nums: Seq<(usize, V)>, g: Seq<SlideGroup>, n: int, m: int) -> Seq<(usize, V)>
    decreases m,
{
    if m <= 0 {
        seq![]
    } else {
        let prev = relabeled(nums, g, n, m - 1);
        match label_start_result(label_keys(nums), g, n, m - 1) {
            LabelStart::Moved(k) => prev.push((k, nums[m - 1].1)),
            LabelStart::Dropped => prev,
            LabelStart::Untouched => prev.push(nums[m - 1]),
        }
    }
}

/// Rebuilds the page-label ranges `nums` (start page, label style) of the
/// input for the handout, as [`remap_label_starts`] decides for each.
pub fn relabel_ranges<V>(nums: Vec<(usize, V)>, groups: &Vec<SlideGroup>, n: usize) -> (r: Vec<(usize, V)>)
    requires
        is_partition(groups@, n as int),
    ensures
        r@ == relabeled(nums@, groups@, n as int, nums@.len() as int),
{
    let mut keys: Vec<usize> = Vec::new();
    let mut i: usize = 0;
    while i < nums.len()
        invariant
            i <= nums@.len(),
            keys@ == label_keys(nums@).subrange(0, i as int),
        decreases nums@.len() - i,
    {
        keys.push(nums[i].0);
        assert(keys@ =~= label_keys(nums@).subrange(0, i + 1));
        i += 1;
    }
    assert(keys@ =~= label_keys(nums@));
    let fates = remap_label_starts(&keys, groups, n);
    let ghost orig = nums@;
    let mut rest = nums;
    let mut out: Vec<(usize, V)> = Vec::new();
    let mut j: usize = 0;
    while j < fates.len()
        invariant
            fates@.len() == orig.len(),
            keys@ == label_keys(orig),
            forall|m: int| 0 <= m < orig.len() ==> #[trigger] fates@[m] == label_start_result(keys@, groups@, n as int, m),
            j <= orig.len(),
            rest@ == orig.subrange(j as int, orig.len() as int),
            out@ == relabeled(orig, groups@, n as int, j as int),
        decreases orig.len() - j,
    {
        let (key, value) = rest.remove(0);
        assert(rest@ =~= orig.subrange(j + 1, orig.len() as int));
        match fates[j] {
            LabelStart::Moved(k) => out.push((k, value)),
            LabelStart::Dropped => {},
            LabelStart::Untouched => out.push((key, value)),
        }
        j += 1;
    }
    out
}

/// The pages kept in the handout: the terminal page of each group, in order.
pub fn terminal_pages(pages: &Vec<ObjectRef>, groups: &Vec<SlideGroup>) -> (r: Vec<ObjectRef>)
    requires
        is_partition(groups@, pages@.len() as int),
    ensures
        r@.len() == groups@.len(),
        forall|k: int| 0 <= k < groups@.len() ==> #[trigger] r@[k] == pages@[groups@[k].terminal()],
{
    let mut r: Vec<ObjectRef> = Vec::new();
    let mut k: usize = 0;
    while k < groups.len()
        invariant
            is_partition(groups@, pages@.len() as int),
            k <= groups@.len(),
            r@.len() == k,
            forall|j: int| 0 <= j < k ==> #[trigger] r@[j] == pages@[groups@[j].terminal()],
        decreases groups@.len() - k,
    {
        proof {
            lemma_starts_increase(groups@, pages@.len() as int, k as int, groups@.len() - 1);
        }
        let t = groups[k].terminal_page();
        r.push(pages[t]);
        k += 1;
    }
    r
}

/// One-based page numbers of the pages that leave the document: every page
/// of every group but its terminal page, in document order.
pub fn removed_page_numbers(groups: &Vec<SlideGroup>, n: usize) -> (r: Vec<u32>)
    requires
        is_partition(groups@, n as int),
        n <= u32::MAX,
    ensures
        r@.map_values(|x: u32| x as int) == non_terminal_numbers(groups@),
{
    let mut r: Vec<u32> = Vec::new();
    let mut k: usize = 0;
    while k < groups.len()
        invariant
            is_partition(groups@, n as int),
            n <= u32::MAX,
            k <= groups@.len(),
            r@.map_values(|x: u32| x as int) == non_terminal_numbers(groups@.subrange(0, k as int)),
        decreases groups@.len() - k,
    {
        proof {
            lemma_starts_increase(groups@, n as int, k as int, groups@.len() - 1);
        }
        let g = groups[k];
        let ghost before = r@.map_values(|x: u32| x as int);
        let mut p: usize = g.start + 1;
        while p < g.end
            invariant
                g.start < p <= g.end <= n <= u32::MAX,
                r@.map_values(|x: u32| x as int) == before + Seq::new(
                    (p - g.start - 1) as nat,
                    |j: int| g.start + j + 1,
                ),
            decreases g.end - p,
        {
            let ghost prev = r@;
            r.push(p as u32);
            assert(r@.map_values(|x: u32| x as int) =~= prev.map_values(|x: u32| x as int).push(
                p as int,
            ));
            assert(r@.map_values(|x: u32| x as int) =~= before + Seq::new(
                (p + 1 - g.start - 1) as nat,
                |j: int| g.start + j + 1,
            ));
            p += 1;
        }
        proof {
            let prefix = groups@.subrange(0, k + 1);
            assert(prefix.drop_last() =~= groups@.subrange(0, k as int));
            assert(prefix.last() == g);
        }
        k += 1;
    }
    assert(groups@.subrange(0, groups@.len() as int) =~= groups@);
    r
}

/// Where a reference to `target` points after the pages `pages` are reduced
/// by `groups`: to the terminal page of its group if it is a page, else to
/// `target` itself.
pub fn retarget(target: ObjectRef, pages: &Vec<ObjectRef>, groups: &Vec<SlideGroup>) -> (r:
    ObjectRef)
    requires
        is_partition(groups@, pages@.len() as int),
    ensures
        retarget_result(target, pages@, groups@, r),
{
    let mut i: usize = 0;
    while i < pages.len()
        invariant
            is_partition(groups@, pages@.len() as int),
            i <= pages@.len(),
            forall|j: int| 0 <= j < i ==> pages@[j] != target,
        decreases pages@.len() - i,
    {
        if pages[i].0 == target.0 && pages[i].1 == target.1 {
            let t = terminal_for(groups, pages.len(), i);
            assert(t < pages@.len()) by {
                let k = choose|k: int|
                    0 <= k < groups@.len() && #[trigger] groups@[k].start <= i < groups@[k].end
                        && t == groups@[k].terminal();
                lemma_starts_increase(groups@, pages@.len() as int, k, groups@.len() - 1);
            }
            let r = pages[t];
            proof {
                let k = choose|k: int|
                    0 <= k < groups@.len() && #[trigger] groups@[k].start <= i < groups@[k].end
                        && t == groups@[k].terminal();
                assert(pages@[i as int] == target);
                assert(groups@[k].start <= i < groups@[k].end);
            }
            return r;
        }
        i += 1;
    }
    target
}

/// Retargets each reference of a list held by the caller as [`retarget`]
/// does.
pub fn retarget_all(targets: &Vec<ObjectRef>, pages: &Vec<ObjectRef>, groups: &Vec<SlideGroup>) -> (r:
    Vec<ObjectRef>)
    requires
        is_partition(groups@, pages@.len() as int),
    ensures
        r@.len() == targets@.len(),
        forall|j: int|
            0 <= j < targets@.len() ==> #[trigger] retarget_result(targets@[j], pages@, groups@, r@[j]),
{
    let mut r: Vec<ObjectRef> = Vec::new();
    let mut j: usize = 0;
    while j < targets.len()
        invariant
            is_partition(groups@, pages@.len() as int),
            j <= targets@.len(),
            r@.len() == j,
            forall|m: int|
                0 <= m < j ==> #[trigger] retarget_result(targets@[m], pages@, groups@, r@[m]),
        decreases targets@.len() - j,
    {
        let t = retarget(targets[j], pages, groups);
        r.push(t);
        j += 1;
    }
    r
}

/// A retargeted reference points at a page that stays, or at no page at
/// all: whatever page id it names is the id of some terminal page.
pub proof fn lemma_retarget_lands_on_kept_page(
    target: ObjectRef,
    pages: Seq<ObjectRef>,
    g: Seq<SlideGroup>,
    r: ObjectRef,
)
    requires
        is_partition(g, pages.len() as int),
        retarget_result(target, pages, g, r),
    ensures
        (exists|i: int| 0 <= i < pages.len() && #[trigger] pages[i] == r) ==> exists|j: int|
            0 <= j < pages.len() && #[trigger] pages[j] == r && is_terminal(g, j),
{
    if exists|i: int| 0 <= i < pages.len() && pages[i] == target {
        let (i0, k) = choose|i: int, k: int|
            #![trigger pages[i], g[k]]
            0 <= i < pages.len() && pages[i] == target && (forall|j: int|
                0 <= j < i ==> pages[j] != target) && 0 <= k < g.len() && g[k].start <= i
                < g[k].end && r == pages[g[k].terminal()];
        lemma_starts_increase(g, pages.len() as int, k, g.len() - 1);
        let t = g[k].terminal();
        assert(pages[t] == r && is_terminal(g, t));
    }
}

/// After the reduction no retargeted reference points at a page that left
/// the document: where page ids are distinct (a page id listed twice would
/// be both kept and removed), it points at a terminal page or at no page.
pub proof fn lemma_retarget_never_removed(
    target: ObjectRef,
    pages: Seq<ObjectRef>,
    g: Seq<SlideGroup>,
    r: ObjectRef,
)
    requires
        is_partition(g, pages.len() as int),
        forall|a: int, b: int|
            0 <= a < pages.len() && 0 <= b < pages.len() && a != b ==> #[trigger] pages[a]
                != #[trigger] pages[b],
        retarget_result(target, pages, g, r),
    ensures
        forall|i: int| 0 <= i < pages.len() && #[trigger] pages[i] == r ==> is_terminal(g, i),
{
    if exists|i: int| 0 <= i < pages.len() && pages[i] == target {
        let (i0, k) = choose|i: int, k: int|
            #![trigger pages[i], g[k]]
            0 <= i < pages.len() && pages[i] == target && (forall|j: int|
                0 <= j < i ==> pages[j] != target) && 0 <= k < g.len() && g[k].start <= i
                < g[k].end && r == pages[g[k].terminal()];
        lemma_starts_increase(g, pages.len() as int, k, g.len() - 1);
        assert forall|i: int| 0 <= i < pages.len() && #[trigger] pages[i] == r implies is_terminal(
            g,
            i,
        ) by {
            assert(i == g[k].terminal());
        }
    }
}

/// Reducing a document in which no page extends its predecessor removes no
/// page and keeps every page in its place.
pub proof fn lemma_reduction_of_reduced_is_identity(c: Seq<Option<Vec<u8>>>, g: Seq<SlideGroup>)
    requires
        is_grouping_of(c, g),
        forall|i: int| 0 < i < c.len() ==> !#[trigger] continues_at(c, i),
    ensures
        non_terminal_numbers(g).len() == 0,
        g.len() == c.len(),
        forall|k: int| 0 <= k < g.len() ==> #[trigger] g[k].terminal() == k,
{
    lemma_reduced_input_is_fixed(c, g);
    lemma_count_law(g, c.len() as int);
    assert forall|k: int| 0 <= k < g.len() implies #[trigger] g[k].terminal() == k by {
        assert(g[k].start == k && g[k].end == k + 1);
    }
}

/// Where no page is listed for removal, every group is the one page it
/// starts at.
pub proof fn lemma_nothing_removed(g: Seq<SlideGroup>, n: int)
    requires
        is_partition(g, n),
        non_terminal_numbers(g).len() == 0,
    ensures
        g.len() == n,
        forall|k: int| 0 <= k < g.len() ==> #[trigger] g[k].start == k && g[k].end == k + 1,
{
    lemma_count_law(g, n);
    assert forall|k: int| 0 <= k < g.len() implies #[trigger] g[k].start == k && g[k].end == k + 1 by {
        lemma_starts_increase(g, n, 0, k);
        lemma_starts_increase(g, n, k, g.len() - 1);
    }
}

/// Every page number listed for removal is a page of the document.
pub proof fn lemma_non_terminal_in_range(g: Seq<SlideGroup>, n: int)
    requires
        is_partition(g, n),
    ensures
        forall|j: int|
            0 <= j < non_terminal_numbers(g).len() ==> 1 <= #[trigger] non_terminal_numbers(g)[j]
                < n,
{
    if g.len() > 0 {
        lemma_prefix_range(g, n, g.len() as int);
        assert(g.subrange(0, g.len() as int) =~= g);
    }
}

proof fn lemma_prefix_range(g: Seq<SlideGroup>, n: int, m: int)
    requires
        is_partition(g, n),
        0 < m <= g.len(),
    ensures
        forall|j: int|
            0 <= j < non_terminal_numbers(g.subrange(0, m)).len() ==> 1 <= #[trigger] non_terminal_numbers(
                g.subrange(0, m),
            )[j] < g[m - 1].end,
    decreases m,
{
    let p = g.subrange(0, m);
    let last = g[m - 1];
    assert(p.drop_last() =~= g.subrange(0, m - 1));
    assert(p.last() == last);
    assert(last.start < last.end);
    let a = non_terminal_numbers(g.subrange(0, m - 1));
    let b = Seq::new((last.end - last.start - 1) as nat, |j: int| last.start + j + 1);
    assert(non_terminal_numbers(p) == a + b);
    if m > 1 {
        lemma_prefix_range(g, n, m - 1);
        assert(g[m - 2].end == g[m - 1].start);
    } else {
        assert(a =~= seq![]);
    }
    assert forall|j: int| 0 <= j < (a + b).len() implies 1 <= #[trigger] (a + b)[j] < last.end by {
        if j < a.len() {
            assert((a + b)[j] == a[j]);
        } else {
            assert((a + b)[j] == b[j - a.len()]);
        }
    }
}

/// The handout has one page per slide group: the pages that leave are all
/// but one per group.
pub proof fn lemma_count_law(g: Seq<SlideGroup>, n: int)
    requires
        is_partition(g, n),
    ensures
        n - non_terminal_numbers(g).len() == g.len(),
    decreases g.len(),
{
    if g.len() > 0 {
        lemma_prefix_count(g, g.len() as int);
        assert(g.subrange(0, g.len() as int) =~= g);
    }
}

proof fn lemma_prefix_count(g: Seq<SlideGroup>, m: int)
    requires
        is_partition(g, g.last().end as int),
        g.len() > 0,
        0 < m <= g.len(),
    ensures
        non_terminal_numbers(g.subrange(0, m)).len() == g[m - 1].end - m,
    decreases m,
{
    let p = g.subrange(0, m);
    assert(p.drop_last() =~= g.subrange(0, m - 1));
    assert(g[m - 1].start < g[m - 1].end);
    if m > 1 {
        lemma_prefix_count(g, m - 1);
        assert(g[m - 2].end == g[m - 1].start);
    } else {
        assert(non_terminal_numbers(g.subrange(0, 0)) =~= seq![]);
    }
}

} // verus!
