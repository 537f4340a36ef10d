//! Partitioning the page sequence into slide groups.
//!
//! A page continues the open group when the content of its predecessor is a
//! prefix of its own content: each reveal step only appends drawing
//! operations. Resources enter the comparison through the names by which the
//! content streams use them; the identity of the resource dictionary itself
//! is not compared, since two reveal steps of one slide may each carry a
//! resource dictionary object of their own. A page whose content could not be read never continues a group
//! and never lets the next page continue one.
use vstd::prelude::*;

verus! {

/// `a` is an append-order prefix of `b`.
pub open spec fn is_prefix_of(a: Seq<u8>, b: Seq<u8>) -> bool {
    a.len() <= b.len() && b.subrange(0, a.len() as int) == a
}

/// Page content `cur` extends page content `prev`; unreadable content
/// (`None`) extends nothing and is extended by nothing.
pub open spec fn extends(prev: Option<Vec<u8>>, cur: Option<Vec<u8>>) -> bool {
    match (prev, cur) {
        (Some(a), Some(b)) => is_prefix_of(a@, b@),
        _ => false,
    }
}

/// Page `i` of the sequence `c` continues the group of page `i - 1`.
pub open spec fn continues_at(c: Seq<Option<Vec<u8>>>, i: int) -> bool {
    0 < i < c.len() && extends(c[i - 1], c[i])
}

/// A run of pages `start .. end` (end exclusive) that shows one logical slide.
#[derive(Clone, Copy, Debug, PartialEq, Eq)]
pub struct SlideGroup {
    pub start: usize,
    pub end: usize,
}

impl SlideGroup {
    /// Index of the terminal page, the one kept in the handout.
    pub open spec fn terminal(self) -> int {
        self.end - 1
    }

    /// Index of the terminal page, the one kept in the handout.
    pub fn terminal_page(&self) -> (r: usize)
        requires
            self.start < self.end,
        ensures
            r == self.terminal(),
    {
        self.end - 1
    }
}

/// `g` cuts the pages `0 .. n` into non-empty, ordered, contiguous runs.
pub open spec fn is_partition(g: Seq<SlideGroup>, n: int) -> bool {
    &&& (n == 0 <==> g.len() == 0)
    &&& g.len() > 0 ==> g[0].start == 0 && g.last().end == n
    &&& forall|k: int| 0 <= k < g.len() ==> #[trigger] g[k].start < g[k].end
    &&& forall|k: int| 0 <= k < g.len() - 1 ==> #[trigger] g[k].end == g[k + 1].start
}

/// `g` is the grouping of the pages with contents `c`: a partition whose
/// runs are chains of extensions, cut exactly where a page fails to extend
/// its predecessor.
pub open spec fn is_grouping_of(c: Seq<Option<Vec<u8>>>, g: Seq<SlideGroup>) -> bool {
    &&& is_partition(g, c.len() as int)
    &&& forall|k: int, i: int|
        #![trigger g[k], continues_at(c, i)]
        0 <= k < g.len() && g[k].start < i < g[k].end ==> continues_at(c, i)
    &&& forall|k: int| 0 < k < g.len() ==> !continues_at(c, #[trigger] g[k].start as int)
}

/// Whether `a` is a prefix of `b`.
pub fn is_prefix(a: &Vec<u8>, b: &Vec<u8>) -> (r: bool)
    ensures
        r == is_prefix_of(a@, b@),
{
    if a.len() > b.len() {
        return false;
    }
    let mut i: usize = 0;
    while i < a.len()
        invariant
            i <= a.len() <= b.len(),
            forall|j: int| 0 <= j < i ==> a@[j] == b@[j],
        decreases a.len() - i,
    {
        if a[i] != b[i] {
            assert(b@.subrange(0, a@.len() as int)[i as int] != a@[i as int]);
            return false;
        }
        i += 1;
    }
    assert(b@.subrange(0, a@.len() as int) =~= a@);
    true
}

/// Whether a page with content `cur` continues the slide of a predecessor
/// with content `prev`.
pub fn continues(prev: &Option<Vec<u8>>, cur: &Option<Vec<u8>>) -> (r: bool)
    ensures
        r == extends(*prev, *cur),
{
    match (prev, cur) {
        (Some(a), Some(b)) => is_prefix(a, b),
        _ => false,
    }
}

/// Partitions the pages, given by their canonical contents in document
/// order (`None` for a page whose content could not be read), into slide
/// groups.
pub fn group_pages(contents: &Vec<Option<Vec<u8>>>) -> (r: Vec<SlideGroup>)
    ensures
        is_grouping_of(contents@, r@),
{
    let n = contents.len();
    let mut groups: Vec<SlideGroup> = Vec::new();
    if n == 0 {
        return groups;
    }
    let mut start: usize = 0;
    let mut i: usize = 1;
    while i < n
        invariant
            n == contents@.len(),
            1 <= i <= n,
            start < i,
            groups@.len() == 0 ==> start == 0,
            groups@.len() > 0 ==> groups@[0].start == 0 && groups@.last().end == start,
            forall|k: int| 0 <= k < groups@.len() ==> #[trigger] groups@[k].start < groups@[k].end,
            forall|k: int|
                0 <= k < groups@.len() - 1 ==> #[trigger] groups@[k].end == groups@[k + 1].start,
            forall|k: int, j: int|
                #![trigger groups@[k], continues_at(contents@, j)]
                0 <= k < groups@.len() && groups@[k].start < j < groups@[k].end ==> continues_at(
                    contents@,
                    j,
                ),
            forall|k: int|
                0 < k < groups@.len() ==> !continues_at(contents@, #[trigger] groups@[k].start as int),
            forall|j: int| start < j < i ==> continues_at(contents@, j),
            start > 0 ==> !continues_at(contents@, start as int),
        decreases n - i,
    {
        if !continues(&contents[i - 1], &contents[i]) {
            let ghost old_groups = groups@;
            groups.push(SlideGroup { start, end: i });
            assert(forall|k: int| 0 <= k < old_groups.len() ==> groups@[k] == old_groups[k]);
            start = i;
        }
        i += 1;
    }
    let ghost old_groups = groups@;
    groups.push(SlideGroup { start, end: n });
    assert(forall|k: int| 0 <= k < old_groups.len() ==> groups@[k] == old_groups[k]);
    groups
}

/// The groups of a partition of `0 .. n` start at strictly increasing pages:
/// a later group starts at least one page per group later.
pub proof fn lemma_starts_increase(g: Seq<SlideGroup>, n: int, k1: int, k2: int)
    requires
        is_partition(g, n),
        0 <= k1 <= k2 < g.len(),
    ensures
        g[k2].start >= g[k1].start + (k2 - k1),
        g[k2].end >= g[k1].end + (k2 - k1),
    decreases k2 - k1,
{
    if k1 < k2 {
        lemma_starts_increase(g, n, k1, k2 - 1);
        assert(g[k2 - 1].end == g[k2].start);
        assert(g[k2 - 1].start < g[k2 - 1].end);
        assert(g[k2].start < g[k2].end);
    }
}

/// Every page of `0 .. n` lies in exactly one group of a partition.
pub proof fn lemma_page_in_one_group(g: Seq<SlideGroup>, n: int, i: int)
    requires
        is_partition(g, n),
        0 <= i < n,
    ensures
        exists|k: int| 0 <= k < g.len() && #[trigger] g[k].start <= i < g[k].end,
        forall|k1: int, k2: int|
            #![trigger g[k1], g[k2]]
            0 <= k1 < g.len() && 0 <= k2 < g.len() && g[k1].start <= i < g[k1].end && g[k2].start
                <= i < g[k2].end ==> k1 == k2,
{
    lemma_page_in_some_group(g, n, i, g.len() - 1);
    assert forall|k1: int, k2: int|
        #![trigger g[k1], g[k2]]
        0 <= k1 < g.len() && 0 <= k2 < g.len() && g[k1].start <= i < g[k1].end && g[k2].start
            <= i < g[k2].end implies k1 == k2 by {
        if k1 < k2 {
            lemma_starts_increase(g, n, k1 + 1, k2);
            assert(g[k1].end == g[k1 + 1].start);
        } else if k2 < k1 {
            lemma_starts_increase(g, n, k2 + 1, k1);
            assert(g[k2].end == g[k2 + 1].start);
        }
    }
}

proof fn lemma_page_in_some_group(g: Seq<SlideGroup>, n: int, i: int, last: int)
    requires
        is_partition(g, n),
        0 <= last < g.len(),
        0 <= i < g[last].end,
    ensures
        exists|k: int| 0 <= k <= last && #[trigger] g[k].start <= i < g[k].end,
    decreases last,
{
    if i < g[last].start {
        assert(last > 0);
        assert(g[last - 1].end == g[last].start);
        lemma_page_in_some_group(g, n, i, last - 1);
    } else {
        assert(g[last].start <= i < g[last].end);
    }
}

/// Inside a group every page extends its predecessor, and the first page
/// that fails to extend its predecessor always opens a new group.
pub proof fn lemma_divergence_opens_group(c: Seq<Option<Vec<u8>>>, g: Seq<SlideGroup>, i: int)
    requires
        is_grouping_of(c, g),
        0 < i < c.len(),
    ensures
        !continues_at(c, i) <==> exists|k: int| 0 < k < g.len() && #[trigger] g[k].start == i,
{
    lemma_page_in_one_group(g, c.len() as int, i);
    let k = choose|k: int| 0 <= k < g.len() && #[trigger] g[k].start <= i < g[k].end;
    if g[k].start < i {
        assert(continues_at(c, i));
        assert forall|k2: int| 0 < k2 < g.len() implies #[trigger] g[k2].start != i by {
            if g[k2].start == i {
                assert(g[k2].start < g[k2].end);
            }
        }
    } else {
        assert(k != 0);
        assert(!continues_at(c, g[k].start as int));
    }
}

/// A document already reduced, where no page extends its predecessor, is
/// grouped one page per group, in order: reducing it again changes nothing.
pub proof fn lemma_reduced_input_is_fixed(c: Seq<Option<Vec<u8>>>, g: Seq<SlideGroup>)
    requires
        is_grouping_of(c, g),
        forall|i: int| 0 < i < c.len() ==> !#[trigger] continues_at(c, i),
    ensures
        g.len() == c.len(),
        forall|k: int| 0 <= k < g.len() ==> #[trigger] g[k].start == k && g[k].end == k + 1,
{
    assert forall|k: int| 0 <= k < g.len() implies #[trigger] g[k].end == g[k].start + 1 by {
        if g[k].end > g[k].start + 1 {
            let i = g[k].start + 1;
            assert(continues_at(c, i));
        }
    }
    assert forall|k: int| 0 <= k < g.len() implies #[trigger] g[k].start == k && g[k].end == k
        + 1 by {
        lemma_start_is_index(g, c.len() as int, k);
    }
    if g.len() > 0 {
        lemma_start_is_index(g, c.len() as int, g.len() - 1);
    }
}

/// The grouping is determined by the contents alone: two groupings of the
/// same page contents are the same.
pub proof fn lemma_grouping_unique(c: Seq<Option<Vec<u8>>>, g1: Seq<SlideGroup>, g2: Seq<SlideGroup>)
    requires
        is_grouping_of(c, g1),
        is_grouping_of(c, g2),
    ensures
        g1 == g2,
{
    let n = c.len() as int;
    let m = if g1.len() < g2.len() { g1.len() as int } else { g2.len() as int };
    assert forall|k: int| 0 <= k < m implies #[trigger] g1[k] == g2[k] by {
        lemma_same_group(c, g1, g2, k);
    }
    if g1.len() < g2.len() {
        let l = g1.len() as int;
        if l > 0 {
            assert(g1[l - 1] == g2[l - 1]);
            assert(g2[l - 1].end == g2[l].start);
            assert(g2[l].start < g2[l].end);
            lemma_starts_increase(g2, n, l, g2.len() - 1);
        }
    } else if g2.len() < g1.len() {
        let l = g2.len() as int;
        if l > 0 {
            assert(g1[l - 1] == g2[l - 1]);
            assert(g1[l - 1].end == g1[l].start);
            assert(g1[l].start < g1[l].end);
            lemma_starts_increase(g1, n, l, g1.len() - 1);
        }
    }
    assert(g1 =~= g2);
}

proof fn lemma_same_group(c: Seq<Option<Vec<u8>>>, g1: Seq<SlideGroup>, g2: Seq<SlideGroup>, k: int)
    requires
        is_grouping_of(c, g1),
        is_grouping_of(c, g2),
        0 <= k < g1.len(),
        k < g2.len(),
    ensures
        g1[k] == g2[k],
    decreases k,
{
    let n = c.len() as int;
    if k > 0 {
        lemma_same_group(c, g1, g2, k - 1);
        assert(g1[k - 1].end == g1[k].start);
        assert(g2[k - 1].end == g2[k].start);
    }
    let s = g1[k].start;
    assert(s == g2[k].start);
    let e1 = g1[k].end;
    let e2 = g2[k].end;
    lemma_starts_increase(g1, n, k, g1.len() - 1);
    lemma_starts_increase(g2, n, k, g2.len() - 1);
    if e1 < e2 {
        assert(continues_at(c, e1 as int));
        assert(k + 1 < g1.len());
        assert(g1[k].end == g1[k + 1].start);
        assert(!continues_at(c, g1[k + 1].start as int));
    } else if e2 < e1 {
        assert(continues_at(c, e2 as int));
        assert(k + 1 < g2.len());
        assert(g2[k].end == g2[k + 1].start);
        assert(!continues_at(c, g2[k + 1].start as int));
    }
}

proof fn lemma_start_is_index(g: Seq<SlideGroup>, n: int, k: int)
    requires
        is_partition(g, n),
        forall|j: int| 0 <= j < g.len() ==> #[trigger] g[j].end == g[j].start + 1,
        0 <= k < g.len(),
    ensures
        g[k].start == k,
    decreases k,
{
    if k > 0 {
        lemma_start_is_index(g, n, k - 1);
        assert(g[k - 1].end == g[k].start);
    }
}

} // verus!
