//! Collapsing the reveal steps of a loaded PDF document.
//!
//! The page tree, the content streams and the object store are lopdf's; the
//! decisions on them are made by the verified grouping and reduction steps.
use vstd::prelude::*;
use lopdf::{Document, Object};
use crate::grouping::{SlideGroup, is_prefix, is_prefix_of, continues_at, group_pages, is_grouping_of, is_partition, lemma_starts_increase};
use crate::reduce::{
    ObjectRef,
    non_terminal_numbers,
    relabel_ranges,
    removed_page_numbers,
    retarget,
    terminal_for,
    terminal_pages,
    lemma_count_law,
    lemma_non_terminal_in_range,
    lemma_nothing_removed,
    lemma_reduction_of_reduced_is_identity,
};

verus! {

/// Upper bound on the decoded content of one page, against decompression bombs.
pub const MAX_PAGE_CONTENT: usize = 268435456;

/// Upper bound on the depth of the page tree walked when fixing page counts.
pub const MAX_TREE_DEPTH: usize = 1024;

#[verifier::external_type_specification]
#[verifier::external_body]
pub struct ExDocument(lopdf::Document);

#[verifier::external_type_specification]
#[verifier::external_body]
pub struct ExObject(lopdf::Object);

/// The object ids of the pages of `d`, in page-tree order.
pub uninterp spec fn document_pages(d: Document) -> Seq<ObjectRef>;

/// The ids that the `/Contents` entry of `page` in `d` lists, in order.
pub uninterp spec fn content_streams(d: Document, page: ObjectRef) -> Seq<ObjectRef>;

/// The object `id` of `d` is a stream whose dictionary has `/DecodeParms`.
pub uninterp spec fn has_decode_parms(d: Document, id: ObjectRef) -> bool;

/// The decoded bytes of the stream object `id` of `d`, or `None` where `id`
/// names no stream, a filter fails, or the output would exceed `limit`.
pub uninterp spec fn decoded_stream(d: Document, id: ObjectRef, limit: usize) -> Option<Seq<u8>>;

/// The root `/Count` entry of the page tree of `d`, where it is an integer.
pub uninterp spec fn root_page_count(d: Document) -> Option<i64>;

/// The comparable content of one content stream: its decoded bytes, or
/// `None` where it cannot be decoded. A stream with decode parameters is not
/// decoded: content streams do not use predictors.
pub open spec fn stream_key(d: Document, id: ObjectRef) -> Option<Seq<u8>> {
    if has_decode_parms(d, id) {
        None
    } else {
        decoded_stream(d, id, MAX_PAGE_CONTENT)
    }
}

/// The concatenated content of the streams `ids`, or `None` where any of
/// them cannot be read.
pub open spec fn streams_key(d: Document, ids: Seq<ObjectRef>) -> Option<Seq<u8>>
    decreases ids.len(),
{
    if ids.len() == 0 {
        Some(seq![])
    } else {
        match (streams_key(d, ids.drop_last()), stream_key(d, ids.last())) {
            (Some(a), Some(b)) => Some(a + b),
            _ => None,
        }
    }
}

/// The comparable content of `page` in `d`: its content streams decoded and
/// concatenated in order, or `None` where any of them cannot be read.
pub open spec fn page_key(d: Document, page: ObjectRef) -> Option<Seq<u8>> {
    streams_key(d, content_streams(d, page))
}

/// Page content `b` extends page content `a`; unreadable content extends
/// nothing and is extended by nothing.
pub open spec fn keys_extend(a: Option<Seq<u8>>, b: Option<Seq<u8>>) -> bool {
    match (a, b) {
        (Some(x), Some(y)) => is_prefix_of(x, y),
        _ => false,
    }
}

/// No page of `d` extends the page before it: `d` is already a handout.
#[verifier::opaque]
pub open spec fn no_page_extends(d: Document) -> bool {
    forall|i: int|
        0 < i < document_pages(d).len() ==> !keys_extend(
            page_key(d, document_pages(d)[i - 1]),
            #[trigger] page_key(d, document_pages(d)[i]),
        )
}

/// The view of a page content that may be missing.
pub open spec fn content_view(c: Option<Vec<u8>>) -> Option<Seq<u8>> {
    match c {
        Some(v) => Some(v@),
        None => None,
    }
}

/// `contents` holds the comparable content of each page of `pages` in `d`.
pub open spec fn contents_of(d: Document, pages: Seq<ObjectRef>, contents: Seq<Option<Vec<u8>>>) -> bool {
    &&& contents.len() == pages.len()
    &&& forall|i: int| 0 <= i < pages.len() ==> #[trigger] content_view(contents[i]) == page_key(d, pages[i])
}

/// Why a document cannot be reduced.
#[derive(Clone, Copy, Debug, PartialEq, Eq)]
pub enum HandoutError {
    /// The page list and the content list differ in length.
    ContentMismatch,
    /// More pages than page numbers can count.
    TooManyPages,
    /// A page to remove is not a child of the page tree node it names as
    /// its parent, that node holds no list of children, or the document
    /// after the change is not the one planned: other pages, other contents,
    /// a root page count not lowered by the removed pages, or a reachable
    /// reference to a removed page.
    PageTreeMutation,
}

/// The outcome of reducing a document.
pub struct Handout {
    /// Object ids of the input pages, in document order.
    pub pages: Vec<ObjectRef>,
    /// Canonical content of each input page; `None` where it was unreadable.
    pub contents: Vec<Option<Vec<u8>>>,
    /// The slide groups of the input pages.
    pub groups: Vec<SlideGroup>,
    /// Object ids of the pages that stay, one per group, in order.
    pub kept: Vec<ObjectRef>,
    /// One-based numbers of the input pages that leave.
    pub removed: Vec<u32>,
    /// Indices of the pages whose content could not be read (a warning each).
    pub unreadable: Vec<usize>,
    /// Referenced ids that named no object before the reduction (a warning
    /// each); such references are left as they are.
    pub dangling: Vec<ObjectRef>,
}

/// `h` is the reduction of the pages `pages` with contents `contents`.
pub open spec fn is_handout_of(pages: Seq<ObjectRef>, contents: Seq<Option<Vec<u8>>>, h: Handout) -> bool {
    &&& h.pages@ == pages
    &&& h.contents@ == contents
    &&& pages.len() == contents.len()
    &&& is_grouping_of(contents, h.groups@)
    &&& h.kept@.len() == h.groups@.len()
    &&& forall|k: int| 0 <= k < h.groups@.len() ==> #[trigger] h.kept@[k] == pages[h.groups@[k].terminal()]
    &&& h.removed@.map_values(|x: u32| x as int) == non_terminal_numbers(h.groups@)
    &&& h.removed@.len() + h.kept@.len() == pages.len()
    &&& forall|i: int| 0 <= i < contents.len() ==> (h.unreadable@.contains(i as usize) <==> contents[i] is None)
}

/// The object ids of the pages that `h` removes, in order.
pub open spec fn removed_page_ids(h: Handout) -> Seq<ObjectRef> {
    Seq::new(h.removed@.len(), |j: int| h.pages@[h.removed@[j] - 1])
}

/// `after` is `before` reduced as `h` says: `h` was planned from the pages
/// and contents of `before` and lists its dangling references, and `after` holds exactly the kept pages, in
/// order, with a root page count that matches and the contents they had.
pub open spec fn is_reduction_of(before: Document, after: Document, h: Handout) -> bool {
    &&& h.pages@ == document_pages(before)
    &&& h.dangling@ == missing_objects(before, referenced_objects(before))
    &&& contents_of(before, h.pages@, h.contents@)
    &&& is_handout_of(h.pages@, h.contents@, h)
    &&& shows_reduction(after, h, root_page_count(before))
}

/// `after` holds exactly the pages that `h` keeps, in order, with the
/// contents they had; a root page count `count0` that could lose the
/// removed pages has lost exactly them; and no reachable reference names a
/// removed page.
pub open spec fn shows_reduction(after: Document, h: Handout, count0: Option<i64>) -> bool {
    &&& document_pages(after) == h.kept@
    &&& (count0 matches Some(c) ==> (c >= h.removed@.len() ==> root_page_count(after) == Some(
        (c - h.removed@.len()) as i64,
    )))
    &&& forall|k: int|
        0 <= k < h.kept@.len() ==> #[trigger] page_key(after, h.kept@[k]) == content_view(
            h.contents@[h.groups@[k].terminal()],
        )
    &&& forall|i: int, j: int|
        0 <= i < referenced_objects(after).len() && 0 <= j < h.removed@.len()
            ==> #[trigger] referenced_objects(after)[i] != #[trigger] removed_page_ids(h)[j]
}

/// Whether some id of `ids` is one of `bad`.
pub fn shares_id(ids: &Vec<ObjectRef>, bad: &Vec<ObjectRef>) -> (r: bool)
    ensures
        r == exists|i: int, j: int|
            0 <= i < ids@.len() && 0 <= j < bad@.len() && #[trigger] ids@[i] == #[trigger] bad@[j],
{
    let mut i: usize = 0;
    while i < ids.len()
        invariant
            i <= ids@.len(),
            forall|a: int, b: int|
                0 <= a < i && 0 <= b < bad@.len() ==> #[trigger] ids@[a] != #[trigger] bad@[b],
        decreases ids@.len() - i,
    {
        let mut j: usize = 0;
        while j < bad.len()
            invariant
                i < ids@.len(),
                j <= bad@.len(),
                forall|a: int, b: int|
                    0 <= a < i && 0 <= b < bad@.len() ==> #[trigger] ids@[a] != #[trigger] bad@[b],
                forall|b: int| 0 <= b < j ==> ids@[i as int] != #[trigger] bad@[b],
            decreases bad@.len() - j,
        {
            if ids[i].0 == bad[j].0 && ids[i].1 == bad[j].1 {
                assert(ids@[i as int] == bad@[j as int]);
                return true;
            }
            j += 1;
        }
        i += 1;
    }
    false
}

/// The object ids of the pages that `h` removes, in order.
fn removed_ids(h: &Handout) -> (r: Vec<ObjectRef>)
    requires
        is_handout_of(h.pages@, h.contents@, *h),
    ensures
        r@ == removed_page_ids(*h),
{
    let n = h.pages.len();
    let mut r: Vec<ObjectRef> = Vec::new();
    let mut j: usize = 0;
    while j < h.removed.len()
        invariant
            is_handout_of(h.pages@, h.contents@, *h),
            n == h.pages@.len(),
            j <= h.removed@.len(),
            r@ =~= removed_page_ids(*h).subrange(0, j as int),
        decreases h.removed@.len() - j,
    {
        proof {
            lemma_non_terminal_in_range(h.groups@, n as int);
            assert(h.removed@.map_values(|x: u32| x as int)[j as int] == h.removed@[j as int] as int);
        }
        r.push(h.pages[(h.removed[j] - 1) as usize]);
        j += 1;
    }
    r
}

/// Whether `doc` shows the reduction that `h` plans, from a root page count
/// `count0`.
fn confirm_reduction(doc: &mut Document, h: &Handout, count0: Option<i64>) -> (r: bool)
    requires
        is_handout_of(h.pages@, h.contents@, *h),
    ensures
        *final(doc) == *old(doc),
        r ==> shows_reduction(*old(doc), *h, count0),
{
    if !check_reduction(doc, h, count0) {
        return false;
    }
    let gone = removed_ids(h);
    let refs = referenced_ids(doc);
    !shares_id(&refs, &gone)
}

/// Whether `doc` holds exactly the kept pages, in order, with the contents
/// they had, and a root page count lowered by the removed pages.
fn check_reduction(doc: &Document, h: &Handout, count0: Option<i64>) -> (r: bool)
    requires
        is_handout_of(h.pages@, h.contents@, *h),
    ensures
        r ==> document_pages(*doc) == h.kept@,
        r ==> (count0 matches Some(c) ==> (c >= h.removed@.len() ==> root_page_count(*doc) == Some(
            (c - h.removed@.len()) as i64,
        ))),
        r ==> forall|k: int|
            0 <= k < h.kept@.len() ==> #[trigger] page_key(*doc, h.kept@[k]) == content_view(
                h.contents@[h.groups@[k].terminal()],
            ),
{
    let n = h.pages.len();
    let after = page_ids(doc);
    if !same_pages(&after, &h.kept) {
        return false;
    }
    match count0 {
        Some(c) => {
            let gone = h.removed.len();
            assert(gone == h.removed@.len());
            if gone as u64 <= i64::MAX as u64 && c >= gone as i64 {
                match root_count(doc) {
                    Some(now) => {
                        if now != c - gone as i64 {
                            return false;
                        }
                        assert(root_page_count(*doc) == Some((c - h.removed@.len()) as i64));
                    },
                    None => return false,
                }
            } else {
                assert(!(c >= h.removed@.len()));
            }
        },
        None => {},
    }
    assert(count0 matches Some(c) ==> (c >= h.removed@.len() ==> root_page_count(*doc) == Some(
        (c - h.removed@.len()) as i64,
    )));
    let mut k: usize = 0;
    while k < h.kept.len()
        invariant
            is_handout_of(h.pages@, h.contents@, *h),
            n == h.pages@.len(),
            document_pages(*doc) == h.kept@,
            count0 matches Some(c) ==> (c >= h.removed@.len() ==> root_page_count(*doc) == Some(
                (c - h.removed@.len()) as i64,
            )),
            k <= h.kept@.len(),
            forall|m: int|
                0 <= m < k ==> #[trigger] page_key(*doc, h.kept@[m]) == content_view(
                    h.contents@[h.groups@[m].terminal()],
                ),
        decreases h.kept@.len() - k,
    {
        proof {
            lemma_starts_increase(h.groups@, n as int, k as int, h.groups@.len() - 1);
        }
        let now = read_page(doc, h.kept[k]);
        let t = h.groups[k].terminal_page();
        if !same_content(&now, &h.contents[t]) {
            return false;
        }
        k += 1;
    }
    true
}

/// Indices of the pages whose content is `None`, in order.
pub fn unreadable_pages(contents: &Vec<Option<Vec<u8>>>) -> (r: Vec<usize>)
    ensures
        forall|i: int| 0 <= i < contents@.len() ==> (r@.contains(i as usize) <==> contents@[i] is None),
        forall|j: int| 0 <= j < r@.len() ==> #[trigger] r@[j] < contents@.len(),
        forall|a: int, b: int| 0 <= a < b < r@.len() ==> #[trigger] r@[a] < #[trigger] r@[b],
{
    let mut r: Vec<usize> = Vec::new();
    let mut i: usize = 0;
    while i < contents.len()
        invariant
            i <= contents@.len(),
            forall|m: int| 0 <= m < i ==> (r@.contains(m as usize) <==> contents@[m] is None),
            forall|j: int| 0 <= j < r@.len() ==> #[trigger] r@[j] < i,
            forall|a: int, b: int| 0 <= a < b < r@.len() ==> #[trigger] r@[a] < #[trigger] r@[b],
        decreases contents@.len() - i,
    {
        let ghost prev = r@;
        if contents[i].is_none() {
            r.push(i);
            assert(r@[prev.len() as int] == i);
        }
        assert forall|m: int| 0 <= m < i + 1 implies (r@.contains(m as usize) <==> contents@[m] is None) by {
            if r@.contains(m as usize) && m < i {
                let j = choose|j: int| 0 <= j < r@.len() && r@[j] == m as usize;
                if j >= prev.len() {
                    assert(r@[j] == i);
                } else {
                    assert(prev[j] == m as usize);
                }
            }
            if m < i && prev.contains(m as usize) {
                let j = choose|j: int| 0 <= j < prev.len() && prev[j] == m as usize;
                assert(r@[j] == m as usize);
            }
        }
        i += 1;
    }
    r
}

/// Decides the reduction of pages `pages` with contents `contents`: groups
/// them, keeps each group's terminal page and lists the others for removal.
pub fn plan_handout(pages: Vec<ObjectRef>, contents: Vec<Option<Vec<u8>>>) -> (r: Result<Handout, HandoutError>)
    ensures
        pages@.len() != contents@.len() <==> r == Err::<Handout, HandoutError>(HandoutError::ContentMismatch),
        pages@.len() == contents@.len() && pages@.len() > u32::MAX <==> r == Err::<Handout, HandoutError>(HandoutError::TooManyPages),
        pages@.len() == contents@.len() && pages@.len() <= u32::MAX ==> r is Ok,
        r matches Ok(h) ==> is_handout_of(pages@, contents@, h),
{
    if pages.len() != contents.len() {
        return Err(HandoutError::ContentMismatch);
    }
    if pages.len() > u32::MAX as usize {
        return Err(HandoutError::TooManyPages);
    }
    let groups = group_pages(&contents);
    let kept = terminal_pages(&pages, &groups);
    let removed = removed_page_numbers(&groups, pages.len());
    let unreadable = unreadable_pages(&contents);
    proof {
        lemma_count_law(groups@, pages@.len() as int);
        assert(removed@.map_values(|x: u32| x as int).len() == removed@.len());
    }
    Ok(Handout { pages, contents, groups, kept, removed, unreadable, dangling: Vec::new() })
}

/// Relies on lopdf's `Document::page_iter`: the object ids of the pages in
/// the order of the page-tree walk; a function of the document.
#[verifier::external_body]
fn page_ids(doc: &Document) -> (r: Vec<ObjectRef>)
    ensures
        r@ == document_pages(*doc),
{
    let mut r = Vec::new();
    let mut it = doc.page_iter();
    while let Some(id) = it.next() {
        r.push(id);
    }
    r
}

/// Relies on lopdf's `Document::get_page_contents`: the ids that the
/// page's `/Contents` entry lists.
#[verifier::external_body]
fn content_stream_ids(doc: &Document, page: ObjectRef) -> (r: Vec<ObjectRef>)
    ensures
        r@ == content_streams(*doc, page),
{
    doc.get_page_contents(page)
}

/// Relies on lopdf's `Document::get_object`, `Object::as_stream` and
/// `Dictionary::has`: whether `id` is a stream with `/DecodeParms`.
#[verifier::external_body]
fn stream_has_decode_parms(doc: &Document, id: ObjectRef) -> (r: bool)
    ensures
        r == has_decode_parms(*doc, id),
{
    doc.get_object(id).and_then(Object::as_stream).map(|s| s.dict.has(b"DecodeParms")).unwrap_or(false)
}

/// Relies on lopdf's `Document::get_object`, `Object::as_stream` and
/// `Stream::decompressed_content_with_limit`: the decoded bytes of the
/// stream `id`, `None` where it is no stream or does not decode within
/// `limit` bytes. Without `/DecodeParms` no predictor is applied.
#[verifier::external_body]
fn stream_content(doc: &Document, id: ObjectRef, limit: usize) -> (r: Option<Vec<u8>>)
    requires
        !has_decode_parms(*doc, id),
    ensures
        content_view(r) == decoded_stream(*doc, id, limit),
{
    doc.get_object(id).and_then(Object::as_stream).and_then(|s| s.decompressed_content_with_limit(limit)).ok()
}

/// Relies on lopdf's `Dictionary::get` and `Object::as_reference`: the
/// `/Parent` entry of the dictionary object `id`, where it is a reference.
#[verifier::external_body]
fn parent_of(doc: &Document, id: ObjectRef) -> (r: Option<ObjectRef>) {
    doc.get_dictionary(id).and_then(|d| d.get(b"Parent")).and_then(Object::as_reference).ok()
}

/// Relies on lopdf's `Dictionary::get` and `Object::as_array`: a copy of the
/// `/Kids` array of the page tree node `node`.
#[verifier::external_body]
fn kids_of(doc: &Document, node: ObjectRef) -> (r: Option<Vec<Object>>) {
    doc.get_dictionary(node).and_then(|d| d.get(b"Kids")).and_then(Object::as_array).ok().cloned()
}

/// Relies on lopdf's `Dictionary::set`: stores `kids` as the `/Kids` array
/// of `node`; false where `node` is no dictionary.
#[verifier::external_body]
fn set_kids(doc: &mut Document, node: ObjectRef, kids: Vec<Object>) -> (r: bool) {
    match doc.get_dictionary_mut(node) {
        Ok(d) => {
            d.set("Kids", Object::Array(kids));
            true
        },
        Err(_) => false,
    }
}

/// Relies on lopdf's `Document::catalog`, `Document::get_dict_in_dict` and
/// `Object::as_i64`: the `/Count` entry of the root of the page tree.
#[verifier::external_body]
fn root_count(doc: &Document) -> (r: Option<i64>)
    ensures
        r == root_page_count(*doc),
{
    doc.catalog()
        .and_then(|c| doc.get_dict_in_dict(c, b"Pages"))
        .and_then(|d| d.get(b"Count"))
        .and_then(Object::as_i64)
        .ok()
}

/// Relies on lopdf's `Dictionary::get` and `Object::as_i64`: the `/Count`
/// entry of `node`, where it is an integer.
#[verifier::external_body]
fn count_of(doc: &Document, node: ObjectRef) -> (r: Option<i64>) {
    doc.get_dictionary(node).and_then(|d| d.get(b"Count")).and_then(Object::as_i64).ok()
}

/// Relies on lopdf's `Dictionary::set`: stores `count` as the `/Count` entry
/// of `node`.
#[verifier::external_body]
fn set_count(doc: &mut Document, node: ObjectRef, count: i64) {
    if let Ok(d) = doc.get_dictionary_mut(node) {
        d.set("Count", Object::Integer(count));
    }
}

/// Relies on lopdf's `Object::as_reference`: the object id that `o` refers
/// to, where `o` is a reference.
#[verifier::external_body]
fn reference_of(o: &Object) -> (r: Option<ObjectRef>) {
    o.as_reference().ok()
}

/// Relies on lopdf's `Document::traverse_objects`: every reference reachable
/// from the trailer is replaced by its image under [`retarget`].
#[verifier::external_body]
fn retarget_references(doc: &mut Document, pages: &Vec<ObjectRef>, groups: &Vec<SlideGroup>)
    requires
        is_partition(groups@, pages@.len() as int),
{
    doc.traverse_objects(|o: &mut Object| {
        if let Object::Reference(id) = o {
            *id = retarget(*id, pages, groups);
        }
    });
}

/// The ids referenced from the trailer of `d` on, each once, in the order
/// the references are met.
pub uninterp spec fn referenced_objects(d: Document) -> Seq<ObjectRef>;

/// `d` holds an object of id `id`.
pub uninterp spec fn holds_object(d: Document, id: ObjectRef) -> bool;

/// The ids of `ids` that name no object of `d`, in order.
pub open spec fn missing_objects(d: Document, ids: Seq<ObjectRef>) -> Seq<ObjectRef>
    decreases ids.len(),
{
    if ids.len() == 0 {
        seq![]
    } else {
        let rest = missing_objects(d, ids.drop_last());
        if holds_object(d, ids.last()) {
            rest
        } else {
            rest.push(ids.last())
        }
    }
}

/// Relies on lopdf's `Document::traverse_objects` with an action that does
/// nothing: the ids referenced from the trailer on, the document unchanged.
#[verifier::external_body]
fn referenced_ids(doc: &mut Document) -> (r: Vec<ObjectRef>)
    ensures
        *final(doc) == *old(doc),
        r@ == referenced_objects(*old(doc)),
{
    doc.traverse_objects(|_: &mut Object| {})
}

/// Relies on `BTreeMap::contains_key` over lopdf's `Document::objects`:
/// whether the document holds an object of id `id`.
#[verifier::external_body]
fn has_object(doc: &Document, id: ObjectRef) -> (r: bool)
    ensures
        r == holds_object(*doc, id),
{
    doc.objects.contains_key(&id)
}

/// The referenced ids of `doc` that name no object, in the order the
/// references are met.
pub fn dangling_references(doc: &mut Document) -> (r: Vec<ObjectRef>)
    ensures
        *final(doc) == *old(doc),
        r@ == missing_objects(*old(doc), referenced_objects(*old(doc))),
{
    let ids = referenced_ids(doc);
    let mut r: Vec<ObjectRef> = Vec::new();
    let mut i: usize = 0;
    while i < ids.len()
        invariant
            *doc == *old(doc),
            ids@ == referenced_objects(*old(doc)),
            i <= ids@.len(),
            r@ == missing_objects(*doc, ids@.subrange(0, i as int)),
        decreases ids@.len() - i,
    {
        proof {
            assert(ids@.subrange(0, i + 1).drop_last() =~= ids@.subrange(0, i as int));
        }
        if !has_object(doc, ids[i]) {
            r.push(ids[i]);
        }
        i += 1;
    }
    assert(ids@.subrange(0, ids@.len() as int) =~= ids@);
    r
}

/// Relies on lopdf's `Document::delete_object`: removes the object `id`,
/// the first reference to it in each reachable array and every reachable
/// dictionary entry that refers to it.
#[verifier::external_body]
fn delete_object(doc: &mut Document, id: ObjectRef) {
    doc.delete_object(id);
}

/// Relies on lopdf's `Document::catalog`, `Document::get_dict_in_dict` and
/// `Object::as_array`: a copy of the `/Nums` array of the catalog's
/// `/PageLabels` number tree.
#[verifier::external_body]
fn page_label_nums(doc: &Document) -> (r: Option<Vec<Object>>) {
    doc.catalog()
        .and_then(|c| doc.get_dict_in_dict(c, b"PageLabels"))
        .and_then(|d| d.get(b"Nums"))
        .and_then(Object::as_array)
        .ok()
        .cloned()
}

/// Relies on lopdf's `Document::catalog` and `Object::as_reference`: the id
/// of the `/PageLabels` dictionary where the catalog refers to it.
#[verifier::external_body]
fn page_labels_ref(doc: &Document) -> (r: Option<ObjectRef>) {
    doc.catalog().and_then(|c| c.get(b"PageLabels")).and_then(Object::as_reference).ok()
}

/// Relies on lopdf's `Dictionary::set`: stores `nums` as the `/Nums` array of
/// the dictionary object `id`.
#[verifier::external_body]
fn set_nums_of(doc: &mut Document, id: ObjectRef, nums: Vec<Object>) {
    if let Ok(d) = doc.get_dictionary_mut(id) {
        d.set("Nums", Object::Array(nums));
    }
}

/// Relies on lopdf's `Document::catalog_mut` and `Dictionary::set`: stores
/// `nums` as the `/Nums` array of the `/PageLabels` dictionary held inside
/// the catalog.
#[verifier::external_body]
fn set_nums_in_catalog(doc: &mut Document, nums: Vec<Object>) {
    if let Ok(d) = doc.catalog_mut().and_then(|c| c.get_mut(b"PageLabels")).and_then(Object::as_dict_mut) {
        d.set("Nums", Object::Array(nums));
    }
}

/// Relies on lopdf's `Object::as_i64`: the value of `o` where it is an
/// integer.
#[verifier::external_body]
fn integer_of(o: &Object) -> (r: Option<i64>) {
    o.as_i64().ok()
}

/// Relies on lopdf's `Object::Integer`: an integer object of value `v`.
#[verifier::external_body]
fn integer_object(v: i64) -> (r: Object) {
    Object::Integer(v)
}

/// Moves the page-label ranges of `doc` onto the pages that stay, as
/// [`relabel_ranges`] decides. A label tree that is not a flat list of
/// integer keys and values is left as it is.
fn fix_page_labels(doc: &mut Document, groups: &Vec<SlideGroup>, n: usize)
    requires
        is_partition(groups@, n as int),
{
    let nums = match page_label_nums(doc) {
        Some(v) => v,
        None => return,
    };
    if nums.len() % 2 != 0 {
        return;
    }
    let len = nums.len();
    let pairs = len / 2;
    let mut starts: Vec<usize> = Vec::new();
    let mut j: usize = 0;
    while j < pairs
        invariant
            len == nums@.len(),
            pairs * 2 == nums@.len(),
            j <= pairs,
            starts@.len() == j,
        decreases pairs - j,
    {
        match integer_of(&nums[2 * j]) {
            Some(v) => {
                if v < 0 || v as u64 > usize::MAX as u64 {
                    return;
                }
                starts.push(v as usize);
            },
            None => return,
        }
        j += 1;
    }
    let mut rest = nums;
    let mut ranges: Vec<(usize, Object)> = Vec::new();
    let mut j: usize = 0;
    while j < pairs
        invariant
            starts@.len() == pairs,
            j <= pairs,
            rest@.len() == 2 * (pairs - j),
        decreases pairs - j,
    {
        let _key = rest.remove(0);
        let value = rest.remove(0);
        ranges.push((starts[j], value));
        j += 1;
    }
    let moved = relabel_ranges(ranges, groups, n);
    let mut out: Vec<Object> = Vec::new();
    let mut rest = moved;
    while rest.len() > 0
        decreases rest@.len(),
    {
        let (start, value) = rest.remove(0);
        if start as u64 > i64::MAX as u64 {
            return;
        }
        out.push(integer_object(start as i64));
        out.push(value);
    }
    match page_labels_ref(doc) {
        Some(id) => set_nums_of(doc, id, out),
        None => set_nums_in_catalog(doc, out),
    }
}

/// Index of the first entry of `refs` that is `Some(target)`.
pub fn first_index_of(refs: &Vec<Option<ObjectRef>>, target: ObjectRef) -> (r: Option<usize>)
    ensures
        r matches Some(i) ==> i < refs@.len() && refs@[i as int] == Some(target) && forall|j: int|
            0 <= j < i ==> refs@[j] != Some(target),
        r is None ==> forall|j: int| 0 <= j < refs@.len() ==> refs@[j] != Some(target),
{
    let mut i: usize = 0;
    while i < refs.len()
        invariant
            i <= refs@.len(),
            forall|j: int| 0 <= j < i ==> refs@[j] != Some(target),
        decreases refs@.len() - i,
    {
        match refs[i] {
            Some(id) => {
                if id.0 == target.0 && id.1 == target.1 {
                    return Some(i);
                }
            },
            None => {},
        }
        i += 1;
    }
    None
}

/// The page count of a node once one page below it is gone; `None` where
/// the count cannot go lower.
pub fn decremented_count(count: i64) -> (r: Option<i64>)
    ensures
        count > 0 ==> r == Some((count - 1) as i64),
        count <= 0 ==> r is None,
{
    if count > 0 {
        Some(count - 1)
    } else {
        None
    }
}

/// Removes from the page tree one child entry that stands for the removed
/// page `page`, whose references already name its terminal page `terminal`,
/// and lowers the page count of every node above it.
fn detach_page(doc: &mut Document, page: ObjectRef, terminal: ObjectRef) -> (r: Result<
    (),
    HandoutError,
>)
    ensures
        r matches Err(e) ==> e == HandoutError::PageTreeMutation,
{
    let parent = match parent_of(doc, page) {
        Some(p) => p,
        None => return Err(HandoutError::PageTreeMutation),
    };
    let mut kids = match kids_of(doc, parent) {
        Some(k) => k,
        None => return Err(HandoutError::PageTreeMutation),
    };
    let mut refs: Vec<Option<ObjectRef>> = Vec::new();
    let mut i: usize = 0;
    while i < kids.len()
        invariant
            i <= kids@.len(),
            refs@.len() == i,
        decreases kids@.len() - i,
    {
        refs.push(reference_of(&kids[i]));
        i += 1;
    }
    let at = match first_index_of(&refs, terminal) {
        Some(j) => j,
        None => return Err(HandoutError::PageTreeMutation),
    };
    kids.remove(at);
    if !set_kids(doc, parent, kids) {
        return Err(HandoutError::PageTreeMutation);
    }
    let mut node = Some(parent);
    let mut depth: usize = 0;
    while depth < MAX_TREE_DEPTH
        invariant
            depth <= MAX_TREE_DEPTH,
        decreases MAX_TREE_DEPTH - depth,
    {
        let id = match node {
            Some(id) => id,
            None => break,
        };
        match count_of(doc, id) {
            Some(c) => match decremented_count(c) {
                Some(lower) => set_count(doc, id, lower),
                None => {},
            },
            None => {},
        }
        node = parent_of(doc, id);
        depth += 1;
    }
    Ok(())
}

/// Relies on lopdf's `Document::prune_objects`: drops the objects that are
/// not reachable from the trailer.
#[verifier::external_body]
fn prune_objects(doc: &mut Document) {
    doc.prune_objects();
}


/// Once a prefix of the streams cannot be read, no longer prefix can.
proof fn lemma_unreadable_prefix(d: Document, ids: Seq<ObjectRef>, m: int, k: int)
    requires
        0 <= m <= k <= ids.len(),
        streams_key(d, ids.subrange(0, m)) is None,
    ensures
        streams_key(d, ids.subrange(0, k)) is None,
    decreases k - m,
{
    if m < k {
        lemma_unreadable_prefix(d, ids, m, k - 1);
        assert(ids.subrange(0, k).drop_last() =~= ids.subrange(0, k - 1));
    }
}

/// The comparable content of `page` in `doc`.
pub fn read_page(doc: &Document, page: ObjectRef) -> (r: Option<Vec<u8>>)
    ensures
        content_view(r) == page_key(*doc, page),
{
    let ids = content_stream_ids(doc, page);
    let mut out: Vec<u8> = Vec::new();
    let mut i: usize = 0;
    while i < ids.len()
        invariant
            ids@ == content_streams(*doc, page),
            i <= ids@.len(),
            streams_key(*doc, ids@.subrange(0, i as int)) == Some(out@),
        decreases ids@.len() - i,
    {
        proof {
            assert(ids@.subrange(0, i + 1).drop_last() =~= ids@.subrange(0, i as int));
        }
        if stream_has_decode_parms(doc, ids[i]) {
            proof {
                lemma_unreadable_prefix(*doc, ids@, i + 1, ids@.len() as int);
                assert(ids@.subrange(0, ids@.len() as int) =~= ids@);
            }
            return None;
        }
        let part = match stream_content(doc, ids[i], MAX_PAGE_CONTENT) {
            Some(v) => v,
            None => {
                proof {
                    lemma_unreadable_prefix(*doc, ids@, i + 1, ids@.len() as int);
                    assert(ids@.subrange(0, ids@.len() as int) =~= ids@);
                }
                return None;
            },
        };
        let mut j: usize = 0;
        let ghost before = out@;
        while j < part.len()
            invariant
                j <= part@.len(),
                out@ == before + part@.subrange(0, j as int),
            decreases part@.len() - j,
        {
            out.push(part[j]);
            assert(out@ =~= before + part@.subrange(0, j + 1));
            j += 1;
        }
        assert(part@.subrange(0, part@.len() as int) =~= part@);
        i += 1;
    }
    assert(ids@.subrange(0, ids@.len() as int) =~= ids@);
    Some(out)
}

/// Whether two page lists are equal.
pub fn same_pages(a: &Vec<ObjectRef>, b: &Vec<ObjectRef>) -> (r: bool)
    ensures
        r == (a@ == b@),
{
    if a.len() != b.len() {
        return false;
    }
    let mut i: usize = 0;
    while i < a.len()
        invariant
            a@.len() == b@.len(),
            i <= a@.len(),
            forall|j: int| 0 <= j < i ==> a@[j] == b@[j],
        decreases a@.len() - i,
    {
        if a[i].0 != b[i].0 || a[i].1 != b[i].1 {
            return false;
        }
        i += 1;
    }
    assert(a@ =~= b@);
    true
}

/// Whether two page contents, either of which may be missing, are equal.
pub fn same_content(a: &Option<Vec<u8>>, b: &Option<Vec<u8>>) -> (r: bool)
    ensures
        r == (content_view(*a) == content_view(*b)),
{
    match (a, b) {
        (Some(x), Some(y)) => {
            if x.len() != y.len() {
                return false;
            }
            let p = is_prefix(x, y);
            assert(y@.subrange(0, y@.len() as int) =~= y@);
            p
        },
        (None, None) => true,
        _ => false,
    }
}

/// Reads the pages of `doc` and their contents, in document order.
pub fn read_pages(doc: &Document) -> (r: (Vec<ObjectRef>, Vec<Option<Vec<u8>>>))
    ensures
        r.0@ == document_pages(*doc),
        contents_of(*doc, r.0@, r.1@),
{
    let pages = page_ids(doc);
    let mut contents: Vec<Option<Vec<u8>>> = Vec::new();
    let mut i: usize = 0;
    while i < pages.len()
        invariant
            pages@ == document_pages(*doc),
            i <= pages@.len(),
            contents@.len() == i,
            forall|j: int| 0 <= j < i ==> #[trigger] content_view(contents@[j]) == page_key(*doc, pages@[j]),
        decreases pages@.len() - i,
    {
        let content = read_page(doc, pages[i]);
        contents.push(content);
        i += 1;
    }
    (pages, contents)
}

/// Collapses the reveal steps of `doc` in place: every page of a slide group
/// but the terminal one leaves the page tree. Returns what was decided.
pub fn handoutify(doc: &mut Document) -> (r: Result<Handout, HandoutError>)
    ensures
        document_pages(*old(doc)).len() > u32::MAX <==> r == Err::<Handout, HandoutError>(HandoutError::TooManyPages),
        r matches Ok(h) ==> is_reduction_of(*old(doc), *final(doc), h),
        r matches Err(e) ==> e == HandoutError::TooManyPages || e == HandoutError::PageTreeMutation,
        document_pages(*old(doc)).len() <= u32::MAX && no_page_extends(*old(doc)) ==> r is Ok && *final(doc)
            == *old(doc),
{
    let dangling = dangling_references(doc);
    let ghost start = *doc;
    assert(start == *old(doc));
    let count0 = root_count(doc);
    let (pages, contents) = read_pages(doc);
    let mut h = match plan_handout(pages, contents) {
        Ok(h) => h,
        Err(e) => {
            assert(e == HandoutError::TooManyPages);
            return Err(e);
        },
    };
    h.dangling = dangling;
    let n = h.pages.len();
    proof {
        reveal(no_page_extends);
        if no_page_extends(start) {
            assert forall|i: int| 0 < i < h.contents@.len() implies !#[trigger] continues_at(h.contents@, i) by {
                assert(content_view(h.contents@[i - 1]) == page_key(start, h.pages@[i - 1]));
                assert(content_view(h.contents@[i]) == page_key(start, h.pages@[i]));
            }
            lemma_reduction_of_reduced_is_identity(h.contents@, h.groups@);
        }
    }
    if h.removed.len() == 0 {
        proof {
            lemma_nothing_removed(h.groups@, n as int);
            assert(h.kept@ =~= h.pages@);
            assert forall|i: int, j: int|
                0 <= i < referenced_objects(start).len() && 0 <= j < h.removed@.len()
                    implies #[trigger] referenced_objects(start)[i] != #[trigger] removed_page_ids(h)[j] by {}
        }
        return Ok(h);
    }
    assert(!no_page_extends(start));
    assert(n <= u32::MAX);
    retarget_references(doc, &h.pages, &h.groups);
    fix_page_labels(doc, &h.groups, n);
    let mut j: usize = 0;
    while j < h.removed.len()
        invariant
            is_handout_of(h.pages@, h.contents@, h),
            n == h.pages@.len(),
            n <= u32::MAX,
            h.pages@ == document_pages(start),
            start == *old(doc),
            !no_page_extends(start),
            count0 == root_page_count(start),
            h.dangling@ == missing_objects(start, referenced_objects(start)),
            contents_of(start, h.pages@, h.contents@),
            j <= h.removed@.len(),
        decreases h.removed@.len() - j,
    {
        proof {
            lemma_non_terminal_in_range(h.groups@, n as int);
            assert(h.removed@.map_values(|x: u32| x as int)[j as int] == h.removed@[j as int] as int);
        }
        let i = (h.removed[j] - 1) as usize;
        let t = terminal_for(&h.groups, n, i);
        proof {
            let k = choose|k: int|
                0 <= k < h.groups@.len() && #[trigger] h.groups@[k].start <= i < h.groups@[k].end
                    && t == h.groups@[k].terminal();
            lemma_starts_increase(h.groups@, n as int, k, h.groups@.len() - 1);
        }
        match detach_page(doc, h.pages[i], h.pages[t]) {
            Ok(()) => {},
            Err(e) => {
                return Err(e);
            },
        }
        j += 1;
    }
    let mut j: usize = 0;
    while j < h.removed.len()
        invariant
            is_handout_of(h.pages@, h.contents@, h),
            n == h.pages@.len(),
            n <= u32::MAX,
            h.pages@ == document_pages(start),
            start == *old(doc),
            !no_page_extends(start),
            count0 == root_page_count(start),
            h.dangling@ == missing_objects(start, referenced_objects(start)),
            contents_of(start, h.pages@, h.contents@),
            j <= h.removed@.len(),
        decreases h.removed@.len() - j,
    {
        proof {
            lemma_non_terminal_in_range(h.groups@, n as int);
            assert(h.removed@.map_values(|x: u32| x as int)[j as int] == h.removed@[j as int] as int);
        }
        let i = (h.removed[j] - 1) as usize;
        delete_object(doc, h.pages[i]);
        j += 1;
    }
    if !confirm_reduction(doc, &h, count0) {
        return Err(HandoutError::PageTreeMutation);
    }
    Ok(h)
}

/// Reduces `doc` as [`handoutify`] does, then, on success and if `prune`
/// is set, drops the objects nothing reaches any more and confirms that the
/// reduced page tree survived that.
pub fn convert_document(doc: &mut Document, prune: bool) -> (r: Result<Handout, HandoutError>)
    ensures
        document_pages(*old(doc)).len() > u32::MAX <==> r == Err::<Handout, HandoutError>(HandoutError::TooManyPages),
        r matches Err(e) ==> e == HandoutError::TooManyPages || e == HandoutError::PageTreeMutation,
        r matches Ok(h) ==> is_reduction_of(*old(doc), *final(doc), h),
        !prune && document_pages(*old(doc)).len() <= u32::MAX && no_page_extends(*old(doc)) ==> r is Ok
            && *final(doc) == *old(doc),
{
    let count0 = root_count(doc);
    let r = handoutify(doc);
    match r {
        Ok(h) => {
            if prune {
                prune_objects(doc);
                if !confirm_reduction(doc, &h, count0) {
                    return Err(HandoutError::PageTreeMutation);
                }
            }
            Ok(h)
        },
        Err(e) => Err(e),
    }
}

} // verus!
