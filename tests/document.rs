use handout::document::{
    convert_document, dangling_references, decremented_count, first_index_of,
    handoutify, plan_handout, read_page, read_pages, same_content, same_pages, shares_id,
    unreadable_pages,
    HandoutError,
};
use lopdf::{Dictionary, Document, Object, ObjectId, Stream};

fn build(contents: &[&[u8]]) -> (Document, Vec<ObjectId>) {
    let mut doc = Document::with_version("1.5");
    let pages_id = doc.new_object_id();
    let mut kids = Vec::new();
    let mut ids = Vec::new();
    for c in contents {
        let content_id = doc.add_object(Stream::new(Dictionary::new(), c.to_vec()));
        let mut page = Dictionary::new();
        page.set("Type", Object::Name(b"Page".to_vec()));
        page.set("Parent", Object::Reference(pages_id));
        page.set("Contents", Object::Reference(content_id));
        let id = doc.add_object(page);
        kids.push(Object::Reference(id));
        ids.push(id);
    }
    let mut pages = Dictionary::new();
    pages.set("Type", Object::Name(b"Pages".to_vec()));
    pages.set("Kids", Object::Array(kids));
    pages.set("Count", Object::Integer(contents.len() as i64));
    doc.objects.insert(pages_id, Object::Dictionary(pages));
    let mut catalog = Dictionary::new();
    catalog.set("Type", Object::Name(b"Catalog".to_vec()));
    catalog.set("Pages", Object::Reference(pages_id));
    let catalog_id = doc.add_object(catalog);
    doc.trailer.set("Root", Object::Reference(catalog_id));
    (doc, ids)
}

fn remaining(doc: &Document) -> Vec<ObjectId> {
    doc.get_pages().into_values().collect()
}

#[test]
fn unreadable_pages_are_listed() {
    let contents = vec![None, Some(b"a".to_vec()), None, Some(Vec::new())];
    assert_eq!(unreadable_pages(&contents), vec![0, 2]);
}

#[test]
fn plan_rejects_mismatched_lengths() {
    let r = plan_handout(vec![(1, 0), (2, 0)], vec![Some(b"a".to_vec())]);
    assert!(matches!(r, Err(HandoutError::ContentMismatch)));
}

#[test]
fn plan_of_empty_document_is_empty() {
    let h = plan_handout(Vec::new(), Vec::new()).ok().unwrap();
    assert!(h.groups.is_empty());
    assert!(h.kept.is_empty());
    assert!(h.removed.is_empty());
}

#[test]
fn read_pages_gives_contents_in_order() {
    let (doc, ids) = build(&[b"A", b"AB", b"C"]);
    let (pages, contents) = read_pages(&doc);
    assert_eq!(pages, ids);
    assert_eq!(
        contents,
        vec![Some(b"A".to_vec()), Some(b"AB".to_vec()), Some(b"C".to_vec())]
    );
}

#[test]
fn nested_reveal_steps_collapse_to_terminal_pages() {
    let (mut doc, ids) = build(&[b"A1", b"A1 A2", b"A1 A2 A3", b"B1", b"B1 B2"]);
    let h = handoutify(&mut doc).ok().unwrap();
    assert_eq!(h.kept, vec![ids[2], ids[4]]);
    assert_eq!(h.removed, vec![1, 2, 4]);
    assert_eq!(remaining(&doc), vec![ids[2], ids[4]]);
    assert_eq!(doc.get_page_content(ids[2]), b"A1 A2 A3\n".to_vec());
}

#[test]
fn unrelated_pages_are_unchanged() {
    let (mut doc, ids) = build(&[b"one", b"two", b"three"]);
    let h = handoutify(&mut doc).ok().unwrap();
    assert_eq!(h.groups.len(), 3);
    assert!(h.removed.is_empty());
    assert_eq!(remaining(&doc), ids);
}

#[test]
fn second_pass_is_a_no_op() {
    let (mut doc, ids) = build(&[b"x", b"xy", b"z", b"zz"]);
    handoutify(&mut doc).ok().unwrap();
    let after_first = remaining(&doc);
    assert_eq!(after_first, vec![ids[1], ids[3]]);
    let h = handoutify(&mut doc).ok().unwrap();
    assert!(h.removed.is_empty());
    assert_eq!(remaining(&doc), after_first);
}

#[test]
fn convert_prunes_and_renumbers() {
    let (mut doc, _ids) = build(&[b"s", b"st", b"u"]);
    let h = convert_document(&mut doc, true).ok().unwrap();
    doc.renumber_objects();
    assert_eq!(h.kept.len(), 2);
    assert_eq!(doc.get_pages().len(), 2);
    // catalog, page tree, two pages and their two content streams
    assert_eq!(doc.objects.len(), 6);
    let mut numbers: Vec<u32> = doc.objects.keys().map(|id| id.0).collect();
    numbers.sort();
    assert_eq!(numbers, vec![1, 2, 3, 4, 5, 6]);
}

fn dest(page: ObjectId) -> Object {
    Object::Array(vec![Object::Reference(page), Object::Name(b"Fit".to_vec())])
}

fn page_tree_count(doc: &Document) -> i64 {
    let catalog = doc.catalog().ok().unwrap();
    let root = catalog.get(b"Pages").and_then(Object::as_reference).ok().unwrap();
    doc.get_dictionary(root).and_then(|d| d.get(b"Count")).and_then(Object::as_i64).ok().unwrap()
}

#[test]
fn first_index_of_finds_first_match() {
    let refs = vec![None, Some((3, 0)), Some((5, 0)), Some((3, 0))];
    assert_eq!(first_index_of(&refs, (3, 0)), Some(1));
    assert_eq!(first_index_of(&refs, (5, 0)), Some(2));
    assert_eq!(first_index_of(&refs, (5, 1)), None);
    assert_eq!(first_index_of(&Vec::new(), (5, 0)), None);
}

#[test]
fn count_goes_down_by_one() {
    assert_eq!(decremented_count(5), Some(4));
    assert_eq!(decremented_count(1), Some(0));
    assert_eq!(decremented_count(0), None);
    assert_eq!(decremented_count(-3), None);
}

#[test]
fn page_tree_count_follows_removal() {
    let (mut doc, _ids) = build(&[b"a", b"ab", b"abc", b"d"]);
    assert_eq!(page_tree_count(&doc), 4);
    handoutify(&mut doc).ok().unwrap();
    assert_eq!(page_tree_count(&doc), 2);
}

#[test]
fn removed_page_objects_are_deleted() {
    let (mut doc, ids) = build(&[b"a", b"ab", b"c"]);
    handoutify(&mut doc).ok().unwrap();
    assert!(doc.get_object(ids[0]).is_err());
    assert!(doc.get_object(ids[1]).is_ok());
    assert!(doc.get_object(ids[2]).is_ok());
}

#[test]
fn link_to_non_terminal_page_follows_to_terminal() {
    // slide A: pages 1-3, slide B: pages 4-6; the link on page 3 targets page 5
    let (mut doc, ids) = build(&[b"A", b"AA", b"AAA", b"B", b"BB", b"BBB"]);
    let mut link = Dictionary::new();
    link.set("Type", Object::Name(b"Annot".to_vec()));
    link.set("Subtype", Object::Name(b"Link".to_vec()));
    link.set("Dest", dest(ids[4]));
    let link_id = doc.add_object(link);
    doc.get_dictionary_mut(ids[2])
        .ok()
        .unwrap()
        .set("Annots", Object::Array(vec![Object::Reference(link_id)]));
    let catalog_id = doc.trailer.get(b"Root").and_then(Object::as_reference).ok().unwrap();
    doc.get_dictionary_mut(catalog_id).ok().unwrap().set("OpenAction", dest(ids[1]));
    handoutify(&mut doc).ok().unwrap();
    assert_eq!(remaining(&doc), vec![ids[2], ids[5]]);
    let link_dest = doc.get_dictionary(link_id).and_then(|d| d.get(b"Dest")).ok().unwrap().clone();
    assert_eq!(link_dest, dest(ids[5]));
    let open = doc.get_dictionary(catalog_id).and_then(|d| d.get(b"OpenAction")).ok().unwrap().clone();
    assert_eq!(open, dest(ids[2]));
}

#[test]
fn page_outside_its_parent_is_a_mutation_failure() {
    let (mut doc, ids) = build(&[b"a", b"ab"]);
    let catalog_id = doc.trailer.get(b"Root").and_then(Object::as_reference).ok().unwrap();
    doc.get_dictionary_mut(ids[0]).ok().unwrap().set("Parent", Object::Reference(catalog_id));
    let r = handoutify(&mut doc);
    assert!(matches!(r, Err(HandoutError::PageTreeMutation)));
}

fn label(prefix: &[u8]) -> Object {
    let mut d = Dictionary::new();
    d.set("S", Object::Name(b"D".to_vec()));
    d.set("P", Object::string_literal(prefix.to_vec()));
    Object::Dictionary(d)
}

#[test]
fn page_label_ranges_move_with_their_pages() {
    // slide A: pages 1-2, slide B: pages 3-5; ranges start at pages 1, 4 and 5
    let (mut doc, _ids) = build(&[b"a", b"ab", b"c", b"cd", b"cde"]);
    let nums = vec![
        Object::Integer(0),
        label(b"A-"),
        Object::Integer(3),
        label(b"B-"),
        Object::Integer(4),
        label(b"C-"),
    ];
    let mut labels = Dictionary::new();
    labels.set("Nums", Object::Array(nums));
    let labels_id = doc.add_object(labels);
    doc.catalog_mut().ok().unwrap().set("PageLabels", Object::Reference(labels_id));
    handoutify(&mut doc).ok().unwrap();
    let after = doc
        .get_dictionary(labels_id)
        .and_then(|d| d.get(b"Nums"))
        .and_then(Object::as_array)
        .ok()
        .unwrap()
        .clone();
    assert_eq!(after, vec![Object::Integer(0), label(b"A-"), Object::Integer(1), label(b"C-")]);
}

#[test]
fn unreadable_pages_are_ascending() {
    let contents = vec![Some(Vec::new()), None, None, Some(b"x".to_vec()), None];
    assert_eq!(unreadable_pages(&contents), vec![1, 2, 4]);
}

#[test]
fn page_lists_compare_by_ids() {
    assert!(same_pages(&vec![(1, 0), (2, 0)], &vec![(1, 0), (2, 0)]));
    assert!(!same_pages(&vec![(1, 0), (2, 0)], &vec![(1, 0), (2, 1)]));
    assert!(!same_pages(&vec![(1, 0)], &vec![(1, 0), (2, 0)]));
    assert!(same_pages(&Vec::new(), &Vec::new()));
}

#[test]
fn contents_compare_by_bytes() {
    assert!(same_content(&Some(b"ab".to_vec()), &Some(b"ab".to_vec())));
    assert!(!same_content(&Some(b"ab".to_vec()), &Some(b"abc".to_vec())));
    assert!(!same_content(&Some(b"ab".to_vec()), &Some(b"ac".to_vec())));
    assert!(!same_content(&Some(Vec::new()), &None));
    assert!(same_content(&None, &None));
}

#[test]
fn read_page_gives_stream_bytes() {
    let (doc, ids) = build(&[b"q 1 0 0 1 0 0 cm Q"]);
    assert_eq!(read_page(&doc, ids[0]), Some(b"q 1 0 0 1 0 0 cm Q".to_vec()));
}

#[test]
fn dangling_references_are_reported_and_kept() {
    let (mut doc, ids) = build(&[b"a", b"ab"]);
    let catalog_id = doc.trailer.get(b"Root").and_then(Object::as_reference).ok().unwrap();
    doc.get_dictionary_mut(catalog_id).ok().unwrap().set("OpenAction", dest((77, 0)));
    assert_eq!(dangling_references(&mut doc), vec![(77, 0)]);
    let h = handoutify(&mut doc).ok().unwrap();
    assert_eq!(h.dangling, vec![(77, 0)]);
    assert_eq!(remaining(&doc), vec![ids[1]]);
    let open = doc.get_dictionary(catalog_id).and_then(|d| d.get(b"OpenAction")).ok().unwrap().clone();
    assert_eq!(open, dest((77, 0)));
}

#[test]
fn convert_without_renumbering_keeps_terminal_ids() {
    let (mut doc, ids) = build(&[b"s", b"st", b"u"]);
    let h = convert_document(&mut doc, false).ok().unwrap();
    assert_eq!(h.kept, vec![ids[1], ids[2]]);
    assert_eq!(remaining(&doc), h.kept);
}

#[test]
fn shared_ids_are_found() {
    let ids = vec![(1, 0), (4, 0), (9, 0)];
    assert!(shares_id(&ids, &vec![(7, 0), (9, 0)]));
    assert!(!shares_id(&ids, &vec![(7, 0), (9, 1)]));
    assert!(!shares_id(&ids, &Vec::new()));
    assert!(!shares_id(&Vec::new(), &vec![(1, 0)]));
}

#[test]
fn no_reference_reaches_a_removed_page() {
    let (mut doc, ids) = build(&[b"A", b"AB", b"C", b"CD"]);
    let catalog_id = doc.trailer.get(b"Root").and_then(Object::as_reference).ok().unwrap();
    doc.get_dictionary_mut(catalog_id).ok().unwrap().set("OpenAction", dest(ids[2]));
    handoutify(&mut doc).ok().unwrap();
    let reachable = doc.traverse_objects(|_| {});
    assert!(!reachable.contains(&ids[0]));
    assert!(!reachable.contains(&ids[2]));
    assert!(reachable.contains(&ids[3]));
}

#[test]
fn several_streams_are_concatenated() {
    let (mut doc, ids) = build(&[b"A"]);
    let second = doc.add_object(Stream::new(Dictionary::new(), b"B".to_vec()));
    let first = doc.get_page_contents(ids[0])[0];
    doc.get_dictionary_mut(ids[0])
        .ok()
        .unwrap()
        .set("Contents", Object::Array(vec![Object::Reference(first), Object::Reference(second)]));
    assert_eq!(read_page(&doc, ids[0]), Some(b"AB".to_vec()));
}

#[test]
fn content_naming_no_stream_is_unreadable_and_kept() {
    let (mut doc, ids) = build(&[b"", b"A", b"AB"]);
    doc.get_dictionary_mut(ids[0]).ok().unwrap().set("Contents", Object::Reference((999, 0)));
    assert_eq!(read_page(&doc, ids[0]), None);
    let h = handoutify(&mut doc).ok().unwrap();
    assert_eq!(h.unreadable, vec![0]);
    assert_eq!(remaining(&doc), vec![ids[0], ids[2]]);
}

#[test]
fn stream_with_decode_parms_is_unreadable() {
    let (mut doc, ids) = build(&[b"A", b"AB"]);
    let mut params = Dictionary::new();
    params.set("Predictor", Object::Integer(12));
    params.set("Columns", Object::Integer(1_000_000_000));
    let mut dict = Dictionary::new();
    dict.set("Filter", Object::Name(b"FlateDecode".to_vec()));
    dict.set("DecodeParms", Object::Dictionary(params));
    let bad = doc.add_object(Stream::new(dict, b"garbage".to_vec()));
    doc.get_dictionary_mut(ids[0]).ok().unwrap().set("Contents", Object::Reference(bad));
    assert_eq!(read_page(&doc, ids[0]), None);
    let h = handoutify(&mut doc).ok().unwrap();
    assert!(h.removed.is_empty());
    assert_eq!(remaining(&doc), ids);
}

#[test]
fn undecodable_stream_is_unreadable() {
    let (mut doc, ids) = build(&[b"A", b"AB"]);
    let mut dict = Dictionary::new();
    dict.set("Filter", Object::Name(b"NoSuchDecode".to_vec()));
    let bad = doc.add_object(Stream::new(dict, b"A".to_vec()));
    doc.get_dictionary_mut(ids[0]).ok().unwrap().set("Contents", Object::Reference(bad));
    assert_eq!(read_page(&doc, ids[0]), None);
}

#[test]
fn wrong_root_count_is_left_alone_on_a_handout() {
    let (mut doc, ids) = build(&[b"one", b"two"]);
    let catalog = doc.catalog().ok().unwrap();
    let root = catalog.get(b"Pages").and_then(Object::as_reference).ok().unwrap();
    doc.get_dictionary_mut(root).ok().unwrap().set("Count", Object::Integer(9));
    let h = handoutify(&mut doc).ok().unwrap();
    assert!(h.removed.is_empty());
    assert_eq!(remaining(&doc), ids);
}
