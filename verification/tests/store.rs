use inferrust::inferray::dictionary::{
    property_to_slot, slot_to_property, OWL_INVERSE_OF, RDFS_SUB_CLASS_OF, RDF_TYPE,
};
use inferrust::inferray::{Chunk, TripleStore};

const A: u64 = 4294967296;
const B: u64 = 4294967297;
const C: u64 = 4294967298;
const D: u64 = 4294967299;

fn so_of(store: &TripleStore, predicate: u64) -> Vec<[u64; 2]> {
    store.chunk(property_to_slot(predicate)).unwrap().so().clone()
}

#[test]
fn a_new_store_is_empty() {
    let store = TripleStore::new();
    assert_eq!(store.size(), 0);
    assert_eq!(store.slots(), 0);
    assert!(store.chunk(0).is_none());
}

#[test]
fn insertion_counts_every_triple_until_the_store_is_sorted() {
    let mut store = TripleStore::new();
    store.add_triple([A, RDF_TYPE, B]);
    store.add_triple([A, RDF_TYPE, B]);
    store.add_triple([C, RDF_TYPE, B]);
    assert_eq!(store.size(), 3);
    let count = store.sort();
    assert_eq!(count, 2);
    assert_eq!(store.size(), 2);
    assert_eq!(so_of(&store, RDF_TYPE), vec![[A, B], [C, B]]);
}

#[test]
fn the_slot_of_a_predicate_comes_into_use_with_its_first_triple() {
    let mut store = TripleStore::new();
    store.add_triple([A, OWL_INVERSE_OF, B]);
    assert_eq!(store.slots(), property_to_slot(OWL_INVERSE_OF) + 1);
    assert!(store.chunk(property_to_slot(RDF_TYPE)).unwrap().so().is_empty());
    assert!(store.chunk(property_to_slot(OWL_INVERSE_OF) + 1).is_none());
    assert_eq!(so_of(&store, OWL_INVERSE_OF), vec![[A, B]]);
}

#[test]
fn sorting_orders_every_chunk_and_counts_distinct_triples() {
    let mut store = TripleStore::new();
    store.add_triple([D, RDF_TYPE, A]);
    store.add_triple([B, RDFS_SUB_CLASS_OF, D]);
    store.add_triple([C, RDF_TYPE, B]);
    store.add_triple([B, RDFS_SUB_CLASS_OF, A]);
    store.add_triple([C, RDF_TYPE, A]);
    store.add_triple([D, RDF_TYPE, A]);
    store.add_triple([B, RDFS_SUB_CLASS_OF, D]);
    let count = store.sort();
    assert_eq!(count, 5);
    assert_eq!(so_of(&store, RDF_TYPE), vec![[C, A], [C, B], [D, A]]);
    assert_eq!(so_of(&store, RDFS_SUB_CLASS_OF), vec![[B, A], [B, D]]);
}

#[test]
fn sorting_a_sorted_store_changes_nothing() {
    let mut store = TripleStore::new();
    store.add_triple([B, RDF_TYPE, A]);
    store.add_triple([A, RDF_TYPE, B]);
    assert_eq!(store.sort(), 2);
    let once = so_of(&store, RDF_TYPE);
    assert_eq!(store.sort(), 2);
    assert_eq!(so_of(&store, RDF_TYPE), once);
}

#[test]
fn sorting_an_empty_store_counts_zero() {
    let mut store = TripleStore::new();
    assert_eq!(store.sort(), 0);
    assert_eq!(store.size(), 0);
}

#[test]
fn object_major_pairs_are_the_subject_major_pairs_transposed() {
    let mut store = TripleStore::new();
    store.add_triple([C, RDF_TYPE, A]);
    store.add_triple([A, RDF_TYPE, D]);
    store.add_triple([B, RDF_TYPE, A]);
    store.add_triple([C, RDF_TYPE, A]);
    store.sort();
    let slot = property_to_slot(RDF_TYPE);
    let so = so_of(&store, RDF_TYPE);
    let os = store.os(slot).unwrap().clone();
    assert_eq!(so, vec![[A, D], [B, A], [C, A]]);
    assert_eq!(os, vec![[A, B], [A, C], [D, A]]);
    let mut back: Vec<[u64; 2]> = os.iter().map(|p| [p[1], p[0]]).collect();
    back.sort();
    assert_eq!(back, so);
    assert!(store.os(slot + 100).is_none());
}

#[test]
fn object_major_pairs_are_rebuilt_after_a_change() {
    let mut store = TripleStore::new();
    store.add_triple([C, RDF_TYPE, B]);
    let slot = property_to_slot(RDF_TYPE);
    assert_eq!(store.os(slot).unwrap().clone(), vec![[B, C]]);
    store.add_triple([C, RDF_TYPE, A]);
    store.add_triple([C, RDF_TYPE, B]);
    assert_eq!(store.os(slot).unwrap().clone(), vec![[A, C], [B, C]]);
    assert_eq!(store.size(), 3);
}

#[test]
fn merging_takes_in_every_triple_of_the_other_store() {
    let mut store = TripleStore::new();
    store.add_triple([A, RDF_TYPE, B]);
    let mut other = TripleStore::new();
    other.add_triple([A, RDF_TYPE, B]);
    other.add_triple([C, RDF_TYPE, B]);
    other.add_triple([A, OWL_INVERSE_OF, D]);
    store.add_all(other);
    assert_eq!(store.size(), 4);
    assert_eq!(store.slots(), property_to_slot(OWL_INVERSE_OF) + 1);
    assert_eq!(store.sort(), 3);
    assert_eq!(so_of(&store, RDF_TYPE), vec![[A, B], [C, B]]);
    assert_eq!(so_of(&store, OWL_INVERSE_OF), vec![[A, D]]);
}

#[test]
fn merging_an_empty_store_changes_nothing() {
    let mut store = TripleStore::new();
    store.add_triple([A, RDF_TYPE, B]);
    store.add_all(TripleStore::new());
    assert_eq!(store.size(), 1);
    assert_eq!(store.slots(), 1);
}

#[test]
fn raw_insertion_appends_to_a_slot_in_use() {
    let mut store = TripleStore::new();
    store.add_triple([A, RDFS_SUB_CLASS_OF, B]);
    store.add_triple_raw(C, 0, D);
    store.add_triple_raw(C, 1, D);
    assert_eq!(store.size(), 3);
    assert_eq!(so_of(&store, RDF_TYPE), vec![[C, D]]);
    assert_eq!(so_of(&store, RDFS_SUB_CLASS_OF), vec![[A, B], [C, D]]);
}

#[test]
fn renaming_replaces_an_identifier_as_subject_and_as_object() {
    let mut store = TripleStore::new();
    store.add_triple([A, RDF_TYPE, B]);
    store.add_triple([B, RDF_TYPE, A]);
    store.add_triple([C, RDFS_SUB_CLASS_OF, A]);
    let p: u32 = 4294967280;
    let q = p as u64;
    store.res_to_prop(A, p);
    assert_eq!(so_of(&store, RDF_TYPE), vec![[q, B], [B, q]]);
    assert_eq!(so_of(&store, RDFS_SUB_CLASS_OF), vec![[C, q]]);
    assert_eq!(store.size(), 3);
    let slot = property_to_slot(RDF_TYPE);
    assert_eq!(store.os(slot).unwrap().clone(), vec![[q, B], [B, q]]);
}

#[test]
fn width_spans_the_stored_subjects_and_objects() {
    let mut store = TripleStore::new();
    assert_eq!(store.width(), (u64::MAX, 0, 0));
    store.add_triple([B, RDF_TYPE, D]);
    assert_eq!(store.width(), (B, D, 3));
    store.add_triple([A, OWL_INVERSE_OF, C]);
    assert_eq!(store.width(), (A, D, 4));
    store.add_triple([RDF_TYPE, RDFS_SUB_CLASS_OF, C]);
    assert_eq!(store.width(), (RDF_TYPE, D, 6));
}

#[test]
fn slots_and_properties_convert_both_ways() {
    assert_eq!(property_to_slot(RDF_TYPE), 0);
    assert_eq!(property_to_slot(RDFS_SUB_CLASS_OF), 1);
    assert_eq!(slot_to_property(0), RDF_TYPE);
    assert_eq!(slot_to_property(4), OWL_INVERSE_OF);
    assert_eq!(slot_to_property(property_to_slot(12345)), 12345);
    assert_eq!(property_to_slot(slot_to_property(4294967294)), 4294967294);
}

#[test]
fn a_chunk_sorts_its_subject_major_pairs() {
    let mut chunk = Chunk::default();
    chunk.add_so([5, 2]);
    chunk.add_so([3, 9]);
    chunk.add_so([5, 2]);
    chunk.add_os([2, 5]);
    chunk.add_os([9, 3]);
    chunk.add_os([2, 5]);
    let mut hist = Vec::new();
    let mut hist2 = Vec::new();
    let mut cumul = Vec::new();
    let count = chunk.so_sort(&mut hist, &mut hist2, &mut cumul, 2, 9, 8);
    assert_eq!(count, 2);
    assert_eq!(chunk.so(), &vec![[3, 9], [5, 2]]);
    assert_eq!(chunk.os(), &vec![[2, 5], [9, 3]]);
}

#[test]
fn an_empty_chunk_has_no_pairs_either_way() {
    let mut chunk = Chunk::default();
    assert!(chunk.so().is_empty());
    assert!(chunk.os().is_empty());
    chunk.refresh();
    assert!(chunk.os().is_empty());
}

#[test]
fn a_chunk_renames_both_representations() {
    let mut chunk = Chunk::default();
    chunk.add_so([1, 2]);
    chunk.add_os([2, 1]);
    chunk.add_so([2, 2]);
    chunk.add_os([2, 2]);
    chunk.res_to_prop(2, 8);
    assert_eq!(chunk.so(), &vec![[1, 8], [8, 8]]);
    assert_eq!(chunk.os(), &vec![[8, 1], [8, 8]]);
}

#[test]
fn a_chunk_selects_by_subject_by_object_and_by_both() {
    let mut chunk = Chunk::default();
    for (s, o) in [(5, 2), (3, 9), (5, 7), (4, 2), (3, 1)] {
        chunk.add_so([s, o]);
        chunk.add_os([o, s]);
    }
    let mut hist = Vec::new();
    let mut hist2 = Vec::new();
    let mut cumul = Vec::new();
    chunk.so_sort(&mut hist, &mut hist2, &mut cumul, 3, 5, 3);
    assert_eq!(chunk.select(Some(5), None), vec![[5, 2], [5, 7]]);
    assert_eq!(chunk.select(Some(3), Some(9)), vec![[3, 9]]);
    assert_eq!(chunk.select(Some(3), Some(2)), Vec::<[u64; 2]>::new());
    assert_eq!(chunk.select(None, Some(2)), vec![[4, 2], [5, 2]]);
    assert_eq!(chunk.select(None, Some(8)), Vec::<[u64; 2]>::new());
    assert_eq!(chunk.select(Some(6), None), Vec::<[u64; 2]>::new());
    assert_eq!(chunk.select(Some(2), None), Vec::<[u64; 2]>::new());
    assert_eq!(chunk.select(None, None), vec![[3, 1], [3, 9], [4, 2], [5, 2], [5, 7]]);
}

#[test]
fn the_store_finds_the_triples_of_a_pattern() {
    let mut store = TripleStore::new();
    store.add_triple([A, RDF_TYPE, C]);
    store.add_triple([B, RDF_TYPE, C]);
    store.add_triple([B, RDF_TYPE, D]);
    store.add_triple([A, OWL_INVERSE_OF, C]);
    store.add_triple([D, RDFS_SUB_CLASS_OF, C]);
    store.sort();
    let sorted = |mut v: Vec<[u64; 3]>| {
        v.sort();
        v
    };
    assert_eq!(
        sorted(store.matching(None, Some(RDF_TYPE), None)),
        vec![[A, RDF_TYPE, C], [B, RDF_TYPE, C], [B, RDF_TYPE, D]]
    );
    assert_eq!(
        sorted(store.matching(Some(B), Some(RDF_TYPE), None)),
        vec![[B, RDF_TYPE, C], [B, RDF_TYPE, D]]
    );
    assert_eq!(
        sorted(store.matching(None, Some(RDF_TYPE), Some(C))),
        vec![[A, RDF_TYPE, C], [B, RDF_TYPE, C]]
    );
    assert_eq!(store.matching(Some(B), Some(RDF_TYPE), Some(D)), vec![[B, RDF_TYPE, D]]);
    assert!(store.matching(Some(C), Some(RDF_TYPE), None).is_empty());
    assert_eq!(
        sorted(store.matching(Some(A), None, None)),
        vec![[A, OWL_INVERSE_OF, C], [A, RDF_TYPE, C]]
    );
    assert_eq!(
        sorted(store.matching(None, None, Some(C))),
        vec![[A, OWL_INVERSE_OF, C], [A, RDF_TYPE, C], [B, RDF_TYPE, C], [D, RDFS_SUB_CLASS_OF, C]]
    );
    assert_eq!(store.matching(None, None, None).len(), 5);
    assert!(store.matching(None, Some(A), None).is_empty());
    assert!(store.matching(None, Some(12345), None).is_empty());
    assert_eq!(store.size(), 5);
}

#[test]
fn merging_appends_the_pairs_of_each_chunk_in_their_order() {
    let mut store = TripleStore::new();
    store.add_triple([C, RDF_TYPE, A]);
    store.add_triple([B, RDFS_SUB_CLASS_OF, A]);
    let mut other = TripleStore::new();
    other.add_triple([D, RDF_TYPE, B]);
    other.add_triple([A, RDF_TYPE, B]);
    other.add_triple([D, RDF_TYPE, B]);
    store.add_all(other);
    assert_eq!(so_of(&store, RDF_TYPE), vec![[C, A], [D, B], [A, B], [D, B]]);
    assert_eq!(so_of(&store, RDFS_SUB_CLASS_OF), vec![[B, A]]);
    assert_eq!(store.slots(), 2);
    assert_eq!(store.size(), 5);
}

#[test]
fn a_range_too_wide_for_a_histogram_is_sorted_without_one() {
    let top = u64::MAX;
    let mut store = TripleStore::new();
    store.add_triple([top, RDF_TYPE, 0]);
    store.add_triple([0, RDF_TYPE, top]);
    store.add_triple([top, RDF_TYPE, 0]);
    store.add_triple([5, RDFS_SUB_CLASS_OF, top]);
    assert_eq!(store.width(), (0, top, 0));
    assert_eq!(store.sort(), 3);
    assert_eq!(so_of(&store, RDF_TYPE), vec![[0, top], [top, 0]]);
    assert_eq!(so_of(&store, RDFS_SUB_CLASS_OF), vec![[5, top]]);
    let slot = property_to_slot(RDF_TYPE);
    assert_eq!(store.os(slot).unwrap().clone(), vec![[0, top], [top, 0]]);
    assert_eq!(store.matching(None, None, Some(top)), vec![[0, RDF_TYPE, top], [5, RDFS_SUB_CLASS_OF, top]]);
}

#[test]
fn a_chunk_sorts_without_a_range() {
    let mut chunk = Chunk::default();
    for (s, o) in [(9, 1), (u64::MAX, 0), (0, 7), (9, 1), (0, 3)] {
        chunk.add_so([s, o]);
        chunk.add_os([o, s]);
    }
    assert_eq!(chunk.so_sort_unranged(), 4);
    assert_eq!(chunk.so(), &vec![[0, 3], [0, 7], [9, 1], [u64::MAX, 0]]);
    assert_eq!(chunk.os(), &vec![[0, u64::MAX], [1, 9], [3, 0], [7, 0]]);
}
