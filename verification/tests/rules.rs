use inferrust::inferray::dictionary::{
    property_to_slot, OWL_EQUIVALENT_CLASS, OWL_EQUIVALENT_PROPERTY, OWL_INVERSE_OF,
    RDFS_SUB_CLASS_OF, RDF_TYPE, START_INDEX,
};
use inferrust::inferray::TripleStore;
use inferrust::rules::alpha_rules::{apply_alpha_rule, Position, Projection};
use inferrust::rules::delta_rules::apply_delta_rule;
use inferrust::inferray::{InfGraph, NodeDictionary};
use inferrust::rules::{Rule, RuleSet, CAX_EQC1, CAX_EQC2, CAX_SCO, PRP_EQP_1_2, PRP_INV_1_2};

const BART: u64 = START_INDEX + 1;
const LISA: u64 = START_INDEX + 2;
const HUMAN: u64 = START_INDEX + 3;
const MAMMAL: u64 = START_INDEX + 4;
const PERSON: u64 = START_INDEX + 5;
const ENFANT: u64 = START_INDEX - 9;
const PARENT: u64 = START_INDEX - 10;
const PROGENITURE: u64 = START_INDEX - 11;

fn store_of(triples: &[[u64; 3]]) -> TripleStore {
    let mut store = TripleStore::new();
    for t in triples {
        store.add_triple(*t);
    }
    store.sort();
    store
}

fn content(mut store: TripleStore) -> Vec<[u64; 3]> {
    store.sort();
    let mut all = Vec::new();
    for slot in 0..store.slots() {
        let predicate = START_INDEX - 1 - slot as u64;
        for pair in store.chunk(slot).unwrap().so() {
            all.push([pair[0], predicate, pair[1]]);
        }
    }
    all.sort();
    all
}

#[test]
fn subclass_rule_carries_membership_to_the_superclass() {
    let store = store_of(&[[HUMAN, RDFS_SUB_CLASS_OF, MAMMAL], [BART, RDF_TYPE, HUMAN]]);
    assert_eq!(content(CAX_SCO(&store)), vec![[BART, RDF_TYPE, MAMMAL]]);
}

#[test]
fn subclass_rule_concludes_nothing_without_a_matching_membership() {
    let store = store_of(&[[HUMAN, RDFS_SUB_CLASS_OF, MAMMAL], [BART, RDF_TYPE, PERSON]]);
    assert!(content(CAX_SCO(&store)).is_empty());
    let only_schema = store_of(&[[HUMAN, RDFS_SUB_CLASS_OF, MAMMAL]]);
    assert!(content(CAX_SCO(&only_schema)).is_empty());
    assert!(content(CAX_SCO(&TripleStore::new())).is_empty());
}

#[test]
fn equivalent_class_rules_carry_membership_both_ways() {
    let store = store_of(&[
        [HUMAN, OWL_EQUIVALENT_CLASS, PERSON],
        [BART, RDF_TYPE, HUMAN],
        [LISA, RDF_TYPE, PERSON],
    ]);
    assert_eq!(content(CAX_EQC1(&store)), vec![[BART, RDF_TYPE, PERSON]]);
    assert_eq!(content(CAX_EQC2(&store)), vec![[LISA, RDF_TYPE, HUMAN]]);
}

#[test]
fn inverse_rule_exchanges_subject_and_object() {
    let store = store_of(&[[ENFANT, OWL_INVERSE_OF, PARENT], [BART, ENFANT, LISA]]);
    assert_eq!(content(PRP_INV_1_2(&store)), vec![[LISA, PARENT, BART]]);
}

#[test]
fn inverse_rule_works_from_either_side_of_the_statement() {
    let store = store_of(&[
        [ENFANT, OWL_INVERSE_OF, PARENT],
        [BART, ENFANT, LISA],
        [HUMAN, PARENT, MAMMAL],
    ]);
    assert_eq!(
        content(PRP_INV_1_2(&store)),
        vec![[LISA, PARENT, BART], [MAMMAL, ENFANT, HUMAN]]
    );
}

#[test]
fn equivalent_property_rule_keeps_subject_and_object() {
    let store = store_of(&[[PROGENITURE, OWL_EQUIVALENT_PROPERTY, ENFANT], [BART, ENFANT, LISA]]);
    assert_eq!(content(PRP_EQP_1_2(&store)), vec![[BART, PROGENITURE, LISA]]);
}

#[test]
fn a_statement_between_resources_rewrites_nothing() {
    let store = store_of(&[[HUMAN, OWL_INVERSE_OF, MAMMAL], [BART, ENFANT, LISA]]);
    assert!(content(PRP_INV_1_2(&store)).is_empty());
    let half = store_of(&[[ENFANT, OWL_INVERSE_OF, MAMMAL], [BART, ENFANT, LISA]]);
    assert!(content(PRP_INV_1_2(&half)).is_empty());
}

#[test]
fn a_property_that_is_its_own_inverse_is_symmetric() {
    let store = store_of(&[[ENFANT, OWL_INVERSE_OF, ENFANT], [BART, ENFANT, LISA]]);
    assert_eq!(content(PRP_INV_1_2(&store)), vec![[LISA, ENFANT, BART]]);
}

#[test]
fn a_rule_on_a_predicate_without_chunk_concludes_nothing() {
    let store = store_of(&[[BART, RDF_TYPE, HUMAN]]);
    assert!(content(PRP_INV_1_2(&store)).is_empty());
    assert!(content(PRP_EQP_1_2(&store)).is_empty());
    assert!(content(CAX_SCO(&store)).is_empty());
    assert!(content(apply_delta_rule(&store, 1000, true)).is_empty());
    assert!(content(apply_delta_rule(&store, usize::MAX, false)).is_empty());
}

#[test]
fn a_join_takes_the_conclusion_from_the_named_positions() {
    let store = store_of(&[
        [HUMAN, RDFS_SUB_CLASS_OF, MAMMAL],
        [PERSON, RDFS_SUB_CLASS_OF, HUMAN],
        [BART, RDF_TYPE, HUMAN],
    ]);
    // subclass of a subclass: join the object of the first with the subject of the second
    let transitive = Projection {
        subject: Position::FirstSubject,
        predicate: Position::FirstPredicate,
        object: Position::SecondObject,
        left: Position::FirstObject,
        right: Position::SecondSubject,
    };
    let slot = property_to_slot(RDFS_SUB_CLASS_OF);
    assert_eq!(
        content(apply_alpha_rule(&store, slot, slot, transitive)),
        vec![[PERSON, RDFS_SUB_CLASS_OF, MAMMAL]]
    );
    assert!(content(apply_alpha_rule(&store, slot, 500, transitive)).is_empty());
    assert!(content(apply_alpha_rule(&store, usize::MAX, slot, transitive)).is_empty());
}

#[test]
fn a_join_whose_conclusion_has_no_property_as_predicate_concludes_nothing() {
    let store = store_of(&[[HUMAN, RDFS_SUB_CLASS_OF, MAMMAL], [BART, RDF_TYPE, HUMAN]]);
    let odd = Projection {
        subject: Position::SecondSubject,
        predicate: Position::FirstObject,
        object: Position::FirstSubject,
        left: Position::FirstSubject,
        right: Position::SecondObject,
    };
    let out = apply_alpha_rule(
        &store,
        property_to_slot(RDFS_SUB_CLASS_OF),
        property_to_slot(RDF_TYPE),
        odd,
    );
    assert!(content(out).is_empty());
}

#[test]
fn a_rule_value_fires_its_rule() {
    let store = store_of(&[
        [HUMAN, RDFS_SUB_CLASS_OF, MAMMAL],
        [BART, RDF_TYPE, HUMAN],
        [ENFANT, OWL_INVERSE_OF, PARENT],
        [BART, ENFANT, LISA],
    ]);
    assert_eq!(content(Rule::CaxSco.fire(&store)), vec![[BART, RDF_TYPE, MAMMAL]]);
    assert_eq!(content(Rule::PrpInv.fire(&store)), vec![[LISA, PARENT, BART]]);
    assert!(content(Rule::CaxEqc1.fire(&store)).is_empty());
    assert!(content(Rule::CaxEqc2.fire(&store)).is_empty());
    assert!(content(Rule::PrpEqp.fire(&store)).is_empty());
    assert_eq!(store.size(), 4);
}

fn next(seed: &mut u64) -> u64 {
    *seed = seed.wrapping_mul(6364136223846793005).wrapping_add(1442695040888963407);
    *seed >> 33
}

/// One round of the five rules, written out naively.
fn naive_round(facts: &Vec<[u64; 3]>) -> Vec<[u64; 3]> {
    let mut out = facts.clone();
    for a in facts {
        for b in facts {
            if b[1] == RDF_TYPE {
                if a[1] == RDFS_SUB_CLASS_OF && a[0] == b[2] {
                    out.push([b[0], RDF_TYPE, a[2]]);
                }
                if a[1] == OWL_EQUIVALENT_CLASS && a[0] == b[2] {
                    out.push([b[0], RDF_TYPE, a[2]]);
                }
                if a[1] == OWL_EQUIVALENT_CLASS && a[2] == b[2] {
                    out.push([b[0], RDF_TYPE, a[0]]);
                }
            }
            for (schema, invert) in [(OWL_INVERSE_OF, true), (OWL_EQUIVALENT_PROPERTY, false)] {
                if a[1] == schema {
                    for (from, to) in [(a[0], a[2]), (a[2], a[0])] {
                        if b[1] == from && to < START_INDEX {
                            out.push(if invert { [b[2], to, b[0]] } else { [b[0], to, b[2]] });
                        }
                    }
                }
            }
        }
    }
    out.sort();
    out.dedup();
    out
}

fn naive_closure(facts: &Vec<[u64; 3]>) -> Vec<[u64; 3]> {
    let mut current = facts.clone();
    current.sort();
    current.dedup();
    loop {
        let grown = naive_round(&current);
        if grown.len() == current.len() {
            return current;
        }
        current = grown;
    }
}

#[test]
fn the_closure_agrees_with_a_naive_closure_on_many_graphs() {
    let predicates = [
        RDF_TYPE,
        RDFS_SUB_CLASS_OF,
        OWL_EQUIVALENT_CLASS,
        OWL_EQUIVALENT_PROPERTY,
        OWL_INVERSE_OF,
        ENFANT,
        PARENT,
        PROGENITURE,
    ];
    let nodes = [BART, LISA, HUMAN, MAMMAL, PERSON, ENFANT, PARENT, PROGENITURE];
    let mut seed: u64 = 7;
    for round in 0..60 {
        let len = (next(&mut seed) % 14) as usize;
        let mut facts: Vec<[u64; 3]> = Vec::new();
        for _ in 0..len {
            let p = predicates[(next(&mut seed) % 8) as usize];
            let s = nodes[(next(&mut seed) % 8) as usize];
            let o = nodes[(next(&mut seed) % 8) as usize];
            facts.push([s, p, o]);
        }
        let mut store = TripleStore::new();
        for t in &facts {
            store.add_triple(*t);
        }
        store.sort();
        // a dictionary that has issued every identifier in use
        let mut dictionary = NodeDictionary::new(store);
        for name in ["enfant", "parent", "progeniture"] {
            let term = inferrust::inferray::Term::Iri(format!("urn:p:{}", name));
            dictionary.intern(&term, inferrust::inferray::Space::Property);
        }
        for name in ["Bart", "Lisa", "human", "mammal", "person"] {
            let term = inferrust::inferray::Term::Iri(format!("urn:r:{}", name));
            dictionary.intern(&term, inferrust::inferray::Space::Resource);
        }
        let mut graph = InfGraph { dictionary };
        let rules = <Vec<Rule> as RuleSet>::new();
        rules.fire_all(&mut graph);
        let expected = naive_closure(&facts);
        assert_eq!(graph.size(), expected.len(), "round {}", round);
        let mut got = graph.dictionary.store_mut().matching(None, None, None);
        got.sort();
        assert_eq!(got, expected, "round {}", round);
    }
}

#[test]
fn a_rule_lists_its_conclusions_in_the_order_it_draws_them() {
    // built without sorting, so the chunks keep the order of insertion
    let mut store = TripleStore::new();
    store.add_triple([ENFANT, OWL_INVERSE_OF, PARENT]);
    store.add_triple([LISA, ENFANT, BART]);
    store.add_triple([BART, ENFANT, LISA]);
    store.add_triple([BART, ENFANT, LISA]);
    let out = PRP_INV_1_2(&store);
    assert_eq!(out.slots(), property_to_slot(PARENT) + 1);
    assert_eq!(out.size(), 3);
    assert_eq!(
        out.chunk(property_to_slot(PARENT)).unwrap().so(),
        &vec![[BART, LISA], [LISA, BART], [LISA, BART]]
    );
    for slot in 0..property_to_slot(PARENT) {
        assert!(out.chunk(slot).unwrap().so().is_empty());
    }
}

#[test]
fn the_inverse_example_fills_one_chunk_with_one_pair() {
    // the properties of slots 0, 1 and 2, with slot 0 standing as the schema predicate
    let schema = RDF_TYPE;
    let first = RDFS_SUB_CLASS_OF;
    let second = OWL_EQUIVALENT_CLASS;
    let mut store = TripleStore::new();
    store.add_triple([first, schema, second]);
    store.add_triple([7, first, 8]);
    let inverse = apply_delta_rule(&store, 0, true);
    assert_eq!(inverse.slots(), 3);
    assert_eq!(inverse.size(), 1);
    assert_eq!(inverse.chunk(2).unwrap().so(), &vec![[8, 7]]);
    assert!(inverse.chunk(0).unwrap().so().is_empty());
    assert!(inverse.chunk(1).unwrap().so().is_empty());
    let mut other = TripleStore::new();
    other.add_triple([second, schema, first]);
    other.add_triple([7, first, 8]);
    let same = apply_delta_rule(&other, 0, false);
    assert_eq!(same.slots(), 3);
    assert_eq!(same.size(), 1);
    assert_eq!(same.chunk(2).unwrap().so(), &vec![[7, 8]]);
}

#[test]
fn a_rule_without_its_chunk_returns_a_store_without_slots() {
    let store = store_of(&[[BART, RDF_TYPE, HUMAN]]);
    let delta = apply_delta_rule(&store, 4, true);
    assert_eq!(delta.slots(), 0);
    assert_eq!(delta.size(), 0);
    let rule = Projection {
        subject: Position::SecondSubject,
        predicate: Position::SecondPredicate,
        object: Position::FirstObject,
        left: Position::FirstSubject,
        right: Position::SecondObject,
    };
    let alpha = apply_alpha_rule(&store, 1, 0, rule);
    assert_eq!(alpha.slots(), 0);
    assert_eq!(alpha.size(), 0);
}

#[test]
fn the_subclass_example_fills_the_chunk_of_type_with_one_pair() {
    let mut store = TripleStore::new();
    store.add_triple([20, RDF_TYPE, 10]);
    store.add_triple([10, RDFS_SUB_CLASS_OF, 11]);
    let out = CAX_SCO(&store);
    assert_eq!(out.slots(), 1);
    assert_eq!(out.size(), 1);
    assert_eq!(out.chunk(0).unwrap().so(), &vec![[20, 11]]);
}
