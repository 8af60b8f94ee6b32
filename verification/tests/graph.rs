use inferrust::inferray::dictionary::{
    is_property_id, OWL_INVERSE_OF, RDFS_DOMAIN, RDFS_SUB_CLASS_OF, RDF_TYPE, START_INDEX,
};
use inferrust::inferray::graph::{contains_prop_in_s_or_o, Placement};
use inferrust::inferray::{InfGraph, LoadError, Term, TermError, Triple};
use inferrust::rules::{Rule, RuleSet};

const RDF: &str = "http://www.w3.org/1999/02/22-rdf-syntax-ns#";
const RDFS: &str = "http://www.w3.org/2000/01/rdf-schema#";
const OWL: &str = "http://www.w3.org/2002/07/owl#";
const EX: &str = "http://example.org/";

fn iri(prefix: &str, name: &str) -> Term {
    Term::new_iri(&format!("{}{}", prefix, name)).unwrap()
}

fn triple(s: Term, p: Term, o: Term) -> Triple {
    Triple { subject: s, predicate: p, object: o }
}

fn ex(s: &str, p: &str, o: &str) -> Triple {
    triple(iri(EX, s), iri(EX, p), iri(EX, o))
}

fn typed(s: &str, class: &str) -> Triple {
    triple(iri(EX, s), iri(RDF, "type"), iri(EX, class))
}

fn subclass(sub: &str, sup: &str) -> Triple {
    triple(iri(EX, sub), iri(RDFS, "subClassOf"), iri(EX, sup))
}

fn owl(s: &str, p: &str, o: &str) -> Triple {
    triple(iri(EX, s), iri(OWL, p), iri(EX, o))
}

fn text(t: &Triple) -> String {
    format!("{} {} {}", t.subject.value(), t.predicate.value(), t.object.value())
}

fn texts(triples: &[Triple]) -> Vec<String> {
    let mut all: Vec<String> = triples.iter().map(text).collect();
    all.sort();
    all
}

fn holds(graph: &InfGraph, t: &Triple) -> bool {
    graph.triples().iter().any(|u| {
        u.subject.same(&t.subject) && u.predicate.same(&t.predicate) && u.object.same(&t.object)
    })
}

fn closure_of(triples: &Vec<Triple>) -> InfGraph {
    let mut graph = InfGraph::load(triples);
    let rules = <Vec<Rule> as RuleSet>::new();
    rules.fire_all(&mut graph);
    graph
}

fn family() -> Vec<Triple> {
    vec![
        typed("Bart", "human"),
        typed("Lisa", "human"),
        subclass("human", "mammal"),
        subclass("mammal", "animal"),
        subclass("animal", "entity"),
        subclass("entity", "animal"),
        ex("Bart", "enfant", "Lisa"),
        owl("enfant", "inverseOf", "parent"),
        owl("progeniture", "equivalentProperty", "enfant"),
    ]
}

#[test]
fn loading_keeps_every_triple_once() {
    let input = vec![
        typed("Bart", "human"),
        ex("Bart", "enfant", "Lisa"),
        typed("Bart", "human"),
        subclass("human", "mammal"),
    ];
    let graph = InfGraph::load(&input);
    assert_eq!(graph.size(), 3);
    let out = graph.triples();
    assert_eq!(out.len(), 3);
    assert_eq!(
        texts(&out),
        texts(&[typed("Bart", "human"), ex("Bart", "enfant", "Lisa"), subclass("human", "mammal")])
    );
    assert_eq!(texts(&graph.triples()), texts(&out));
}

#[test]
fn loading_nothing_gives_an_empty_graph() {
    let mut graph = InfGraph::load(&Vec::new());
    assert_eq!(graph.size(), 0);
    assert!(graph.triples().is_empty());
    let rules = <Vec<Rule> as RuleSet>::new();
    rules.fire_all(&mut graph);
    assert_eq!(graph.size(), 0);
}

#[test]
fn predicates_and_the_terms_of_property_statements_are_properties() {
    let input = vec![
        ex("Bart", "enfant", "Lisa"),
        owl("enfant", "inverseOf", "parent"),
        ex("parent", "label", "Lisa"),
        triple(iri(EX, "age"), iri(RDFS, "domain"), iri(EX, "human")),
        ex("Lisa", "knows", "enfant"),
    ];
    let graph = InfGraph::load(&input);
    let id = |name: &str| graph.dictionary.lookup(&iri(EX, name)).unwrap();
    assert!(is_property_id(id("enfant")));
    assert!(is_property_id(id("parent")));
    assert!(is_property_id(id("label")));
    assert!(is_property_id(id("age")));
    assert!(is_property_id(id("knows")));
    assert!(!is_property_id(id("Bart")));
    assert!(!is_property_id(id("Lisa")));
    assert!(!is_property_id(id("human")));
    assert_eq!(graph.dictionary.lookup(&iri(OWL, "inverseOf")), Some(OWL_INVERSE_OF));
    assert_eq!(graph.dictionary.lookup(&iri(RDFS, "domain")), Some(RDFS_DOMAIN));
    assert_eq!(graph.size(), 5);
}

#[test]
fn the_predicate_of_a_statement_tells_where_its_terms_go() {
    assert!(matches!(contains_prop_in_s_or_o(RDF_TYPE), Placement::Neither));
    assert!(matches!(contains_prop_in_s_or_o(RDFS_SUB_CLASS_OF), Placement::Neither));
    assert!(matches!(contains_prop_in_s_or_o(RDFS_DOMAIN), Placement::Subject));
    assert!(matches!(contains_prop_in_s_or_o(OWL_INVERSE_OF), Placement::Both));
    assert!(matches!(contains_prop_in_s_or_o(START_INDEX + 7), Placement::Neither));
}

#[test]
fn encoding_interns_the_terms_of_a_triple() {
    let mut graph = InfGraph::load(&Vec::new());
    let first = graph.encode_triple(&typed("Bart", "human"));
    assert_eq!(first, [START_INDEX + 1, RDF_TYPE, START_INDEX + 2]);
    let second = graph.encode_triple(&owl("enfant", "inverseOf", "parent"));
    assert_eq!(second, [START_INDEX - 9, OWL_INVERSE_OF, START_INDEX - 10]);
    let third = graph.encode_triple(&ex("Bart", "enfant", "human"));
    assert_eq!(third, [START_INDEX + 1, START_INDEX - 9, START_INDEX + 2]);
    assert_eq!(graph.size(), 0);
}

#[test]
fn the_triples_of_one_predicate_are_found_by_its_term() {
    let graph = InfGraph::load(&family());
    let of_type = graph.triples_with_p(&iri(RDF, "type"));
    assert_eq!(texts(&of_type), texts(&[typed("Bart", "human"), typed("Lisa", "human")]));
    let of_enfant = graph.triples_with_p(&iri(EX, "enfant"));
    assert_eq!(texts(&of_enfant), texts(&[ex("Bart", "enfant", "Lisa")]));
    assert!(graph.triples_with_p(&iri(EX, "parent")).is_empty());
    assert!(graph.triples_with_p(&iri(EX, "Bart")).is_empty());
    assert!(graph.triples_with_p(&iri(EX, "unknown")).is_empty());
    assert!(graph.triples_with_p(&Term::new_literal("enfant")).is_empty());
}

#[test]
fn one_pass_derives_membership_in_the_superclass() {
    let graph = closure_of(&vec![subclass("human", "mammal"), typed("Bart", "human")]);
    assert!(holds(&graph, &typed("Bart", "mammal")));
    assert_eq!(graph.size(), 3);
}

#[test]
fn one_pass_derives_the_inverse_statement() {
    let graph = closure_of(&vec![owl("enfant", "inverseOf", "parent"), ex("Bart", "enfant", "Lisa")]);
    assert!(holds(&graph, &ex("Lisa", "parent", "Bart")));
    assert_eq!(graph.size(), 3);
}

#[test]
fn the_closure_holds_the_statement_of_the_equivalent_property() {
    let graph = closure_of(&vec![
        owl("progeniture", "equivalentProperty", "enfant"),
        ex("Bart", "enfant", "Lisa"),
    ]);
    assert!(holds(&graph, &ex("Bart", "progeniture", "Lisa")));
    assert_eq!(graph.size(), 3);
}

#[test]
fn the_closure_of_the_family_follows_the_subclass_chain() {
    let graph = closure_of(&family());
    assert!(holds(&graph, &typed("Bart", "mammal")));
    assert!(holds(&graph, &typed("Bart", "animal")));
    assert!(holds(&graph, &typed("Bart", "entity")));
    assert!(holds(&graph, &typed("Lisa", "entity")));
    assert!(holds(&graph, &ex("Lisa", "parent", "Bart")));
    assert!(holds(&graph, &ex("Bart", "progeniture", "Lisa")));
    assert!(!holds(&graph, &subclass("human", "animal")));
    assert!(!holds(&graph, &ex("Lisa", "enfant", "Bart")));
    // 9 facts, 6 memberships, 1 inverse, 1 equivalent
    assert_eq!(graph.size(), 17);
    assert_eq!(graph.triples().len(), 17);
}

#[test]
fn firing_again_on_a_closure_changes_nothing() {
    let mut graph = closure_of(&family());
    let size = graph.size();
    let before = texts(&graph.triples());
    let rules = <Vec<Rule> as RuleSet>::new();
    rules.fire_all(&mut graph);
    assert_eq!(graph.size(), size);
    assert_eq!(texts(&graph.triples()), before);
}

#[test]
fn the_order_of_the_rules_does_not_change_the_closure() {
    let forward = closure_of(&family());
    let mut graph = InfGraph::load(&family());
    let reversed = vec![Rule::PrpEqp, Rule::PrpInv, Rule::CaxEqc2, Rule::CaxEqc1, Rule::CaxSco];
    reversed.fire_all(&mut graph);
    assert_eq!(texts(&graph.triples()), texts(&forward.triples()));
}

#[test]
fn without_rules_nothing_is_derived() {
    let mut graph = InfGraph::load(&family());
    let none: Vec<Rule> = Vec::new();
    none.fire_all(&mut graph);
    assert_eq!(graph.size(), 9);
}

#[test]
fn the_rule_set_lists_the_rules_in_order() {
    let rules = <Vec<Rule> as RuleSet>::new();
    assert_eq!(rules.len(), 5);
    assert!(matches!(rules[0], Rule::CaxSco));
    assert!(matches!(rules[1], Rule::CaxEqc1));
    assert!(matches!(rules[2], Rule::CaxEqc2));
    assert!(matches!(rules[3], Rule::PrpInv));
    assert!(matches!(rules[4], Rule::PrpEqp));
}

#[test]
fn literals_are_stored_and_come_back() {
    let age = triple(
        iri(EX, "Bart"),
        iri(EX, "age"),
        Term::new_literal_dt("10", "http://www.w3.org/2001/XMLSchema#integer").unwrap(),
    );
    let name = triple(iri(EX, "Bart"), iri(EX, "name"), Term::new_literal("Bart"));
    let graph = InfGraph::load(&vec![age, name]);
    let out = graph.triples_with_p(&iri(EX, "age"));
    assert_eq!(out.len(), 1);
    match &out[0].object {
        Term::Literal(lexical, datatype) => {
            assert_eq!(lexical, "10");
            assert_eq!(datatype, "http://www.w3.org/2001/XMLSchema#integer");
        }
        _ => panic!("expected a literal"),
    }
    assert_eq!(graph.size(), 2);
}

#[test]
fn the_graph_answers_patterns_of_terms() {
    let mut graph = closure_of(&family());
    let bart = iri(EX, "Bart");
    let lisa = iri(EX, "Lisa");
    let kind = iri(RDF, "type");
    let animal = iri(EX, "animal");
    let of_bart = graph.triples_matching(Some(&bart), None, None);
    assert_eq!(
        texts(&of_bart),
        texts(&[
            typed("Bart", "human"),
            typed("Bart", "mammal"),
            typed("Bart", "animal"),
            typed("Bart", "entity"),
            ex("Bart", "enfant", "Lisa"),
            ex("Bart", "progeniture", "Lisa"),
        ])
    );
    let animals = graph.triples_matching(None, Some(&kind), Some(&animal));
    assert_eq!(texts(&animals), texts(&[typed("Bart", "animal"), typed("Lisa", "animal")]));
    let to_lisa = graph.triples_matching(None, None, Some(&lisa));
    assert_eq!(
        texts(&to_lisa),
        texts(&[ex("Bart", "enfant", "Lisa"), ex("Bart", "progeniture", "Lisa")])
    );
    let exact = graph.triples_matching(Some(&lisa), Some(&iri(EX, "parent")), Some(&bart));
    assert_eq!(texts(&exact), texts(&[ex("Lisa", "parent", "Bart")]));
    assert!(graph.triples_matching(Some(&iri(EX, "Maggie")), None, None).is_empty());
    assert!(graph.triples_matching(Some(&bart), Some(&kind), Some(&lisa)).is_empty());
    assert!(graph.triples_matching(None, Some(&bart), None).is_empty());
    assert_eq!(graph.triples_matching(None, None, None).len(), 17);
    assert_eq!(graph.size(), 17);
}

#[test]
fn a_malformed_term_stops_the_load_and_is_reported() {
    let bad = triple(iri(EX, "a"), Term::Iri(String::from("not an iri")), iri(EX, "b"));
    let worse = triple(Term::Iri(String::from("<>")), iri(EX, "p"), iri(EX, "b"));
    let input = vec![typed("Bart", "human"), bad, worse];
    match InfGraph::load_checked(&input) {
        Err(LoadError::MalformedTerm { index, error: TermError::InvalidIri(text) }) => {
            assert_eq!(index, 1);
            assert_eq!(text, "not an iri");
        }
        _ => panic!("expected a malformed term"),
    }
}

#[test]
fn the_first_malformed_term_of_a_triple_is_the_one_reported() {
    let input = vec![triple(
        iri(EX, "a"),
        iri(EX, "p"),
        Term::Literal(String::from("1"), String::from("no datatype {}")),
    )];
    match InfGraph::load_checked(&input) {
        Err(LoadError::MalformedTerm { index, error: TermError::InvalidDatatype(text) }) => {
            assert_eq!(index, 0);
            assert_eq!(text, "no datatype {}");
        }
        _ => panic!("expected a malformed datatype"),
    }
    let both = triple(
        Term::Iri(String::from("first bad")),
        iri(EX, "p"),
        Term::Iri(String::from("second bad")),
    );
    match both.check() {
        Err(TermError::InvalidIri(text)) => assert_eq!(text, "first bad"),
        _ => panic!("expected the subject"),
    }
}

#[test]
fn a_checked_load_of_well_formed_triples_is_a_load() {
    let graph = InfGraph::load_checked(&family()).unwrap();
    assert_eq!(graph.size(), 9);
    assert_eq!(texts(&graph.triples()), texts(&family()));
    assert!(InfGraph::load_checked(&Vec::new()).unwrap().triples().is_empty());
}

#[test]
fn a_term_made_without_a_check_can_be_checked() {
    assert!(Term::Iri(String::from("http://example.org/ok")).check().is_ok());
    assert!(Term::Literal(String::from("anything at all <>"), String::from("urn:dt")).check().is_ok());
    assert!(matches!(
        Term::Iri(String::from("a b")).check(),
        Err(TermError::InvalidIri(_))
    ));
    assert!(matches!(
        Term::Literal(String::from("x"), String::from("a b")).check(),
        Err(TermError::InvalidDatatype(_))
    ));
}

#[test]
fn the_walk_goes_chunk_after_chunk_and_can_be_repeated() {
    let graph = InfGraph::load(&vec![
        subclass("human", "mammal"),
        typed("Lisa", "human"),
        typed("Bart", "human"),
    ]);
    let first: Vec<String> = graph.triples().iter().map(text).collect();
    let second: Vec<String> = graph.triples().iter().map(text).collect();
    assert_eq!(first, second);
    // `rdf:type` has slot 0 and `rdfs:subClassOf` slot 1; `Lisa` was interned first
    assert_eq!(
        first,
        vec![text(&typed("Lisa", "human")), text(&typed("Bart", "human")), text(&subclass("human", "mammal"))]
    );
    let of_type: Vec<String> = graph.triples_with_p(&iri(RDF, "type")).iter().map(text).collect();
    assert_eq!(of_type, vec![text(&typed("Lisa", "human")), text(&typed("Bart", "human"))]);
}
