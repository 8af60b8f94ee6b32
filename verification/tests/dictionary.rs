use inferrust::inferray::dictionary::{
    is_property_id, BUILTIN_PROPERTIES, OWL_EQUIVALENT_CLASS, OWL_EQUIVALENT_PROPERTY,
    OWL_INVERSE_OF, RDFS_DOMAIN, RDFS_RANGE, RDFS_SUB_CLASS_OF, RDFS_SUB_PROPERTY_OF, RDF_TYPE,
    START_INDEX,
};
use inferrust::inferray::{NodeDictionary, Space, Term, TermError, TripleStore};

fn iri(text: &str) -> Term {
    Term::new_iri(text).unwrap()
}

fn fresh() -> NodeDictionary {
    NodeDictionary::new(TripleStore::new())
}

#[test]
fn the_built_in_terms_have_the_identifiers_of_their_constants() {
    let dictionary = fresh();
    let expected = [
        ("http://www.w3.org/1999/02/22-rdf-syntax-ns#type", RDF_TYPE),
        ("http://www.w3.org/2000/01/rdf-schema#subClassOf", RDFS_SUB_CLASS_OF),
        ("http://www.w3.org/2002/07/owl#equivalentClass", OWL_EQUIVALENT_CLASS),
        ("http://www.w3.org/2002/07/owl#equivalentProperty", OWL_EQUIVALENT_PROPERTY),
        ("http://www.w3.org/2002/07/owl#inverseOf", OWL_INVERSE_OF),
        ("http://www.w3.org/2000/01/rdf-schema#subPropertyOf", RDFS_SUB_PROPERTY_OF),
        ("http://www.w3.org/2000/01/rdf-schema#domain", RDFS_DOMAIN),
        ("http://www.w3.org/2000/01/rdf-schema#range", RDFS_RANGE),
    ];
    assert_eq!(expected.len(), BUILTIN_PROPERTIES);
    for (text, id) in expected {
        assert_eq!(dictionary.lookup(&iri(text)), Some(id));
        assert!(dictionary.resolve(id).same(&iri(text)));
    }
    assert_eq!(RDF_TYPE, 4294967294);
    assert_eq!(RDFS_RANGE, 4294967287);
}

#[test]
fn interning_twice_gives_the_same_identifier() {
    let mut dictionary = fresh();
    let bart = iri("http://example.org/Bart");
    let first = dictionary.intern(&bart, Space::Resource);
    let second = dictionary.intern(&bart, Space::Resource);
    let third = dictionary.intern(&iri("http://example.org/Bart"), Space::Property);
    assert_eq!(first, START_INDEX + 1);
    assert_eq!(second, first);
    assert_eq!(third, first);
    assert_eq!(dictionary.lookup(&bart), Some(first));
}

#[test]
fn different_terms_get_different_identifiers() {
    let mut dictionary = fresh();
    let a = dictionary.intern(&iri("http://example.org/a"), Space::Resource);
    let b = dictionary.intern(&iri("http://example.org/b"), Space::Resource);
    let p = dictionary.intern(&iri("http://example.org/p"), Space::Property);
    let q = dictionary.intern(&iri("http://example.org/q"), Space::Property);
    assert_eq!(a, START_INDEX + 1);
    assert_eq!(b, START_INDEX + 2);
    assert_eq!(p, START_INDEX - 1 - BUILTIN_PROPERTIES as u64);
    assert_eq!(q, START_INDEX - 2 - BUILTIN_PROPERTIES as u64);
    assert!(is_property_id(p) && is_property_id(q));
    assert!(!is_property_id(a) && !is_property_id(b));
    assert!(!is_property_id(START_INDEX));
}

#[test]
fn a_literal_and_an_iri_of_the_same_text_are_different_terms() {
    let mut dictionary = fresh();
    let as_iri = dictionary.intern(&iri("urn:x"), Space::Resource);
    let as_literal = dictionary.intern(&Term::new_literal("urn:x"), Space::Resource);
    let as_integer = dictionary.intern(
        &Term::new_literal_dt("urn:x", "http://www.w3.org/2001/XMLSchema#integer").unwrap(),
        Space::Resource,
    );
    let as_string = dictionary.intern(
        &Term::new_literal_dt("urn:x", "http://www.w3.org/2001/XMLSchema#string").unwrap(),
        Space::Resource,
    );
    assert_ne!(as_iri, as_literal);
    assert_ne!(as_literal, as_integer);
    assert_ne!(as_iri, as_integer);
    assert_eq!(as_string, as_literal);
}

#[test]
fn a_term_that_was_not_interned_is_not_found() {
    let mut dictionary = fresh();
    assert_eq!(dictionary.lookup(&iri("http://example.org/unseen")), None);
    dictionary.intern(&iri("http://example.org/seen"), Space::Resource);
    assert_eq!(dictionary.lookup(&iri("http://example.org/unseen")), None);
    assert_eq!(dictionary.lookup(&Term::new_literal("http://example.org/seen")), None);
}

#[test]
fn an_identifier_resolves_to_the_term_it_was_issued_to() {
    let mut dictionary = fresh();
    let lisa = iri("http://example.org/Lisa");
    let age = Term::new_literal_dt("8", "http://www.w3.org/2001/XMLSchema#integer").unwrap();
    let id_lisa = dictionary.intern(&lisa, Space::Resource);
    let id_age = dictionary.intern(&age, Space::Resource);
    assert!(dictionary.resolve(id_lisa).same(&lisa));
    assert!(dictionary.resolve(id_age).same(&age));
    assert!(!dictionary.resolve(id_age).same(&lisa));
    assert!(dictionary.is_issued(id_lisa));
    assert!(dictionary.is_issued(RDF_TYPE));
    assert!(!dictionary.is_issued(id_age + 1));
    assert!(!dictionary.is_issued(START_INDEX));
    assert!(!dictionary.is_issued(RDFS_RANGE - 1));
}

#[test]
fn a_new_dictionary_has_room_in_both_spaces() {
    let dictionary = fresh();
    assert!(dictionary.has_room(Space::Resource));
    assert!(dictionary.has_room(Space::Property));
}

#[test]
fn the_dictionary_keeps_the_store_it_was_given() {
    let mut store = TripleStore::new();
    store.add_triple([START_INDEX + 1, RDF_TYPE, START_INDEX + 2]);
    let mut dictionary = NodeDictionary::new(store);
    assert_eq!(dictionary.store().size(), 1);
    dictionary.store_mut().add_triple([START_INDEX + 2, RDF_TYPE, START_INDEX + 1]);
    assert_eq!(dictionary.store().size(), 2);
}

#[test]
fn an_invalid_iri_is_refused_with_its_text() {
    match Term::new_iri("not an <iri>") {
        Err(TermError::InvalidIri(text)) => assert_eq!(text, "not an <iri>"),
        _ => panic!("expected an invalid IRI"),
    }
    assert!(matches!(Term::new_iri("http://example.org/a b"), Err(TermError::InvalidIri(_))));
}

#[test]
fn a_valid_iri_makes_an_iri_term() {
    let term = Term::new_iri("http://example.org/Bart").unwrap();
    assert!(term.is_iri());
    assert_eq!(term.value(), "http://example.org/Bart");
    assert!(matches!(term, Term::Iri(_)));
    assert!(Term::new_iri("relative/path#frag").is_ok());
}

#[test]
fn a_literal_needs_a_valid_datatype() {
    match Term::new_literal_dt("12", "no datatype {}") {
        Err(TermError::InvalidDatatype(text)) => assert_eq!(text, "no datatype {}"),
        _ => panic!("expected an invalid datatype"),
    }
    let term = Term::new_literal_dt("12", "http://www.w3.org/2001/XMLSchema#integer").unwrap();
    assert!(!term.is_iri());
    assert_eq!(term.value(), "12");
    match term {
        Term::Literal(lexical, datatype) => {
            assert_eq!(lexical, "12");
            assert_eq!(datatype, "http://www.w3.org/2001/XMLSchema#integer");
        }
        _ => panic!("expected a literal"),
    }
}

#[test]
fn a_plain_literal_has_the_string_datatype() {
    match Term::new_literal("hello") {
        Term::Literal(lexical, datatype) => {
            assert_eq!(lexical, "hello");
            assert_eq!(datatype, "http://www.w3.org/2001/XMLSchema#string");
        }
        _ => panic!("expected a literal"),
    }
}

#[test]
fn the_outcome_of_a_check_decides_the_term() {
    assert!(matches!(Term::iri_checked(String::from("x y"), true), Ok(Term::Iri(_))));
    match Term::iri_checked(String::from("http://example.org/"), false) {
        Err(TermError::InvalidIri(text)) => assert_eq!(text, "http://example.org/"),
        _ => panic!("expected an invalid IRI"),
    }
    assert!(matches!(
        Term::literal_checked(String::from("1"), String::from("d"), true),
        Ok(Term::Literal(_, _))
    ));
    match Term::literal_checked(String::from("1"), String::from("d"), false) {
        Err(TermError::InvalidDatatype(text)) => assert_eq!(text, "d"),
        _ => panic!("expected an invalid datatype"),
    }
}

#[test]
fn terms_compare_by_kind_text_and_datatype() {
    let a = iri("http://example.org/a");
    assert!(a.same(&a.copy()));
    assert!(a.same(&iri("http://example.org/a")));
    assert!(!a.same(&iri("http://example.org/b")));
    assert!(!a.same(&Term::new_literal("http://example.org/a")));
    let one = Term::new_literal_dt("1", "http://www.w3.org/2001/XMLSchema#integer").unwrap();
    let uno = Term::new_literal_dt("1", "http://www.w3.org/2001/XMLSchema#byte").unwrap();
    assert!(!one.same(&uno));
    assert!(one.same(&one.copy()));
}
