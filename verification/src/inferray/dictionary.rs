//! Term identifiers and the dictionary that issues them.
//!
//! Identifiers are 64-bit integers split around `START_INDEX`: properties
//! count down from just below it, resources count up from just above it. Both
//! spaces therefore stay close to the pivot, which keeps the range of values
//! that the sorter has to span narrow.

use crate::inferray::store::TripleStore;
use vstd::hash_map::StringHashMap;
use vstd::prelude::*;

verus! {

/// The pivot between the two identifier spaces; no term has this identifier.
pub const START_INDEX: u64 = 0xFFFF_FFFF;

/// Identifier of `rdf:type`, the first property that a dictionary registers.
pub const RDF_TYPE: u64 = START_INDEX - 1;

/// Identifier of `rdfs:subClassOf`.
pub const RDFS_SUB_CLASS_OF: u64 = START_INDEX - 2;

/// Identifier of `owl:equivalentClass`.
pub const OWL_EQUIVALENT_CLASS: u64 = START_INDEX - 3;

/// Identifier of `owl:equivalentProperty`.
pub const OWL_EQUIVALENT_PROPERTY: u64 = START_INDEX - 4;

/// Identifier of `owl:inverseOf`.
pub const OWL_INVERSE_OF: u64 = START_INDEX - 5;

/// Identifier of `rdfs:subPropertyOf`.
pub const RDFS_SUB_PROPERTY_OF: u64 = START_INDEX - 6;

/// Identifier of `rdfs:domain`.
pub const RDFS_DOMAIN: u64 = START_INDEX - 7;

/// Identifier of `rdfs:range`.
pub const RDFS_RANGE: u64 = START_INDEX - 8;

/// How many properties every dictionary registers when it is made.
pub const BUILTIN_PROPERTIES: usize = 8;

/// `id` lies in the property space.
pub open spec fn is_property(id: u64) -> bool {
    id < START_INDEX
}

/// `id` lies in the resource space.
pub open spec fn is_resource(id: u64) -> bool {
    id > START_INDEX
}

/// The store slot of the property `id`: the first property issued gets
/// slot 0, the next slot 1, and so on.
pub open spec fn slot_of(id: u64) -> int {
    START_INDEX - 1 - id
}

/// The property that is kept in store slot `slot`.
pub open spec fn property_at(slot: int) -> u64 {
    (START_INDEX - 1 - slot) as u64
}

/// The two conversions undo each other on the property space.
pub proof fn lemma_slot_roundtrip(id: u64, slot: int)
    ensures
        is_property(id) ==> 0 <= slot_of(id) < START_INDEX && property_at(slot_of(id)) == id,
        0 <= slot < START_INDEX ==> is_property(property_at(slot)) && slot_of(property_at(slot))
            == slot,
{
}

/// Tells the property space from the resource space.
pub fn is_property_id(id: u64) -> (b: bool)
    ensures
        b == is_property(id),
{
    id < START_INDEX
}

/// Converts a property identifier to its store slot.
pub fn property_to_slot(id: u64) -> (slot: usize)
    requires
        is_property(id),
    ensures
        slot == slot_of(id),
{
    (START_INDEX - 1 - id) as usize
}

/// Converts a store slot back to the property identifier kept there.
pub fn slot_to_property(slot: usize) -> (id: u64)
    requires
        slot < START_INDEX,
    ensures
        id == property_at(slot as int),
        is_property(id),
{
    START_INDEX - 1 - slot as u64
}


/// Whether a text is a valid IRI reference, absolute or relative, by the
/// grammar of RFC 3987 as sophia checks it.
pub uninterp spec fn iri_ref_is_valid(text: Seq<char>) -> bool;

/// Asks `sophia::term::iri::is_valid_iri_ref`, which matches the text
/// against the two patterns that sophia compiled from the grammar of
/// RFC 3987. The answer depends on the text alone; the contract gives it
/// the name `iri_ref_is_valid` and claims nothing more of it.
#[verifier::external_body]
fn is_valid_iri_ref(text: &str) -> (valid: bool)
    ensures
        valid == iri_ref_is_valid(text@),
{
    sophia::term::iri::is_valid_iri_ref(text)
}

/// An RDF term: an IRI, or a literal with the IRI of its datatype.
///
/// `new_iri` and `new_literal_dt` make a term only of text that passes the
/// check of an IRI. A term put together from its parts is not checked;
/// `check` tells whether it is well formed.
#[derive(Clone, Debug)]
pub enum Term {
    /// An IRI, by its text.
    Iri(String),
    /// A literal, by its lexical form and the IRI of its datatype.
    Literal(String, String),
}

/// What a term is, as plain text.
pub enum TermView {
    /// An IRI.
    Iri(Seq<char>),
    /// A literal: lexical form, then datatype.
    Literal(Seq<char>, Seq<char>),
}

impl View for Term {
    type V = TermView;

    open spec fn view(&self) -> TermView {
        match self {
            Term::Iri(text) => TermView::Iri(text@),
            Term::Literal(lexical, datatype) => TermView::Literal(lexical@, datatype@),
        }
    }
}

/// Why a term could not be made.
#[derive(Clone, Debug)]
pub enum TermError {
    /// The text is not a valid IRI reference.
    InvalidIri(String),
    /// The datatype of a literal is not a valid IRI reference.
    InvalidDatatype(String),
}

/// What went wrong, as plain text.
pub enum TermErrorView {
    /// The text that is no IRI.
    InvalidIri(Seq<char>),
    /// The datatype that is no IRI.
    InvalidDatatype(Seq<char>),
}

impl View for TermError {
    type V = TermErrorView;

    open spec fn view(&self) -> TermErrorView {
        match self {
            TermError::InvalidIri(text) => TermErrorView::InvalidIri(text@),
            TermError::InvalidDatatype(text) => TermErrorView::InvalidDatatype(text@),
        }
    }
}

/// What is wrong with a term, if anything: an IRI must be a valid IRI
/// reference, and so must the datatype of a literal.
pub open spec fn term_fault(t: TermView) -> Option<TermErrorView> {
    match t {
        TermView::Iri(text) => if iri_ref_is_valid(text) {
            None
        } else {
            Some(TermErrorView::InvalidIri(text))
        },
        TermView::Literal(_, datatype) => if iri_ref_is_valid(datatype) {
            None
        } else {
            Some(TermErrorView::InvalidDatatype(datatype))
        },
    }
}

/// The datatype of a literal that names none.
pub open spec fn string_datatype() -> Seq<char> {
    "http://www.w3.org/2001/XMLSchema#string"@
}

/// `r` is what making an IRI term of `text` gives: the term where the text
/// is `valid`, the error that reports the text where it is not.
pub open spec fn is_iri_outcome(r: Result<Term, TermError>, text: Seq<char>, valid: bool) -> bool {
    match r {
        Ok(t) => valid && t@ == TermView::Iri(text),
        Err(TermError::InvalidIri(given)) => !valid && given@ == text,
        Err(TermError::InvalidDatatype(_)) => false,
    }
}

/// `r` is what making a literal term gives: the term where the datatype is
/// `valid`, the error that reports the datatype where it is not.
pub open spec fn is_literal_outcome(
    r: Result<Term, TermError>,
    lexical: Seq<char>,
    datatype: Seq<char>,
    valid: bool,
) -> bool {
    match r {
        Ok(t) => valid && t@ == TermView::Literal(lexical, datatype),
        Err(TermError::InvalidDatatype(given)) => !valid && given@ == datatype,
        Err(TermError::InvalidIri(_)) => false,
    }
}

impl Term {
    /// The IRI term of `text` if `valid` says that the text passed the
    /// check, the error that reports the text otherwise.
    pub fn iri_checked(text: String, valid: bool) -> (r: Result<Term, TermError>)
        ensures
            is_iri_outcome(r, text@, valid),
    {
        if valid {
            Ok(Term::Iri(text))
        } else {
            Err(TermError::InvalidIri(text))
        }
    }

    /// The literal term of `lexical` and `datatype` if `valid` says that the
    /// datatype passed the check, the error that reports the datatype
    /// otherwise.
    pub fn literal_checked(lexical: String, datatype: String, valid: bool) -> (r: Result<
        Term,
        TermError,
    >)
        ensures
            is_literal_outcome(r, lexical@, datatype@, valid),
    {
        if valid {
            Ok(Term::Literal(lexical, datatype))
        } else {
            Err(TermError::InvalidDatatype(datatype))
        }
    }

    /// The IRI term of `text`, which must be a valid IRI reference.
    pub fn new_iri(text: &str) -> (r: Result<Term, TermError>)
        ensures
            is_iri_outcome(r, text@, iri_ref_is_valid(text@)),
    {
        let valid = is_valid_iri_ref(text);
        Term::iri_checked(text.to_owned(), valid)
    }

    /// The literal term of `lexical` with datatype `datatype`, which must be
    /// a valid IRI reference.
    pub fn new_literal_dt(lexical: &str, datatype: &str) -> (r: Result<Term, TermError>)
        ensures
            is_literal_outcome(r, lexical@, datatype@, iri_ref_is_valid(datatype@)),
    {
        let valid = is_valid_iri_ref(datatype);
        Term::literal_checked(lexical.to_owned(), datatype.to_owned(), valid)
    }

    /// The literal term of `lexical` with the string datatype.
    pub fn new_literal(lexical: &str) -> (t: Term)
        ensures
            t@ == TermView::Literal(lexical@, string_datatype()),
    {
        Term::Literal(lexical.to_owned(), "http://www.w3.org/2001/XMLSchema#string".to_owned())
    }

    /// Checks a term that was made without a check: an IRI must be a valid
    /// IRI reference, and so must the datatype of a literal.
    pub fn check(&self) -> (r: Result<(), TermError>)
        ensures
            match r {
                Ok(_) => term_fault(self@) is None,
                Err(e) => term_fault(self@) == Some(e@),
            },
    {
        match self {
            Term::Iri(text) => {
                if is_valid_iri_ref(text.as_str()) {
                    Ok(())
                } else {
                    Err(TermError::InvalidIri(text.clone()))
                }
            },
            Term::Literal(_, datatype) => {
                if is_valid_iri_ref(datatype.as_str()) {
                    Ok(())
                } else {
                    Err(TermError::InvalidDatatype(datatype.clone()))
                }
            },
        }
    }

    /// The text of an IRI, the lexical form of a literal.
    pub fn value(&self) -> (text: &String)
        ensures
            text@ == match self@ {
                TermView::Iri(text) => text,
                TermView::Literal(lexical, _) => lexical,
            },
    {
        match self {
            Term::Iri(text) => text,
            Term::Literal(lexical, _) => lexical,
        }
    }

    /// Whether the term is an IRI.
    pub fn is_iri(&self) -> (b: bool)
        ensures
            b == (self@ is Iri),
    {
        match self {
            Term::Iri(_) => true,
            Term::Literal(_, _) => false,
        }
    }

    /// A copy of the term.
    pub fn copy(&self) -> (t: Term)
        ensures
            t@ == self@,
    {
        match self {
            Term::Iri(text) => Term::Iri(text.clone()),
            Term::Literal(lexical, datatype) => Term::Literal(lexical.clone(), datatype.clone()),
        }
    }

    /// Whether two terms are the same: same kind, same text, and for
    /// literals the same datatype.
    pub fn same(&self, other: &Term) -> (b: bool)
        ensures
            b == (self@ == other@),
    {
        match (self, other) {
            (Term::Iri(a), Term::Iri(b)) => *a == *b,
            (Term::Literal(a, d), Term::Literal(b, e)) => *a == *b && *d == *e,
            _ => false,
        }
    }
}


/// One of the two identifier spaces.
#[derive(Clone, Copy, Debug)]
pub enum Space {
    /// Terms that stand as subjects and objects only.
    Resource,
    /// Terms that stand as predicates, wherever else they also stand.
    Property,
}

/// The identifier of the `k`-th resource issued.
pub open spec fn resource_at(k: int) -> u64 {
    (START_INDEX + 1 + k) as u64
}

/// The terms that a dictionary has issued identifiers for: per space, in
/// the order of issue.
pub struct Vocabulary {
    /// The properties; the `k`-th has identifier `property_at(k)`.
    pub properties: Seq<TermView>,
    /// The resources; the `k`-th has identifier `resource_at(k)`.
    pub resources: Seq<TermView>,
}

impl Vocabulary {
    /// No term was issued two identifiers, and the identifiers fit their
    /// spaces.
    pub open spec fn wf(self) -> bool {
        &&& self.properties.len() <= START_INDEX
        &&& START_INDEX + self.resources.len() <= u64::MAX
        &&& self.properties.len() + self.resources.len() < usize::MAX
        &&& self.properties.no_duplicates()
        &&& self.resources.no_duplicates()
        &&& forall|i: int, j: int|
            0 <= i < self.properties.len() && 0 <= j < self.resources.len()
                ==> #[trigger] self.properties[i] != #[trigger] self.resources[j]
    }

    /// The identifiers fit their spaces: the properties lie below the pivot,
    /// the resources above it within `u64`, and `usize` counts them all.
    pub open spec fn sized(self) -> bool {
        &&& self.properties.len() <= START_INDEX
        &&& START_INDEX + self.resources.len() <= u64::MAX
        &&& self.properties.len() + self.resources.len() < usize::MAX
    }

    /// `self` has at least as many terms in each space as `earlier`.
    pub open spec fn no_shorter(self, earlier: Vocabulary) -> bool {
        &&& earlier.properties.len() <= self.properties.len()
        &&& earlier.resources.len() <= self.resources.len()
    }

    /// The identifier of `t`, if it has one.
    pub open spec fn id_of(self, t: TermView) -> Option<u64> {
        if self.properties.contains(t) {
            Some(property_at(self.properties.index_of(t)))
        } else if self.resources.contains(t) {
            Some(resource_at(self.resources.index_of(t)))
        } else {
            None
        }
    }

    /// `id` was issued to some term.
    pub open spec fn issued(self, id: u64) -> bool {
        ||| is_property(id) && slot_of(id) < self.properties.len()
        ||| is_resource(id) && id - START_INDEX - 1 < self.resources.len()
    }

    /// The term that `id` was issued to.
    pub open spec fn term_of(self, id: u64) -> TermView
        recommends
            self.issued(id),
    {
        if is_property(id) {
            self.properties[slot_of(id)]
        } else {
            self.resources[id - START_INDEX - 1]
        }
    }

    /// One more identifier can be issued in `space`.
    pub open spec fn has_room(self, space: Space) -> bool {
        &&& self.properties.len() + self.resources.len() + 1 < usize::MAX
        &&& match space {
            Space::Property => self.properties.len() < START_INDEX,
            Space::Resource => START_INDEX + self.resources.len() < u64::MAX,
        }
    }

    /// The vocabulary after `t` is interned with `space` as the space for a
    /// new term, and the identifier that interning returns: the one `t` has
    /// already, whatever its space, or else the next of `space`.
    pub open spec fn interned(self, t: TermView, space: Space) -> (Vocabulary, u64) {
        match self.id_of(t) {
            Some(id) => (self, id),
            None => match space {
                Space::Property => (
                    Vocabulary { properties: self.properties.push(t), resources: self.resources },
                    property_at(self.properties.len() as int),
                ),
                Space::Resource => (
                    Vocabulary { properties: self.properties, resources: self.resources.push(t) },
                    resource_at(self.resources.len() as int),
                ),
            },
        }
    }

    /// Where the vocabulary after interning a term fits its spaces, there
    /// was room for the term if it was new; and interning never shortens a
    /// vocabulary.
    pub proof fn lemma_room_for(self, t: TermView, space: Space)
        ensures
            self.interned(t, space).0.no_shorter(self),
            self.interned(t, space).0.sized() && self.id_of(t) is None ==> self.has_room(space),
    {
    }

    /// The identifier of a term is issued, and it resolves to that term.
    pub proof fn lemma_id_of_issued(self, t: TermView)
        requires
            self.wf(),
            self.id_of(t) is Some,
        ensures
            self.issued(self.id_of(t)->0),
            self.term_of(self.id_of(t)->0) == t,
    {
    }

    /// An issued identifier is the identifier of the term it resolves to.
    pub proof fn lemma_term_of_id(self, id: u64)
        requires
            self.wf(),
            self.issued(id),
        ensures
            self.id_of(self.term_of(id)) == Some(id),
    {
        let t = self.term_of(id);
        if is_property(id) {
            let k = slot_of(id);
            assert(self.properties[k] == t);
            assert(self.properties.contains(t));
            let j = self.properties.index_of(t);
            assert(self.properties[j] == t);
            assert(j == k);
        } else {
            let k = id - START_INDEX - 1;
            assert(self.resources[k] == t);
            assert(self.resources.contains(t));
            if self.properties.contains(t) {
                let i = self.properties.index_of(t);
                assert(self.properties[i] != self.resources[k]);
            }
            let j = self.resources.index_of(t);
            assert(self.resources[j] == t);
            assert(j == k);
        }
    }

    /// Two different terms never share an identifier.
    pub proof fn lemma_ids_distinct(self, t1: TermView, t2: TermView)
        requires
            self.wf(),
            self.id_of(t1) is Some,
            self.id_of(t2) is Some,
            t1 != t2,
        ensures
            self.id_of(t1) != self.id_of(t2),
    {
        self.lemma_id_of_issued(t1);
        self.lemma_id_of_issued(t2);
    }

    /// Interning keeps the vocabulary well formed, gives the term the
    /// identifier that is returned, and changes no identifier issued before.
    pub proof fn lemma_interned(self, t: TermView, space: Space)
        requires
            self.wf(),
            self.id_of(t) is None ==> self.has_room(space),
        ensures
            self.interned(t, space).0.wf(),
            self.interned(t, space).0.id_of(t) == Some(self.interned(t, space).1),
            forall|u: TermView|
                self.id_of(u) is Some ==> #[trigger] self.interned(t, space).0.id_of(u)
                    == self.id_of(u),
            forall|id: u64|
                self.issued(id) ==> #[trigger] self.interned(t, space).0.issued(id)
                    && self.interned(t, space).0.term_of(id) == self.term_of(id),
    {
        let next = self.interned(t, space).0;
        if self.id_of(t) is None {
            match space {
                Space::Property => {
                    let k = self.properties.len() as int;
                    assert(next.properties[k] == t);
                    assert forall|i: int, j: int|
                        0 <= i < next.properties.len() && 0 <= j < next.properties.len() && i
                            != j implies next.properties[i] != next.properties[j] by {
                        if i == k {
                            assert(self.properties[j] == next.properties[j]);
                        } else if j == k {
                            assert(self.properties[i] == next.properties[i]);
                        }
                    }
                    assert forall|i: int, j: int|
                        0 <= i < next.properties.len() && 0 <= j < next.resources.len() implies
                        #[trigger] next.properties[i] != #[trigger] next.resources[j] by {
                        if i == k {
                            assert(self.resources.contains(self.resources[j]));
                        }
                    }
                    assert(next.properties.contains(t));
                    let j = next.properties.index_of(t);
                    assert(next.properties[j] == t);
                    assert(j == k);
                    assert forall|u: TermView| self.id_of(u) is Some implies #[trigger] next.id_of(
                        u,
                    ) == self.id_of(u) by {
                        if self.properties.contains(u) {
                            let a = self.properties.index_of(u);
                            assert(next.properties[a] == u);
                            let b = next.properties.index_of(u);
                            assert(next.properties[b] == u);
                            assert(a == b);
                        } else {
                            if next.properties.contains(u) {
                                let b = next.properties.index_of(u);
                                assert(next.properties[b] == u);
                                if b < k {
                                    assert(self.properties[b] == u);
                                }
                            }
                        }
                    }
                },
                Space::Resource => {
                    let k = self.resources.len() as int;
                    assert(next.resources[k] == t);
                    assert forall|i: int, j: int|
                        0 <= i < next.resources.len() && 0 <= j < next.resources.len() && i
                            != j implies next.resources[i] != next.resources[j] by {
                        if i == k {
                            assert(self.resources[j] == next.resources[j]);
                        } else if j == k {
                            assert(self.resources[i] == next.resources[i]);
                        }
                    }
                    assert forall|i: int, j: int|
                        0 <= i < next.properties.len() && 0 <= j < next.resources.len() implies
                        #[trigger] next.properties[i] != #[trigger] next.resources[j] by {
                        if j == k {
                            assert(self.properties.contains(self.properties[i]));
                        }
                    }
                    assert(next.resources.contains(t));
                    let j = next.resources.index_of(t);
                    assert(next.resources[j] == t);
                    assert(j == k);
                    assert forall|u: TermView| self.id_of(u) is Some implies #[trigger] next.id_of(
                        u,
                    ) == self.id_of(u) by {
                        if !self.properties.contains(u) {
                            let a = self.resources.index_of(u);
                            assert(next.resources[a] == u);
                            let b = next.resources.index_of(u);
                            assert(next.resources[b] == u);
                            assert(a == b);
                        }
                    }
                },
            }
        }
    }

    /// Interning a term again returns the same identifier and changes
    /// nothing, whichever space is named the second time.
    pub proof fn lemma_intern_idempotent(self, t: TermView, first: Space, second: Space)
        requires
            self.wf(),
            self.id_of(t) is None ==> self.has_room(first),
        ensures
            self.interned(t, first).0.interned(t, second) == self.interned(t, first),
    {
        self.lemma_interned(t, first);
    }

    /// Two different terms get different identifiers, in whatever spaces
    /// they are interned.
    pub proof fn lemma_intern_injective(self, t1: TermView, s1: Space, t2: TermView, s2: Space)
        requires
            self.wf(),
            self.id_of(t1) is None ==> self.has_room(s1),
            self.interned(t1, s1).0.id_of(t2) is None ==> self.interned(t1, s1).0.has_room(s2),
            t1 != t2,
        ensures
            self.interned(t1, s1).1 != self.interned(t1, s1).0.interned(t2, s2).1,
    {
        self.lemma_interned(t1, s1);
        let v1 = self.interned(t1, s1).0;
        v1.lemma_interned(t2, s2);
        let v2 = v1.interned(t2, s2).0;
        assert(v2.id_of(t1) == Some(self.interned(t1, s1).1));
        v2.lemma_ids_distinct(t1, t2);
    }
}


/// The views of a sequence of terms.
pub open spec fn views_of(terms: Seq<Term>) -> Seq<TermView> {
    Seq::new(terms.len(), |i: int| terms[i]@)
}

/// The terms that every dictionary registers when it is made, in the order
/// of their identifiers: `rdf:type` first.
pub open spec fn builtin_terms() -> Seq<TermView> {
    seq![
        TermView::Iri("http://www.w3.org/1999/02/22-rdf-syntax-ns#type"@),
        TermView::Iri("http://www.w3.org/2000/01/rdf-schema#subClassOf"@),
        TermView::Iri("http://www.w3.org/2002/07/owl#equivalentClass"@),
        TermView::Iri("http://www.w3.org/2002/07/owl#equivalentProperty"@),
        TermView::Iri("http://www.w3.org/2002/07/owl#inverseOf"@),
        TermView::Iri("http://www.w3.org/2000/01/rdf-schema#subPropertyOf"@),
        TermView::Iri("http://www.w3.org/2000/01/rdf-schema#domain"@),
        TermView::Iri("http://www.w3.org/2000/01/rdf-schema#range"@),
    ]
}

/// The vocabulary of a dictionary that has interned nothing yet.
pub open spec fn builtin_vocabulary() -> Vocabulary {
    Vocabulary { properties: builtin_terms(), resources: Seq::empty() }
}

/// The built-in terms are eight different terms, so the vocabulary of a new
/// dictionary is well formed and each built-in has the identifier of its
/// constant.
pub proof fn lemma_builtin_vocabulary()
    ensures
        builtin_terms().len() == BUILTIN_PROPERTIES,
        builtin_vocabulary().wf(),
        builtin_vocabulary().id_of(builtin_terms()[0]) == Some(RDF_TYPE),
        builtin_vocabulary().id_of(builtin_terms()[1]) == Some(RDFS_SUB_CLASS_OF),
        builtin_vocabulary().id_of(builtin_terms()[2]) == Some(OWL_EQUIVALENT_CLASS),
        builtin_vocabulary().id_of(builtin_terms()[3]) == Some(OWL_EQUIVALENT_PROPERTY),
        builtin_vocabulary().id_of(builtin_terms()[4]) == Some(OWL_INVERSE_OF),
        builtin_vocabulary().id_of(builtin_terms()[5]) == Some(RDFS_SUB_PROPERTY_OF),
        builtin_vocabulary().id_of(builtin_terms()[6]) == Some(RDFS_DOMAIN),
        builtin_vocabulary().id_of(builtin_terms()[7]) == Some(RDFS_RANGE),
{
    reveal_strlit("http://www.w3.org/1999/02/22-rdf-syntax-ns#type");
    reveal_strlit("http://www.w3.org/2000/01/rdf-schema#subClassOf");
    reveal_strlit("http://www.w3.org/2002/07/owl#equivalentClass");
    reveal_strlit("http://www.w3.org/2002/07/owl#equivalentProperty");
    reveal_strlit("http://www.w3.org/2002/07/owl#inverseOf");
    reveal_strlit("http://www.w3.org/2000/01/rdf-schema#subPropertyOf");
    reveal_strlit("http://www.w3.org/2000/01/rdf-schema#domain");
    reveal_strlit("http://www.w3.org/2000/01/rdf-schema#range");
    let b = builtin_terms();
    // All lengths differ but for the first two, which differ in the year.
    assert("http://www.w3.org/1999/02/22-rdf-syntax-ns#type"@[18] != "http://www.w3.org/2000/01/rdf-schema#subClassOf"@[18]);
    assert(b[0]->Iri_0.len() == 47);
    assert(b[1]->Iri_0.len() == 47);
    assert(b[2]->Iri_0.len() == 45);
    assert(b[3]->Iri_0.len() == 48);
    assert(b[4]->Iri_0.len() == 39);
    assert(b[5]->Iri_0.len() == 50);
    assert(b[6]->Iri_0.len() == 43);
    assert(b[7]->Iri_0.len() == 42);
    assert(b.no_duplicates());
    let v = builtin_vocabulary();
    assert forall|k: int| 0 <= k < 8 implies v.id_of(#[trigger] b[k]) == Some(property_at(k)) by {
        assert(b.contains(b[k]));
        let j = b.index_of(b[k]);
        assert(b[j] == b[k]);
    }
    assert(v.id_of(b[0]) == Some(property_at(0)));
    assert(v.id_of(b[1]) == Some(property_at(1)));
    assert(v.id_of(b[2]) == Some(property_at(2)));
    assert(v.id_of(b[3]) == Some(property_at(3)));
    assert(v.id_of(b[4]) == Some(property_at(4)));
    assert(v.id_of(b[5]) == Some(property_at(5)));
    assert(v.id_of(b[6]) == Some(property_at(6)));
    assert(v.id_of(b[7]) == Some(property_at(7)));
}

/// The text that a term is found by: the text of an IRI, the lexical form
/// of a literal.
pub open spec fn text_of(t: TermView) -> Seq<char> {
    match t {
        TermView::Iri(text) => text,
        TermView::Literal(lexical, _) => lexical,
    }
}

/// The dictionary of a reasoning session: it issues an identifier to every
/// term, resolves identifiers back to terms, and owns the triple store.
pub struct NodeDictionary {
    resources: Vec<Term>,
    properties: Vec<Term>,
    index: StringHashMap<Vec<u64>>,
    ts: TripleStore,
}

impl View for NodeDictionary {
    type V = Vocabulary;

    closed spec fn view(&self) -> Vocabulary {
        Vocabulary { properties: views_of(self.properties@), resources: views_of(self.resources@) }
    }
}

impl NodeDictionary {
    /// The store that the dictionary owns.
    pub closed spec fn store_view(&self) -> TripleStore {
        self.ts
    }

    /// The index lists under each text the identifiers of the terms with
    /// that text, and every issued identifier is listed under the text of
    /// its term.
    pub closed spec fn indexed(&self) -> bool {
        &&& forall|key: Seq<char>, j: int|
            self.index@.contains_key(key) && 0 <= j < self.index@[key]@.len() ==> self@.issued(
                #[trigger] self.index@[key]@[j],
            ) && text_of(self@.term_of(self.index@[key]@[j])) == key
        &&& forall|id: u64| #[trigger]
            self@.issued(id) ==> self.index@.contains_key(text_of(self@.term_of(id)))
                && self.index@[text_of(self@.term_of(id))]@.contains(id)
    }

    /// The vocabulary is well formed and the index is in step with it.
    pub open spec fn wf(&self) -> bool {
        &&& self@.wf()
        &&& self.indexed()
    }

    /// A dictionary that owns `ts` and knows the built-in terms, each under
    /// the identifier of its constant.
    pub fn new(ts: TripleStore) -> (dictionary: Self)
        ensures
            dictionary@ == builtin_vocabulary(),
            dictionary.wf(),
            dictionary.store_view() == ts,
    {
        let mut dictionary = Self {
            resources: Vec::new(),
            properties: Vec::new(),
            index: StringHashMap::new(),
            ts,
        };
        proof {
            lemma_builtin_vocabulary();
            assert(dictionary@.properties =~= builtin_terms().take(0));
            assert(dictionary@.resources =~= Seq::<TermView>::empty());
        }
        dictionary.add_builtin("http://www.w3.org/1999/02/22-rdf-syntax-ns#type", Ghost(0));
        dictionary.add_builtin("http://www.w3.org/2000/01/rdf-schema#subClassOf", Ghost(1));
        dictionary.add_builtin("http://www.w3.org/2002/07/owl#equivalentClass", Ghost(2));
        dictionary.add_builtin("http://www.w3.org/2002/07/owl#equivalentProperty", Ghost(3));
        dictionary.add_builtin("http://www.w3.org/2002/07/owl#inverseOf", Ghost(4));
        dictionary.add_builtin("http://www.w3.org/2000/01/rdf-schema#subPropertyOf", Ghost(5));
        dictionary.add_builtin("http://www.w3.org/2000/01/rdf-schema#domain", Ghost(6));
        dictionary.add_builtin("http://www.w3.org/2000/01/rdf-schema#range", Ghost(7));
        proof {
            assert(builtin_terms().take(8) =~= builtin_terms());
        }
        dictionary
    }

    /// Registers the `k`-th built-in term.
    fn add_builtin(&mut self, text: &str, Ghost(k): Ghost<int>)
        requires
            0 <= k < BUILTIN_PROPERTIES,
            old(self).wf(),
            old(self)@.properties == builtin_terms().take(k),
            old(self)@.resources == Seq::<TermView>::empty(),
            TermView::Iri(text@) == builtin_terms()[k],
        ensures
            final(self).wf(),
            final(self)@.properties == builtin_terms().take(k + 1),
            final(self)@.resources == Seq::<TermView>::empty(),
            final(self).store_view() == old(self).store_view(),
    {
        let term = Term::Iri(text.to_owned());
        proof {
            lemma_builtin_vocabulary();
            let b = builtin_terms();
            if b.take(k).contains(term@) {
                let j = choose|j: int| 0 <= j < b.take(k).len() && b.take(k)[j] == term@;
                assert(b[j] == b[k]);
            }
            assert(b.take(k + 1) =~= b.take(k).push(b[k]));
        }
        let _ = self.intern(&term, Space::Property);
    }

    /// The store.
    pub fn store(&self) -> (ts: &TripleStore)
        ensures
            *ts == self.store_view(),
    {
        &self.ts
    }

    /// The store, to change it; the vocabulary stays as it is.
    pub fn store_mut(&mut self) -> (ts: &mut TripleStore)
        ensures
            *ts == old(self).store_view(),
            final(self).store_view() == *final(ts),
            final(self)@ == old(self)@,
            old(self).wf() ==> final(self).wf(),
    {
        &mut self.ts
    }

    /// Whether one more identifier can be issued in `space`.
    pub fn has_room(&self, space: Space) -> (b: bool)
        ensures
            b == self@.has_room(space),
    {
        let np = self.properties.len();
        let nr = self.resources.len();
        if np >= usize::MAX - 1 || nr >= usize::MAX - 1 - np {
            return false;
        }
        match space {
            Space::Property => (np as u64) < START_INDEX,
            Space::Resource => (nr as u64) < u64::MAX - START_INDEX,
        }
    }

    /// The identifier of `term`, if it was interned.
    pub fn lookup(&self, term: &Term) -> (r: Option<u64>)
        requires
            self.wf(),
        ensures
            r == self@.id_of(term@),
    {
        let ghost v = self@;
        let ghost key = text_of(term@);
        proof {
            if v.id_of(term@) is Some {
                v.lemma_id_of_issued(term@);
            }
        }
        let candidates = match self.index.get(term.value().as_str()) {
            Some(candidates) => candidates,
            None => { return None; },
        };
        let mut j: usize = 0;
        while j < candidates.len()
            invariant
                j <= candidates.len(),
                self.wf(),
                v == self@,
                key == text_of(term@),
                self.index@.contains_key(key),
                *candidates == self.index@[key],
                forall|m: int| 0 <= m < j ==> v.term_of(#[trigger] candidates@[m]) != term@,
            decreases candidates.len() - j,
        {
            let id = candidates[j];
            assert(v.issued(self.index@[key]@[j as int]));
            if self.resolve(id).same(term) {
                proof {
                    v.lemma_term_of_id(id);
                }
                return Some(id);
            }
            j += 1;
        }
        proof {
            if v.id_of(term@) is Some {
                let x = v.id_of(term@)->0;
                assert(v.issued(x));
                assert(candidates@.contains(x));
                let m = choose|m: int| 0 <= m < candidates@.len() && candidates@[m] == x;
                assert(v.term_of(candidates@[m]) != term@);
            }
        }
        None
    }

    /// Lists `id` in the index under the text of `term`.
    fn index_add(&mut self, term: &Term, id: u64)
        ensures
            final(self)@ == old(self)@,
            final(self).store_view() == old(self).store_view(),
            final(self).index@.dom() == old(self).index@.dom().insert(text_of(term@)),
            forall|key: Seq<char>|
                key != text_of(term@) && old(self).index@.contains_key(key)
                    ==> final(self).index@[key] == old(self).index@[key],
            final(self).index@[text_of(term@)]@ == if old(self).index@.contains_key(text_of(term@)) {
                old(self).index@[text_of(term@)]@.push(id)
            } else {
                seq![id]
            },
    {
        let text = term.value();
        let mut ids: Vec<u64> = match self.index.get(text.as_str()) {
            Some(listed) => listed.clone(),
            None => Vec::new(),
        };
        proof {
            if old(self).index@.contains_key(text_of(term@)) {
                assert(ids@ =~= old(self).index@[text_of(term@)]@);
            }
        }
        ids.push(id);
        self.index.insert(text.clone(), ids);
        proof {
            assert(self.index@.dom() =~= old(self).index@.dom().insert(text_of(term@)));
        }
    }

    /// The identifier of `term`: the one it has if it was interned before,
    /// in whichever space, or else the next identifier of `space`, which is
    /// then issued to it. Room in `space` is needed only for a new term.
    pub fn intern(&mut self, term: &Term, space: Space) -> (id: u64)
        requires
            old(self).wf(),
            old(self)@.id_of(term@) is None ==> old(self)@.has_room(space),
        ensures
            (final(self)@, id) == old(self)@.interned(term@, space),
            final(self).wf(),
            final(self)@.id_of(term@) == Some(id),
            final(self).store_view() == old(self).store_view(),
    {
        let ghost v = self@;
        proof {
            v.lemma_interned(term@, space);
        }
        match self.lookup(term) {
            Some(id) => id,
            None => {
                let id = match space {
                    Space::Property => {
                        let k = self.properties.len();
                        self.properties.push(term.copy());
                        proof {
                            assert(self@.properties =~= v.properties.push(term@));
                        }
                        slot_to_property(k)
                    },
                    Space::Resource => {
                        let k = self.resources.len();
                        self.resources.push(term.copy());
                        proof {
                            assert(self@.resources =~= v.resources.push(term@));
                        }
                        START_INDEX + 1 + k as u64
                    },
                };
                let ghost w = self@;
                let ghost before = self.index@;
                proof {
                    assert(w == v.interned(term@, space).0);
                    w.lemma_id_of_issued(term@);
                }
                self.index_add(term, id);
                proof {
                    let key = text_of(term@);
                    let after = self.index@;
                    assert forall|x: u64| #[trigger] w.issued(x) implies x == id || v.issued(x) by {}
                    assert forall|other: Seq<char>, j: int|
                        after.contains_key(other) && 0 <= j < after[other]@.len() implies w.issued(
                        #[trigger] after[other]@[j],
                    ) && text_of(w.term_of(after[other]@[j])) == other by {
                        if other == key {
                            if before.contains_key(key) && j < before[key]@.len() {
                                assert(v.issued(before[key]@[j]));
                            }
                        } else {
                            assert(before.contains_key(other));
                            assert(v.issued(before[other]@[j]));
                        }
                    }
                    assert forall|x: u64| #[trigger] w.issued(x) implies after.contains_key(
                        text_of(w.term_of(x)),
                    ) && after[text_of(w.term_of(x))]@.contains(x) by {
                        let other = text_of(w.term_of(x));
                        if x == id {
                            assert(after[key]@[after[key]@.len() - 1] == id);
                        } else {
                            assert(v.issued(x));
                            assert(before[other]@.contains(x));
                            let m = choose|m: int|
                                0 <= m < before[other]@.len() && before[other]@[m] == x;
                            assert(after[other]@[m] == x);
                        }
                    }
                }
                id
            },
        }
    }

    /// Whether `id` was issued by this dictionary.
    pub fn is_issued(&self, id: u64) -> (b: bool)
        ensures
            b == self@.issued(id),
    {
        if id < START_INDEX {
            START_INDEX - 1 - id < self.properties.len() as u64
        } else if id > START_INDEX {
            id - START_INDEX - 1 < self.resources.len() as u64
        } else {
            false
        }
    }

    /// The term that `id` was issued to.
    pub fn resolve(&self, id: u64) -> (term: &Term)
        requires
            self@.issued(id),
        ensures
            term@ == self@.term_of(id),
    {
        if id < START_INDEX {
            assert(START_INDEX - 1 - id < self.properties.len());
            &self.properties[(START_INDEX - 1 - id) as usize]
        } else {
            assert(id - START_INDEX - 1 < self.resources.len());
            &self.resources[(id - START_INDEX - 1) as usize]
        }
    }
}

} // verus!
