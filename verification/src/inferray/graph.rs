//! The graph of a reasoning session: a dictionary and the store it owns,
//! with every stored identifier issued by that dictionary.

use crate::inferray::dictionary::{
    builtin_vocabulary, is_property, is_property_id, lemma_builtin_vocabulary, property_at,
    property_to_slot, slot_of, slot_to_property, term_fault, NodeDictionary, Space, Term,
    TermError, TermErrorView, TermView, Vocabulary, BUILTIN_PROPERTIES,
    OWL_EQUIVALENT_PROPERTY, OWL_INVERSE_OF, RDFS_DOMAIN, RDFS_RANGE, RDFS_SUB_PROPERTY_OF,
};
use crate::inferray::pairs::{pair_lt, pair_of, pairs_of};
use crate::inferray::store::{
    clip, lemma_sorted_len, lemma_triples_push, lifted, lifted_seq, listing, total_pairs,
    triples_in, triples_of, TripleStore,
};
use vstd::prelude::*;

verus! {

/// Every identifier in `ts` was issued by `v`.
pub open spec fn all_issued(v: Vocabulary, ts: Set<(u64, u64, u64)>) -> bool {
    forall|t: (u64, u64, u64)| #[trigger]
        ts.contains(t) ==> v.issued(t.0) && v.issued(t.1) && v.issued(t.2)
}

/// The terms of a triple of identifiers.
pub open spec fn decoded(v: Vocabulary, t: (u64, u64, u64)) -> (TermView, TermView, TermView) {
    (v.term_of(t.0), v.term_of(t.1), v.term_of(t.2))
}

/// The triples of terms that a set of triples of identifiers stands for.
pub open spec fn decoded_set(v: Vocabulary, ts: Set<(u64, u64, u64)>) -> Set<
    (TermView, TermView, TermView),
> {
    Set::new(
        |tt: (TermView, TermView, TermView)|
            exists|t: (u64, u64, u64)| #[trigger] ts.contains(t) && decoded(v, t) == tt,
    )
}

/// The triples of terms that a sequence of triples of identifiers stands
/// for, in the same order.
pub open spec fn decoded_seq(v: Vocabulary, ts: Seq<(u64, u64, u64)>) -> Seq<
    (TermView, TermView, TermView),
> {
    Seq::new(ts.len(), |i: int| decoded(v, ts[i]))
}

/// The identifier that a pattern asks for at one position, if it names a
/// term.
pub open spec fn named_id(v: Vocabulary, t: Option<TermView>) -> Option<u64> {
    match t {
        Some(term) => v.id_of(term),
        None => None,
    }
}

/// The pattern names, at this position, a term that the vocabulary does not
/// hold.
pub open spec fn names_unknown(v: Vocabulary, t: Option<TermView>) -> bool {
    t is Some && v.id_of(t->0) is None
}

/// Different triples of issued identifiers stand for different triples of
/// terms.
pub proof fn lemma_decoded_injective(v: Vocabulary, t1: (u64, u64, u64), t2: (u64, u64, u64))
    requires
        v.wf(),
        v.issued(t1.0) && v.issued(t1.1) && v.issued(t1.2),
        v.issued(t2.0) && v.issued(t2.1) && v.issued(t2.2),
        decoded(v, t1) == decoded(v, t2),
    ensures
        t1 == t2,
{
    v.lemma_term_of_id(t1.0);
    v.lemma_term_of_id(t1.1);
    v.lemma_term_of_id(t1.2);
    v.lemma_term_of_id(t2.0);
    v.lemma_term_of_id(t2.1);
    v.lemma_term_of_id(t2.2);
}

/// A set of triples of issued identifiers stands for as many triples of
/// terms.
pub proof fn lemma_decoded_len(v: Vocabulary, ts: Set<(u64, u64, u64)>)
    requires
        v.wf(),
        all_issued(v, ts),
        ts.finite(),
    ensures
        decoded_set(v, ts).finite(),
        decoded_set(v, ts).len() == ts.len(),
{
    let f = |t: (u64, u64, u64)| decoded(v, t);
    assert(vstd::relations::injective_on(f, ts)) by {
        assert forall|x1: (u64, u64, u64), x2: (u64, u64, u64)|
            ts.contains(x1) && ts.contains(x2) && #[trigger] f(x1) == #[trigger] f(
                x2,
            ) implies x1 == x2 by {
            lemma_decoded_injective(v, x1, x2);
        }
    }
    assert forall|tt: (TermView, TermView, TermView)| ts.map(f).contains(tt) <==> decoded_set(
        v,
        ts,
    ).contains(tt) by {
        if decoded_set(v, ts).contains(tt) {
            let t = choose|t: (u64, u64, u64)| #[trigger] ts.contains(t) && decoded(v, t) == tt;
            assert(ts.contains(t) && f(t) == tt);
        }
    }
    assert(ts.map(f) =~= decoded_set(v, ts));
    vstd::set_lib::lemma_map_size(ts, decoded_set(v, ts), f);
}

/// A triple of terms, as it comes from a source and goes to a sink.
#[derive(Clone, Debug)]
pub struct Triple {
    /// The subject.
    pub subject: Term,
    /// The predicate.
    pub predicate: Term,
    /// The object.
    pub object: Term,
}

impl View for Triple {
    type V = (TermView, TermView, TermView);

    open spec fn view(&self) -> (TermView, TermView, TermView) {
        (self.subject@, self.predicate@, self.object@)
    }
}

/// What is wrong with a triple, if anything: the fault of its subject, or
/// else of its predicate, or else of its object.
pub open spec fn triple_fault(tt: (TermView, TermView, TermView)) -> Option<TermErrorView> {
    if term_fault(tt.0) is Some {
        term_fault(tt.0)
    } else if term_fault(tt.1) is Some {
        term_fault(tt.1)
    } else {
        term_fault(tt.2)
    }
}

impl Triple {
    /// Checks the three terms, subject first, and reports the first that
    /// is malformed.
    pub fn check(&self) -> (r: Result<(), TermError>)
        ensures
            match r {
                Ok(_) => triple_fault(self@) is None,
                Err(e) => triple_fault(self@) == Some(e@),
            },
    {
        match self.subject.check() {
            Err(e) => { return Err(e); },
            Ok(_) => {},
        }
        match self.predicate.check() {
            Err(e) => { return Err(e); },
            Ok(_) => {},
        }
        self.object.check()
    }
}

/// Why a graph could not be loaded.
#[derive(Debug)]
pub enum LoadError {
    /// The triple at `index` has a malformed term; `error` says which.
    MalformedTerm {
        /// The position of the triple in the input.
        index: usize,
        /// What is wrong with its first malformed term.
        error: TermError,
    },
}

/// `r` is what loading `triples` with a check of every term gives: the
/// graph of the triples where no term is malformed, and else the first
/// triple that has a malformed term, with the fault of that term.
pub open spec fn is_load_outcome(r: Result<InfGraph, LoadError>, triples: Seq<Triple>) -> bool {
    match r {
        Ok(graph) => {
            &&& forall|k: int| 0 <= k < triples.len() ==> triple_fault(#[trigger] triples[k]@) is None
            &&& graph.wf()
            &&& graph@ == triple_views(triples).to_set()
            &&& extends(graph.dictionary@, builtin_vocabulary())
            &&& forall|k: int|
                0 <= k < triples.len() ==> preplaced(graph.dictionary@, (#[trigger] triples[k])@)
        },
        Err(LoadError::MalformedTerm { index, error }) => {
            &&& index < triples.len()
            &&& triple_fault(triples[index as int]@) == Some(error@)
            &&& forall|k: int| 0 <= k < index ==> triple_fault(#[trigger] triples[k]@) is None
        },
    }
}

/// The views of a sequence of triples.
pub open spec fn triple_views(triples: Seq<Triple>) -> Seq<(TermView, TermView, TermView)> {
    Seq::new(triples.len(), |i: int| triples[i]@)
}

/// Which terms of a statement are themselves properties, besides its
/// predicate.
#[derive(Clone, Copy, Debug)]
pub enum Placement {
    /// Neither the subject nor the object.
    Neither,
    /// The subject.
    Subject,
    /// The subject and the object.
    Both,
}

/// What a statement with predicate `p` says of its subject and object:
/// `owl:inverseOf`, `owl:equivalentProperty` and `rdfs:subPropertyOf`
/// relate two properties, `rdfs:domain` and `rdfs:range` describe one.
pub open spec fn placement_of(p: u64) -> Placement {
    if p == OWL_INVERSE_OF || p == OWL_EQUIVALENT_PROPERTY || p == RDFS_SUB_PROPERTY_OF {
        Placement::Both
    } else if p == RDFS_DOMAIN || p == RDFS_RANGE {
        Placement::Subject
    } else {
        Placement::Neither
    }
}

/// The space in which the subject of a statement with placement `placement`
/// is interned if it is new.
pub open spec fn subject_space(placement: Placement) -> Space {
    match placement {
        Placement::Neither => Space::Resource,
        _ => Space::Property,
    }
}

/// The space in which the object of a statement with placement `placement`
/// is interned if it is new.
pub open spec fn object_space(placement: Placement) -> Space {
    match placement {
        Placement::Both => Space::Property,
        _ => Space::Resource,
    }
}

/// The vocabulary after the terms of the statement `tt` that are properties
/// are interned as such: its predicate, and those of its subject and object
/// that the predicate makes properties.
#[verifier::opaque]
pub open spec fn registered_vocabulary(v: Vocabulary, tt: (TermView, TermView, TermView)) -> Vocabulary {
    let (v1, p) = v.interned(tt.1, Space::Property);
    match placement_of(p) {
        Placement::Neither => v1,
        Placement::Subject => v1.interned(tt.0, Space::Property).0,
        Placement::Both => v1.interned(tt.0, Space::Property).0.interned(
            tt.2,
            Space::Property,
        ).0,
    }
}

/// The vocabulary after the three terms of `tt` are interned as
/// `encode_triple` interns them.
#[verifier::opaque]
pub open spec fn encoded_vocabulary(v: Vocabulary, tt: (TermView, TermView, TermView)) -> Vocabulary {
    let (v1, p) = v.interned(tt.1, Space::Property);
    let v2 = v1.interned(tt.0, subject_space(placement_of(p))).0;
    v2.interned(tt.2, object_space(placement_of(p))).0
}

/// The vocabulary after the properties of every triple are registered, one
/// triple after the other.
pub open spec fn after_registering(v: Vocabulary, triples: Seq<Triple>) -> Vocabulary
    decreases triples.len(),
{
    if triples.len() == 0 {
        v
    } else {
        registered_vocabulary(after_registering(v, triples.drop_last()), triples.last()@)
    }
}

/// The vocabulary after every triple is encoded, one after the other.
pub open spec fn after_encoding(v: Vocabulary, triples: Seq<Triple>) -> Vocabulary
    decreases triples.len(),
{
    if triples.len() == 0 {
        v
    } else {
        encoded_vocabulary(after_encoding(v, triples.drop_last()), triples.last()@)
    }
}

/// The vocabulary of the graph of `triples`: the built-in terms, then the
/// properties of all the triples in their order, then the remaining terms
/// as resources in the order in which the triples bring them.
pub open spec fn loaded_vocabulary(triples: Seq<Triple>) -> Vocabulary {
    after_encoding(after_registering(builtin_vocabulary(), triples), triples)
}

/// Registering and encoding never shorten a vocabulary, and add at most
/// three terms.
pub proof fn lemma_step_lengths(v: Vocabulary, tt: (TermView, TermView, TermView))
    ensures
        registered_vocabulary(v, tt).no_shorter(v),
        encoded_vocabulary(v, tt).no_shorter(v),
        registered_vocabulary(v, tt).properties.len() + registered_vocabulary(
            v,
            tt,
        ).resources.len() <= v.properties.len() + v.resources.len() + 3,
        encoded_vocabulary(v, tt).properties.len() + encoded_vocabulary(v, tt).resources.len()
            <= v.properties.len() + v.resources.len() + 3,
{
    reveal(registered_vocabulary);
    reveal(encoded_vocabulary);
}

/// The vocabulary after a part of the triples is no longer than after all
/// of them.
pub proof fn lemma_after_lengths(v: Vocabulary, triples: Seq<Triple>, i: int)
    requires
        0 <= i <= triples.len(),
    ensures
        after_registering(v, triples).no_shorter(after_registering(v, triples.take(i))),
        after_encoding(v, triples).no_shorter(after_encoding(v, triples.take(i))),
        after_registering(v, triples).no_shorter(v),
        after_encoding(v, triples).no_shorter(v),
        after_registering(v, triples).properties.len() + after_registering(
            v,
            triples,
        ).resources.len() <= v.properties.len() + v.resources.len() + 3 * triples.len(),
        after_encoding(v, triples).properties.len() + after_encoding(v, triples).resources.len()
            <= v.properties.len() + v.resources.len() + 3 * triples.len(),
    decreases triples.len(),
{
    if triples.len() == 0 {
        assert(triples.take(i) =~= triples);
    } else if i == triples.len() {
        assert(triples.take(i) =~= triples);
        lemma_after_lengths(v, triples.drop_last(), 0);
        lemma_step_lengths(after_registering(v, triples.drop_last()), triples.last()@);
        lemma_step_lengths(after_encoding(v, triples.drop_last()), triples.last()@);
    } else {
        assert(triples.drop_last().take(i) =~= triples.take(i));
        lemma_after_lengths(v, triples.drop_last(), i);
        lemma_step_lengths(after_registering(v, triples.drop_last()), triples.last()@);
        lemma_step_lengths(after_encoding(v, triples.drop_last()), triples.last()@);
    }
}

/// Where the loaded vocabulary fits, so does the vocabulary after each
/// triple is registered, which is the next step of registering.
proof fn lemma_register_fits(triples: Seq<Triple>, i: int)
    requires
        loaded_vocabulary(triples).sized(),
        0 <= i < triples.len(),
    ensures
        registered_vocabulary(
            after_registering(builtin_vocabulary(), triples.take(i)),
            triples[i]@,
        ).sized(),
        after_registering(builtin_vocabulary(), triples.take(i + 1)) == registered_vocabulary(
            after_registering(builtin_vocabulary(), triples.take(i)),
            triples[i]@,
        ),
{
    let all = after_registering(builtin_vocabulary(), triples);
    assert(triples.take(i + 1).drop_last() =~= triples.take(i));
    assert(triples.take(i + 1).last() == triples[i]);
    lemma_after_lengths(builtin_vocabulary(), triples, i + 1);
    lemma_after_lengths(all, triples, 0);
}

/// Where the loaded vocabulary fits, so does the vocabulary after each
/// triple is encoded, which is the next step of encoding.
proof fn lemma_encode_fits(triples: Seq<Triple>, i: int)
    requires
        loaded_vocabulary(triples).sized(),
        0 <= i < triples.len(),
    ensures
        encoded_vocabulary(
            after_encoding(after_registering(builtin_vocabulary(), triples), triples.take(i)),
            triples[i]@,
        ).sized(),
        after_encoding(after_registering(builtin_vocabulary(), triples), triples.take(i + 1))
            == encoded_vocabulary(
            after_encoding(after_registering(builtin_vocabulary(), triples), triples.take(i)),
            triples[i]@,
        ),
{
    let all = after_registering(builtin_vocabulary(), triples);
    assert(triples.take(i + 1).drop_last() =~= triples.take(i));
    assert(triples.take(i + 1).last() == triples[i]);
    lemma_after_lengths(all, triples, i + 1);
}

/// Up to `LOAD_LIMIT` triples always fit: they bring at most six terms
/// each.
pub proof fn lemma_load_limit(triples: Seq<Triple>)
    requires
        triples.len() <= LOAD_LIMIT,
    ensures
        loaded_vocabulary(triples).sized(),
{
    lemma_builtin_vocabulary();
    let r = after_registering(builtin_vocabulary(), triples);
    lemma_after_lengths(builtin_vocabulary(), triples, 0);
    lemma_after_lengths(r, triples, 0);
}

/// The identifiers of the terms of a triple.
spec fn encoded(v: Vocabulary, tt: (TermView, TermView, TermView)) -> (u64, u64, u64) {
    (v.id_of(tt.0)->0, v.id_of(tt.1)->0, v.id_of(tt.2)->0)
}

/// `next` has every term of `v` under the identifier it had in `v`.
pub open spec fn extends(next: Vocabulary, v: Vocabulary) -> bool {
    &&& forall|u: TermView| v.id_of(u) is Some ==> #[trigger] next.id_of(u) == v.id_of(u)
    &&& forall|id: u64|
        #[trigger] v.issued(id) ==> next.issued(id) && next.term_of(id) == v.term_of(id)
    &&& v.properties.len() <= next.properties.len()
    &&& v.resources.len() <= next.resources.len()
}

/// The vocabulary that interning leads to extends the one it started from.
pub proof fn lemma_interned_extends(v: Vocabulary, t: TermView, space: Space)
    requires
        v.wf(),
        v.id_of(t) is None ==> v.has_room(space),
    ensures
        extends(v.interned(t, space).0, v),
        v.interned(t, space).0.wf(),
        v.interned(t, space).0.id_of(t) == Some(v.interned(t, space).1),
        v.interned(t, space).0.properties.len() + v.interned(t, space).0.resources.len()
            <= v.properties.len() + v.resources.len() + 1,
        v.interned(t, space).0.resources.len() == v.resources.len() || (space is Resource
            && v.interned(t, space).0.resources.len() == v.resources.len() + 1),
{
    v.lemma_interned(t, space);
}

/// The terms of `tt` that its predicate makes properties have identifiers
/// in the property space, and so has the predicate.
pub open spec fn preplaced(v: Vocabulary, tt: (TermView, TermView, TermView)) -> bool {
    &&& v.id_of(tt.1) is Some
    &&& is_property(v.id_of(tt.1)->0)
    &&& match placement_of(v.id_of(tt.1)->0) {
        Placement::Neither => true,
        Placement::Subject => v.id_of(tt.0) is Some && is_property(v.id_of(tt.0)->0),
        Placement::Both => v.id_of(tt.0) is Some && is_property(v.id_of(tt.0)->0) && v.id_of(
            tt.2,
        ) is Some && is_property(v.id_of(tt.2)->0),
    }
}

/// The identifiers `t` resolve to the terms of the `k`-th triple.
spec fn came_from(v: Vocabulary, t: (u64, u64, u64), triples: Seq<Triple>, k: int) -> bool {
    0 <= k < triples.len() && decoded(v, t) == triples[k]@
}

/// The terms of `tt` are interned and the triple of their identifiers is
/// in `ts`.
spec fn holds_encoded(
    v: Vocabulary,
    ts: Set<(u64, u64, u64)>,
    tt: (TermView, TermView, TermView),
) -> bool {
    &&& v.id_of(tt.0) is Some
    &&& v.id_of(tt.1) is Some
    &&& v.id_of(tt.2) is Some
    &&& ts.contains(encoded(v, tt))
}

/// While no resource has been issued, every identifier is a property.
proof fn lemma_only_properties(v: Vocabulary, t: TermView)
    requires
        v.wf(),
        v.resources.len() == 0,
        v.id_of(t) is Some,
    ensures
        is_property(v.id_of(t)->0),
{
    v.lemma_id_of_issued(t);
}

/// What was placed stays placed when the vocabulary grows.
proof fn lemma_preplaced_kept(v: Vocabulary, next: Vocabulary, tt: (TermView, TermView, TermView))
    requires
        preplaced(v, tt),
        extends(next, v),
    ensures
        preplaced(next, tt),
{
    assert(next.id_of(tt.1) == v.id_of(tt.1));
    match placement_of(v.id_of(tt.1)->0) {
        Placement::Neither => {},
        Placement::Subject => {
            assert(next.id_of(tt.0) == v.id_of(tt.0));
        },
        Placement::Both => {
            assert(next.id_of(tt.0) == v.id_of(tt.0));
            assert(next.id_of(tt.2) == v.id_of(tt.2));
        },
    }
}

/// Growing twice is growing.
proof fn lemma_extends_transitive(a: Vocabulary, b: Vocabulary, c: Vocabulary)
    requires
        extends(b, a),
        extends(c, b),
    ensures
        extends(c, a),
{
    assert forall|u: TermView| a.id_of(u) is Some implies #[trigger] c.id_of(u) == a.id_of(u) by {
        assert(b.id_of(u) == a.id_of(u));
    }
    assert forall|id: u64| #[trigger] a.issued(id) implies c.issued(id) && c.term_of(id)
        == a.term_of(id) by {
        assert(b.issued(id) && b.term_of(id) == a.term_of(id));
    }
}

/// A number of triples that always fits, whatever their terms: each triple
/// brings at most six terms, and so many terms fit both spaces.
pub const LOAD_LIMIT: usize = 700_000_000;

/// Tells from the predicate of a statement which of its subject and object
/// are properties.
pub fn contains_prop_in_s_or_o(p: u64) -> (placement: Placement)
    ensures
        placement == placement_of(p),
{
    if p == OWL_INVERSE_OF || p == OWL_EQUIVALENT_PROPERTY || p == RDFS_SUB_PROPERTY_OF {
        Placement::Both
    } else if p == RDFS_DOMAIN || p == RDFS_RANGE {
        Placement::Subject
    } else {
        Placement::Neither
    }
}

/// What a pattern asks of one position: a term, or nothing.
pub open spec fn wanted_term(t: Option<&Term>) -> Option<TermView> {
    match t {
        Some(t) => Some(t@),
        None => None,
    }
}

/// The triple has the terms that the pattern names.
pub open spec fn terms_match(
    tt: (TermView, TermView, TermView),
    s: Option<TermView>,
    p: Option<TermView>,
    o: Option<TermView>,
) -> bool {
    &&& s is Some ==> tt.0 == s->0
    &&& p is Some ==> tt.1 == p->0
    &&& o is Some ==> tt.2 == o->0
}

/// A dictionary together with the store it owns.
pub struct InfGraph {
    /// The dictionary; the store is reached through it.
    pub dictionary: NodeDictionary,
}

impl View for InfGraph {
    type V = Set<(TermView, TermView, TermView)>;

    /// The triples of terms that the graph holds.
    open spec fn view(&self) -> Set<(TermView, TermView, TermView)> {
        decoded_set(self.dictionary@, self.ids())
    }
}

impl InfGraph {
    /// The triples of identifiers in the store.
    pub open spec fn ids(&self) -> Set<(u64, u64, u64)> {
        self.dictionary.store_view()@
    }

    /// The dictionary and the store are well formed, the store is sorted,
    /// the built-in terms are known, and every identifier in the store was
    /// issued by the dictionary.
    pub open spec fn wf(&self) -> bool {
        &&& self.dictionary.wf()
        &&& self.dictionary@.properties.len() >= BUILTIN_PROPERTIES
        &&& self.dictionary.store_view().wf()
        &&& self.dictionary.store_view().is_sorted()
        &&& all_issued(self.dictionary@, self.ids())
    }

    /// Interns as properties the predicate of `t` and those of its subject
    /// and object that the predicate makes properties.
    fn register(&mut self, t: &Triple)
        requires
            old(self).dictionary.wf(),
            old(self).dictionary@.resources.len() == 0,
            registered_vocabulary(old(self).dictionary@, t@).sized(),
        ensures
            final(self).dictionary.wf(),
            final(self).dictionary@ == registered_vocabulary(old(self).dictionary@, t@),
            final(self).dictionary@.resources.len() == 0,
            extends(final(self).dictionary@, old(self).dictionary@),
            final(self).dictionary.store_view() == old(self).dictionary.store_view(),
            final(self).dictionary@.properties.len() <= old(self).dictionary@.properties.len() + 3,
            preplaced(final(self).dictionary@, t@),
    {
        let ghost v = self.dictionary@;
        proof {
            reveal(registered_vocabulary);
            let v1 = v.interned(t.predicate@, Space::Property).0;
            let v2 = v1.interned(t.subject@, Space::Property).0;
            v.lemma_room_for(t.predicate@, Space::Property);
            v1.lemma_room_for(t.subject@, Space::Property);
            v2.lemma_room_for(t.object@, Space::Property);
            lemma_interned_extends(v, t.predicate@, Space::Property);
        }
        let p = self.dictionary.intern(&t.predicate, Space::Property);
        let ghost v1 = self.dictionary@;
        proof {
            lemma_only_properties(v1, t.predicate@);
        }
        match contains_prop_in_s_or_o(p) {
            Placement::Neither => {},
            Placement::Subject => {
                proof {
                    lemma_interned_extends(v1, t.subject@, Space::Property);
                }
                let _ = self.dictionary.intern(&t.subject, Space::Property);
                proof {
                    let v2 = self.dictionary@;
                    lemma_only_properties(v2, t.subject@);
                    assert(v2.id_of(t.predicate@) == v1.id_of(t.predicate@));
                    lemma_extends_transitive(v, v1, v2);
                }
            },
            Placement::Both => {
                proof {
                    lemma_interned_extends(v1, t.subject@, Space::Property);
                }
                let _ = self.dictionary.intern(&t.subject, Space::Property);
                let ghost v2 = self.dictionary@;
                proof {
                    lemma_interned_extends(v2, t.object@, Space::Property);
                }
                let _ = self.dictionary.intern(&t.object, Space::Property);
                proof {
                    let v3 = self.dictionary@;
                    lemma_only_properties(v3, t.subject@);
                    lemma_only_properties(v3, t.object@);
                    assert(v2.id_of(t.predicate@) == v1.id_of(t.predicate@));
                    assert(v3.id_of(t.predicate@) == v2.id_of(t.predicate@));
                    assert(v3.id_of(t.subject@) == v2.id_of(t.subject@));
                    lemma_extends_transitive(v, v1, v2);
                    lemma_extends_transitive(v, v2, v3);
                }
            },
        }
    }

    /// The graph of `triples`: every term interned, every triple stored
    /// once, the store sorted.
    ///
    /// A term goes to the property space if it stands as a predicate
    /// anywhere in `triples`, or as the subject or object of a statement
    /// whose predicate makes it a property; all other terms go to the
    /// resource space. The terms must fit: each space has room for the
    /// distinct terms that go to it, which `lemma_load_limit` shows for
    /// any input of up to `LOAD_LIMIT` triples.
    #[verifier::rlimit(40)]
    pub fn load(triples: &Vec<Triple>) -> (graph: InfGraph)
        requires
            loaded_vocabulary(triples@).sized(),
        ensures
            graph.wf(),
            graph@ == triple_views(triples@).to_set(),
            graph.dictionary@ == loaded_vocabulary(triples@),
            extends(graph.dictionary@, builtin_vocabulary()),
            forall|k: int|
                0 <= k < triples.len() ==> preplaced(graph.dictionary@, (#[trigger] triples@[k])@),
    {
        let store = TripleStore::new();
        let dictionary = NodeDictionary::new(store);
        let mut me = InfGraph { dictionary };
        let n = triples.len();
        let mut i: usize = 0;
        proof {
            lemma_builtin_vocabulary();
        }
        while i < n
            invariant
                i <= n,
                n == triples.len(),
                loaded_vocabulary(triples@).sized(),
                me.dictionary.wf(),
                me.dictionary@.resources.len() == 0,
                me.dictionary@ == after_registering(builtin_vocabulary(), triples@.take(i as int)),
                extends(me.dictionary@, builtin_vocabulary()),
                me.dictionary.store_view().wf(),
                me.dictionary.store_view()@ == Set::<(u64, u64, u64)>::empty(),
                forall|k: int| 0 <= k < i ==> preplaced(me.dictionary@, (#[trigger] triples@[k])@),
            decreases n - i,
        {
            let ghost v = me.dictionary@;
            proof {
                lemma_register_fits(triples@, i as int);
            }
            me.register(&triples[i]);
            proof {
                lemma_extends_transitive(builtin_vocabulary(), v, me.dictionary@);
                assert forall|k: int| 0 <= k < i + 1 implies preplaced(
                    me.dictionary@,
                    (#[trigger] triples@[k])@,
                ) by {
                    if k < i {
                        lemma_preplaced_kept(v, me.dictionary@, triples@[k]@);
                    }
                }
            }
            i += 1;
        }
        let ghost registered = me.dictionary@;
        proof {
            assert(triples@.take(i as int) =~= triples@);
            assert(triples@.take(0) =~= Seq::<Triple>::empty());
        }
        i = 0;
        while i < n
            invariant
                i <= n,
                n == triples.len(),
                loaded_vocabulary(triples@).sized(),
                registered == after_registering(builtin_vocabulary(), triples@),
                me.dictionary.wf(),
                me.dictionary@ == after_encoding(registered, triples@.take(i as int)),
                extends(me.dictionary@, builtin_vocabulary()),
                me.dictionary.store_view().wf(),
                all_issued(me.dictionary@, me.ids()),
                forall|k: int| 0 <= k < n ==> preplaced(me.dictionary@, (#[trigger] triples@[k])@),
                forall|t: (u64, u64, u64)| #[trigger]
                    me.ids().contains(t) ==> exists|k: int|
                        k < i && #[trigger] came_from(me.dictionary@, t, triples@, k),
                forall|k: int|
                    0 <= k < i ==> holds_encoded(
                        me.dictionary@,
                        me.ids(),
                        (#[trigger] triples@[k])@,
                    ),
            decreases n - i,
        {
            let ghost v = me.dictionary@;
            let ghost before = me.ids();
            proof {
                lemma_encode_fits(triples@, i as int);
            }
            let ids = me.encode_triple(&triples[i]);
            let ghost w = me.dictionary@;
            proof {
                lemma_extends_transitive(builtin_vocabulary(), v, w);
                let tt = triples@[i as int]@;
                assert(preplaced(v, tt));
                assert(w.id_of(tt.1) == v.id_of(tt.1));
                w.lemma_id_of_issued(tt.0);
                w.lemma_id_of_issued(tt.1);
                w.lemma_id_of_issued(tt.2);
            }
            me.dictionary.store_mut().add_triple(ids);
            proof {
                let t_new = (ids[0], ids[1], ids[2]);
                assert(me.ids() == before.insert(t_new));
                assert(came_from(w, t_new, triples@, i as int));
                assert forall|t: (u64, u64, u64)| #[trigger] me.ids().contains(t) implies exists|
                    k: int,
                |
                    k < i + 1 && #[trigger] came_from(w, t, triples@, k) by {
                    if t != t_new {
                        let k = choose|k: int| k < i && #[trigger] came_from(v, t, triples@, k);
                        assert(before.contains(t));
                        assert(decoded(w, t) == decoded(v, t));
                        assert(came_from(w, t, triples@, k));
                    }
                }
                assert forall|k: int| 0 <= k < i + 1 implies holds_encoded(
                    w,
                    me.ids(),
                    (#[trigger] triples@[k])@,
                ) by {
                    if k < i {
                        let tt = triples@[k]@;
                        assert(holds_encoded(v, before, tt));
                        assert(w.id_of(tt.0) == v.id_of(tt.0));
                        assert(w.id_of(tt.1) == v.id_of(tt.1));
                        assert(w.id_of(tt.2) == v.id_of(tt.2));
                    }
                }
                assert forall|k: int| 0 <= k < n implies preplaced(w, (#[trigger] triples@[k])@) by {
                    lemma_preplaced_kept(v, w, triples@[k]@);
                }
                assert(all_issued(w, me.ids())) by {
                    assert forall|t: (u64, u64, u64)| #[trigger] me.ids().contains(t) implies w.issued(
                        t.0,
                    ) && w.issued(t.1) && w.issued(t.2) by {
                        if t != t_new {
                            assert(before.contains(t));
                        }
                    }
                }
            }
            i += 1;
        }
        let ghost v = me.dictionary@;
        let ghost stored = me.ids();
        proof {
            assert(triples@.take(i as int) =~= triples@);
        }
        let store = me.dictionary.store_mut();
        store.sort();
        proof {
            let views = triple_views(triples@);
            assert forall|tt: (TermView, TermView, TermView)| me@.contains(tt) <==> views.to_set().contains(
                tt,
            ) by {
                if me@.contains(tt) {
                    let t = choose|t: (u64, u64, u64)|
                        #[trigger] stored.contains(t) && decoded(v, t) == tt;
                    let k = choose|k: int| k < n && #[trigger] came_from(v, t, triples@, k);
                    assert(views[k] == tt);
                }
                if views.to_set().contains(tt) {
                    let k = choose|k: int| 0 <= k < views.len() && views[k] == tt;
                    assert(holds_encoded(v, stored, triples@[k]@));
                    v.lemma_id_of_issued(tt.0);
                    v.lemma_id_of_issued(tt.1);
                    v.lemma_id_of_issued(tt.2);
                    assert(stored.contains(encoded(v, tt)) && decoded(v, encoded(v, tt)) == tt);
                }
            }
            assert(me@ =~= views.to_set());
        }
        me
    }

    /// The graph of `triples` as `load` makes it, after a check of every
    /// term. Loading stops at the first triple that has a malformed term and
    /// reports it; nothing is loaded then.
    pub fn load_checked(triples: &Vec<Triple>) -> (r: Result<InfGraph, LoadError>)
        requires
            loaded_vocabulary(triples@).sized(),
        ensures
            is_load_outcome(r, triples@),
    {
        let mut i: usize = 0;
        while i < triples.len()
            invariant
                i <= triples.len(),
                forall|k: int| 0 <= k < i ==> triple_fault(#[trigger] triples@[k]@) is None,
            decreases triples.len() - i,
        {
            match triples[i].check() {
                Err(error) => {
                    return Err(LoadError::MalformedTerm { index: i, error });
                },
                Ok(_) => {},
            }
            i += 1;
        }
        Ok(InfGraph::load(triples))
    }

    /// Interns the three terms of `t` and returns their identifiers,
    /// subject first. The predicate goes to the property space; so do the
    /// subject and the object where the predicate says that they are
    /// properties; the others go to the resource space. A term that was
    /// interned before keeps its identifier, whatever its space.
    pub fn encode_triple(&mut self, t: &Triple) -> (ids: [u64; 3])
        requires
            old(self).dictionary.wf(),
            encoded_vocabulary(old(self).dictionary@, t@).sized(),
        ensures
            final(self).dictionary.wf(),
            final(self).dictionary@ == encoded_vocabulary(old(self).dictionary@, t@),
            extends(final(self).dictionary@, old(self).dictionary@),
            final(self).dictionary.store_view() == old(self).dictionary.store_view(),
            final(self).dictionary@.properties.len() + final(self).dictionary@.resources.len()
                <= old(self).dictionary@.properties.len() + old(self).dictionary@.resources.len()
                + 3,
            final(self).dictionary@.id_of(t.subject@) == Some(ids[0]),
            final(self).dictionary@.id_of(t.predicate@) == Some(ids[1]),
            final(self).dictionary@.id_of(t.object@) == Some(ids[2]),
            old(self).dictionary@.resources.len() == 0 ==> is_property(ids[1]),
            ({
                let v = old(self).dictionary@;
                let (v1, p) = v.interned(t.predicate@, Space::Property);
                let (v2, s) = v1.interned(t.subject@, subject_space(placement_of(p)));
                let (v3, o) = v2.interned(t.object@, object_space(placement_of(p)));
                final(self).dictionary@ == v3 && ids[0] == s && ids[1] == p && ids[2] == o
            }),
    {
        let ghost v = self.dictionary@;
        proof {
            reveal(encoded_vocabulary);
            let (v1, p) = v.interned(t.predicate@, Space::Property);
            let v2 = v1.interned(t.subject@, subject_space(placement_of(p))).0;
            v.lemma_room_for(t.predicate@, Space::Property);
            v1.lemma_room_for(t.subject@, subject_space(placement_of(p)));
            v2.lemma_room_for(t.object@, object_space(placement_of(p)));
            lemma_interned_extends(v, t.predicate@, Space::Property);
        }
        let p = self.dictionary.intern(&t.predicate, Space::Property);
        let ghost v1 = self.dictionary@;
        let placement = contains_prop_in_s_or_o(p);
        let (first, second) = match placement {
            Placement::Neither => (Space::Resource, Space::Resource),
            Placement::Subject => (Space::Property, Space::Resource),
            Placement::Both => (Space::Property, Space::Property),
        };
        proof {
            lemma_interned_extends(v1, t.subject@, first);
        }
        let s = self.dictionary.intern(&t.subject, first);
        let ghost v2 = self.dictionary@;
        proof {
            lemma_interned_extends(v2, t.object@, second);
        }
        let o = self.dictionary.intern(&t.object, second);
        proof {
            let v3 = self.dictionary@;
            assert(v3.id_of(t.subject@) == v2.id_of(t.subject@));
            assert(v2.id_of(t.predicate@) == v1.id_of(t.predicate@));
            assert(v3.id_of(t.predicate@) == v2.id_of(t.predicate@));
            if v.resources.len() == 0 {
                v1.lemma_id_of_issued(t.predicate@);
            }
        }
        [s, p, o]
    }

    /// Every triple of the graph, as terms: one for each stored pair,
    /// chunk after chunk, the pairs of each chunk in stored order. The graph
    /// is not changed, so the walk can be repeated at will and gives the
    /// same sequence each time.
    pub fn triples(&self) -> (out: Vec<Triple>)
        requires
            self.wf(),
        ensures
            triple_views(out@).to_set() == self@,
            triple_views(out@).no_duplicates(),
            out.len() == self.dictionary.store_view().raw_len(),
            triple_views(out@) == decoded_seq(
                self.dictionary@,
                self.dictionary.store_view().listed(),
            ),
    {
        let store = self.dictionary.store();
        let ghost v = self.dictionary@;
        let ghost chunks = store.chunks();
        let mut out: Vec<Triple> = Vec::new();
        let ghost mut walked: Seq<(u64, u64, u64)> = Seq::empty();
        let mut ip: usize = 0;
        proof {
            assert(triples_of(chunks.take(0)) =~= Set::<(u64, u64, u64)>::empty());
            assert(walked.to_set() =~= Set::<(u64, u64, u64)>::empty());
        }
        while ip < store.slots()
            invariant
                ip <= store.num_slots(),
                self.wf(),
                store == self.dictionary.store_view(),
                v == self.dictionary@,
                chunks == store.chunks(),
                walked.len() == out.len(),
                walked.no_duplicates(),
                out.len() == total_pairs(chunks.take(ip as int)),
                forall|m: int| 0 <= m < out.len() ==> (#[trigger] out@[m])@ == decoded(v, walked[m]),
                walked.to_set() == triples_of(chunks.take(ip as int)),
                walked == listing(chunks.take(ip as int)),
            decreases store.num_slots() - ip,
        {
            let ghost c = chunks[ip as int];
            let ghost done = triples_of(chunks.take(ip as int));
            let ghost walked_before = walked;
            let pairs = match store.chunk(ip) {
                Some(chunk) => chunk.so(),
                None => { return out; },
            };
            proof {
                assert(walked =~= walked_before + lifted_seq(c.pairs().take(0), ip as int));
                assert(pairs_of(pairs@.take(0)).to_set() =~= Set::<(u64, u64)>::empty());
                assert(lifted(pairs_of(pairs@.take(0)).to_set(), ip as int) =~= Set::<
                    (u64, u64, u64),
                >::empty());
                assert(walked.to_set() =~= done + lifted(
                    pairs_of(pairs@.take(0)).to_set(),
                    ip as int,
                ));
                assert(chunks.take(ip + 1).drop_last() =~= chunks.take(ip as int));
                assert(chunks.take(ip + 1) =~= chunks.take(ip as int).push(c));
            }
            if !pairs.is_empty() {
                let ip_prop = slot_to_property(ip);
                let mut k: usize = 0;
                while k < pairs.len()
                    invariant
                        k <= pairs.len(),
                        ip < store.num_slots(),
                        self.wf(),
                        store == self.dictionary.store_view(),
                        v == self.dictionary@,
                        chunks == store.chunks(),
                        c == chunks[ip as int],
                        pairs@ == c.so_view(),
                        ip_prop == property_at(ip as int),
                        walked.len() == out.len(),
                        walked.no_duplicates(),
                        done == triples_of(chunks.take(ip as int)),
                        out.len() == total_pairs(chunks.take(ip as int)) + k,
                        forall|m: int|
                            0 <= m < out.len() ==> (#[trigger] out@[m])@ == decoded(v, walked[m]),
                        walked.to_set() == done + lifted(
                            pairs_of(pairs@.take(k as int)).to_set(),
                            ip as int,
                        ),
                        walked == walked_before + lifted_seq(c.pairs().take(k as int), ip as int),
                    decreases pairs.len() - k,
                {
                    let is = pairs[k][0];
                    let io = pairs[k][1];
                    proof {
                        assert(c.pairs()[k as int] == pair_of(pairs@[k as int]));
                        assert(c.relation().contains(c.pairs()[k as int]));
                        assert(self.ids().contains((is, ip_prop, io)));
                    }
                    let p = self.dictionary.resolve(ip_prop);
                    let s = self.dictionary.resolve(is);
                    let o = self.dictionary.resolve(io);
                    let triple = Triple { subject: s.copy(), predicate: p.copy(), object: o.copy() };
                    let ghost seen = pairs_of(pairs@.take(k as int));
                    let ghost walked0 = walked;
                    out.push(triple);
                    proof {
                        let x = pair_of(pairs@[k as int]);
                        if walked0.contains((is, ip_prop, io)) {
                            assert(walked0.to_set().contains((is, ip_prop, io)));
                            assert(seen.contains(x));
                            let m = choose|m: int| 0 <= m < seen.len() && seen[m] == x;
                            assert(c.pairs()[m] == x);
                            assert(pair_lt(c.pairs()[m], c.pairs()[k as int]));
                        }
                        walked = walked0.push((is, ip_prop, io));
                        assert(walked =~= walked_before + lifted_seq(
                            c.pairs().take(k + 1),
                            ip as int,
                        ));
                        walked0.lemma_push_to_set_commute((is, ip_prop, io));
                        assert(pairs_of(pairs@.take(k + 1)) =~= seen.push(x));
                        seen.lemma_push_to_set_commute(x);
                        assert(lifted(seen.push(x).to_set(), ip as int) =~= lifted(
                            seen.to_set(),
                            ip as int,
                        ).insert((x.0, property_at(ip as int), x.1)));
                        assert(walked.to_set() =~= done + lifted(
                            pairs_of(pairs@.take(k + 1)).to_set(),
                            ip as int,
                        ));
                    }
                    k += 1;
                }
                proof {
                    assert(pairs@.take(k as int) =~= pairs@);
                }
            } else {
                proof {
                    assert(pairs@.take(0) =~= pairs@);
                }
            }
            proof {
                lemma_triples_push(chunks.take(ip as int), c);
                assert(walked =~= walked_before + lifted_seq(c.pairs(), ip as int));
                assert(chunks.take(ip + 1).last() == c);
            }
            ip += 1;
        }
        proof {
            assert(chunks.take(ip as int) =~= chunks);
            assert(triple_views(out@) =~= decoded_seq(v, walked));
            let views = triple_views(out@);
            assert forall|tt: (TermView, TermView, TermView)| views.to_set().contains(tt)
                <==> self@.contains(tt) by {
                if views.to_set().contains(tt) {
                    let m = choose|m: int| 0 <= m < views.len() && views[m] == tt;
                    assert(out@[m]@ == decoded(v, walked[m]));
                    assert(walked.to_set().contains(walked[m]));
                }
                if self@.contains(tt) {
                    let t = choose|t: (u64, u64, u64)|
                        #[trigger] self.ids().contains(t) && decoded(v, t) == tt;
                    assert(walked.contains(t));
                    let m = choose|m: int| 0 <= m < walked.len() && walked[m] == t;
                    assert(views[m] == tt);
                }
            }
            assert(views.to_set() =~= self@);
            assert forall|a: int, b: int|
                0 <= a < views.len() && 0 <= b < views.len() && a != b implies views[a]
                != views[b] by {
                assert(out@[a]@ == decoded(v, walked[a]));
                assert(out@[b]@ == decoded(v, walked[b]));
                assert(walked.to_set().contains(walked[a]));
                assert(walked.to_set().contains(walked[b]));
                if views[a] == views[b] {
                    lemma_decoded_injective(v, walked[a], walked[b]);
                }
            }
        }
        out
    }

    /// The triples of the graph whose predicate is `p`, each once, in the
    /// stored order of its chunk.
    pub fn triples_with_p(&self, p: &Term) -> (out: Vec<Triple>)
        requires
            self.wf(),
        ensures
            triple_views(out@).to_set() == self@.filter(
                |tt: (TermView, TermView, TermView)| tt.1 == p@,
            ),
            triple_views(out@).no_duplicates(),
            triple_views(out@) == decoded_seq(self.dictionary@, self.listed_with(p@)),
    {
        let ghost v = self.dictionary@;
        let ghost wanted = self@.filter(|tt: (TermView, TermView, TermView)| tt.1 == p@);
        let mut out: Vec<Triple> = Vec::new();
        let found = match self.dictionary.lookup(p) {
            Some(ip) => if is_property_id(ip) {
                match self.dictionary.store().chunk(property_to_slot(ip)) {
                    Some(chunk) => Some((ip, chunk)),
                    None => None,
                }
            } else {
                None
            },
            None => None,
        };
        let (ip, chunk) = match found {
            Some(found) => found,
            None => {
                proof {
                    assert forall|tt: (TermView, TermView, TermView)| !wanted.contains(tt) by {
                        if wanted.contains(tt) {
                            let t = choose|t: (u64, u64, u64)|
                                #[trigger] self.ids().contains(t) && decoded(v, t) == tt;
                            v.lemma_term_of_id(t.1);
                        }
                    }
                    assert(triple_views(out@).to_set() =~= wanted);
                    assert(triple_views(out@) =~= decoded_seq(v, self.listed_with(p@)));
                }
                return out;
            },
        };
        let pairs = chunk.so();
        let ghost c = self.dictionary.store_view().chunks()[slot_of(ip)];
        let mut k: usize = 0;
        while k < pairs.len()
            invariant
                k <= pairs.len(),
                self.wf(),
                v == self.dictionary@,
                v.id_of(p@) == Some(ip),
                is_property(ip),
                slot_of(ip) < self.dictionary.store_view().num_slots(),
                c == self.dictionary.store_view().chunks()[slot_of(ip)],
                pairs@ == c.so_view(),
                out.len() == k,
                forall|m: int|
                    0 <= m < k ==> (#[trigger] out@[m])@ == decoded(
                        v,
                        (pairs@[m][0], ip, pairs@[m][1]),
                    ),
            decreases pairs.len() - k,
        {
            let is = pairs[k][0];
            let io = pairs[k][1];
            proof {
                assert(c.pairs()[k as int] == pair_of(pairs@[k as int]));
                assert(c.relation().contains(c.pairs()[k as int]));
                assert(self.ids().contains((is, ip, io)));
                v.lemma_id_of_issued(p@);
            }
            let s = self.dictionary.resolve(is);
            let o = self.dictionary.resolve(io);
            out.push(Triple { subject: s.copy(), predicate: p.copy(), object: o.copy() });
            k += 1;
        }
        proof {
            let views = triple_views(out@);
            v.lemma_id_of_issued(p@);
            assert(views =~= decoded_seq(v, self.listed_with(p@)));
            assert forall|m: int| 0 <= m < views.len() implies self.ids().contains(
                (#[trigger] pairs@[m][0], ip, pairs@[m][1]),
            ) by {
                assert(c.pairs()[m] == pair_of(pairs@[m]));
                assert(c.relation().contains(c.pairs()[m]));
            }
            assert forall|tt: (TermView, TermView, TermView)| views.to_set().contains(tt)
                <==> wanted.contains(tt) by {
                if views.to_set().contains(tt) {
                    let m = choose|m: int| 0 <= m < views.len() && views[m] == tt;
                    assert(self.ids().contains((pairs@[m][0], ip, pairs@[m][1])));
                }
                if wanted.contains(tt) {
                    let t = choose|t: (u64, u64, u64)|
                        #[trigger] self.ids().contains(t) && decoded(v, t) == tt;
                    v.lemma_term_of_id(t.1);
                    assert(t.1 == ip);
                    assert(c.pairs().contains((t.0, t.2)));
                    let m = choose|m: int| 0 <= m < c.pairs().len() && c.pairs()[m] == (t.0, t.2);
                    assert(views[m] == tt);
                }
            }
            assert(views.to_set() =~= wanted);
            assert forall|a: int, b: int|
                0 <= a < views.len() && 0 <= b < views.len() && a != b implies views[a]
                != views[b] by {
                let ta = (pairs@[a][0], ip, pairs@[a][1]);
                let tb = (pairs@[b][0], ip, pairs@[b][1]);
                assert(self.ids().contains(ta) && self.ids().contains(tb));
                if a < b {
                    assert(pair_lt(c.pairs()[a], c.pairs()[b]));
                } else {
                    assert(pair_lt(c.pairs()[b], c.pairs()[a]));
                }
                if views[a] == views[b] {
                    lemma_decoded_injective(v, ta, tb);
                }
            }
        }
        out
    }

    /// The triples of the predicate `p`, as `triples_with_p` lists them: the
    /// pairs of its chunk in stored order; none where `p` is not the term
    /// of a property or has no chunk.
    pub open spec fn listed_with(&self, p: TermView) -> Seq<(u64, u64, u64)> {
        match self.dictionary@.id_of(p) {
            Some(ip) => if is_property(ip) && slot_of(ip)
                < self.dictionary.store_view().num_slots() {
                lifted_seq(self.dictionary.store_view().chunks()[slot_of(ip)].pairs(), slot_of(ip))
            } else {
                Seq::empty()
            },
            None => Seq::empty(),
        }
    }

    /// The triples of identifiers that match a pattern of terms, as
    /// `triples_matching` lists them: none where the pattern names a term
    /// that the dictionary does not hold, else what the store lists for the
    /// identifiers of the named terms.
    pub open spec fn listed_matching(
        &self,
        s: Option<TermView>,
        p: Option<TermView>,
        o: Option<TermView>,
    ) -> Seq<(u64, u64, u64)> {
        let v = self.dictionary@;
        if names_unknown(v, s) || names_unknown(v, p) || names_unknown(v, o) {
            Seq::empty()
        } else {
            self.dictionary.store_view().matched(named_id(v, s), named_id(v, p), named_id(v, o))
        }
    }

    /// The identifier that a pattern asks for at one position: `Ok(None)`
    /// where the position is free, `Ok(Some(id))` where it names a term that
    /// the dictionary knows, `Err(())` where it names one that it does not.
    fn wanted_id(&self, t: Option<&Term>) -> (r: Result<Option<u64>, ()>)
        requires
            self.dictionary.wf(),
        ensures
            match r {
                Ok(None) => t is None,
                Ok(Some(id)) => t is Some && self.dictionary@.id_of(t->0@) == Some(id),
                Err(_) => t is Some && self.dictionary@.id_of(t->0@) is None,
            },
    {
        match t {
            None => Ok(None),
            Some(term) => match self.dictionary.lookup(term) {
                Some(id) => Ok(Some(id)),
                None => Err(()),
            },
        }
    }

    /// The triples of the graph that match a pattern, each once: `s`, `p`
    /// and `o` name the subject, the predicate and the object that a triple
    /// must have, or leave them free. The graph holds the same triples
    /// afterwards; only the object-major pairs of the chunks searched by
    /// object are rebuilt where they were stale.
    pub fn triples_matching(&mut self, s: Option<&Term>, p: Option<&Term>, o: Option<&Term>) -> (out:
        Vec<Triple>)
        requires
            old(self).wf(),
        ensures
            final(self).wf(),
            final(self).ids() == old(self).ids(),
            final(self).dictionary@ == old(self).dictionary@,
            triple_views(out@).to_set() == old(self)@.filter(
                |tt: (TermView, TermView, TermView)|
                    terms_match(tt, wanted_term(s), wanted_term(p), wanted_term(o)),
            ),
            triple_views(out@).no_duplicates(),
            triple_views(out@) == decoded_seq(
                old(self).dictionary@,
                old(self).listed_matching(wanted_term(s), wanted_term(p), wanted_term(o)),
            ),
            forall|i: int|
                0 <= i < old(self).dictionary.store_view().num_slots() ==> (
                #[trigger] final(self).dictionary.store_view().chunks()[i]).so_view() == old(self).dictionary.store_view().chunks()[i].so_view(),
    {
        let ghost v = self.dictionary@;
        let ghost ids = self.ids();
        let ghost expected = self.listed_matching(wanted_term(s), wanted_term(p), wanted_term(o));
        let ghost wanted = self@.filter(
            |tt: (TermView, TermView, TermView)|
                terms_match(tt, wanted_term(s), wanted_term(p), wanted_term(o)),
        );
        let mut out: Vec<Triple> = Vec::new();
        let pattern = match (self.wanted_id(s), self.wanted_id(p), self.wanted_id(o)) {
            (Ok(is), Ok(ip), Ok(io)) => Some((is, ip, io)),
            _ => None,
        };
        let (is, ip, io) = match pattern {
            Some(pattern) => pattern,
            None => {
                proof {
                    assert forall|tt: (TermView, TermView, TermView)| !wanted.contains(tt) by {
                        if wanted.contains(tt) {
                            let t = choose|t: (u64, u64, u64)|
                                #[trigger] ids.contains(t) && decoded(v, t) == tt;
                            v.lemma_term_of_id(t.0);
                            v.lemma_term_of_id(t.1);
                            v.lemma_term_of_id(t.2);
                        }
                    }
                    assert(triple_views(out@).to_set() =~= wanted);
                    assert(triple_views(out@) =~= decoded_seq(v, expected));
                }
                return out;
            },
        };
        let store = self.dictionary.store_mut();
        let found = store.matching(is, ip, io);
        let ghost listed = triples_in(found@);
        proof {
            assert(listed == expected);
            assert forall|m: int| 0 <= m < listed.len() implies ids.contains(
                #[trigger] listed[m],
            ) by {
                assert(listed.to_set().contains(listed[m]));
            }
        }
        let mut k: usize = 0;
        while k < found.len()
            invariant
                k <= found.len(),
                self.wf(),
                self.ids() == ids,
                self.dictionary@ == v,
                listed == triples_in(found@),
                forall|m: int| 0 <= m < listed.len() ==> ids.contains(#[trigger] listed[m]),
                out.len() == k,
                forall|m: int| 0 <= m < k ==> (#[trigger] out@[m])@ == decoded(v, listed[m]),
            decreases found.len() - k,
        {
            let t = &found[k];
            proof {
                assert(ids.contains(listed[k as int]));
            }
            let subject = self.dictionary.resolve(t[0]);
            let predicate = self.dictionary.resolve(t[1]);
            let object = self.dictionary.resolve(t[2]);
            out.push(
                Triple {
                    subject: subject.copy(),
                    predicate: predicate.copy(),
                    object: object.copy(),
                },
            );
            k += 1;
        }
        proof {
            let views = triple_views(out@);
            assert(views =~= decoded_seq(v, expected));
            if s is Some {
                v.lemma_id_of_issued(s->0@);
            }
            if p is Some {
                v.lemma_id_of_issued(p->0@);
            }
            if o is Some {
                v.lemma_id_of_issued(o->0@);
            }
            assert forall|tt: (TermView, TermView, TermView)| views.to_set().contains(tt)
                <==> wanted.contains(tt) by {
                if views.to_set().contains(tt) {
                    let m = choose|m: int| 0 <= m < views.len() && views[m] == tt;
                    assert(out@[m]@ == decoded(v, listed[m]));
                    assert(listed.to_set().contains(listed[m]));
                    assert(ids.contains(listed[m]));
                }
                if wanted.contains(tt) {
                    let t = choose|t: (u64, u64, u64)|
                        #[trigger] ids.contains(t) && decoded(v, t) == tt;
                    v.lemma_term_of_id(t.0);
                    v.lemma_term_of_id(t.1);
                    v.lemma_term_of_id(t.2);
                    assert(listed.to_set().contains(t));
                    let m = choose|m: int| 0 <= m < listed.len() && listed[m] == t;
                    assert(views[m] == tt);
                }
            }
            assert(views.to_set() =~= wanted);
            assert forall|a: int, b: int|
                0 <= a < views.len() && 0 <= b < views.len() && a != b implies views[a]
                != views[b] by {
                assert(out@[a]@ == decoded(v, listed[a]));
                assert(out@[b]@ == decoded(v, listed[b]));
                assert(ids.contains(listed[a]) && ids.contains(listed[b]));
                if views[a] == views[b] {
                    lemma_decoded_injective(v, listed[a], listed[b]);
                }
            }
        }
        out
    }

    /// The number of triples in the graph.
    pub fn size(&self) -> (n: usize)
        ensures
            n == self.dictionary.store_view().counted(),
            self.wf() ==> self@.finite() && n == clip(self@.len()),
            self.wf() ==> self.ids().finite() && n == clip(self.ids().len()),
    {
        proof {
            if self.wf() {
                lemma_sorted_len(self.dictionary.store_view().chunks());
                lemma_decoded_len(self.dictionary@, self.ids());
            }
        }
        self.dictionary.store().size()
    }
}

} // verus!
