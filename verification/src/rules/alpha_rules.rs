//! Rules with two premises: every triple of one predicate is matched against
//! every triple of another, and where the designated terms agree a triple is
//! concluded from the terms of the two.
//!
//! The match is a nested loop over the two chunks, so one application costs
//! the product of their sizes. That is deliberate: these rules join schema
//! statements (subclass, equivalent class) with instance statements of one
//! predicate, and the schema side is small.

use crate::inferray::dictionary::{
    is_property, is_property_id, property_at, property_to_slot, slot_of, slot_to_property,
    OWL_EQUIVALENT_CLASS, RDFS_SUB_CLASS_OF, RDF_TYPE, START_INDEX,
};
use crate::inferray::pairs::pair_of;
use crate::inferray::store::TripleStore;
use vstd::prelude::*;

verus! {

/// One of the six terms of two matched triples.
#[derive(Clone, Copy, PartialEq, Eq, Debug)]
pub enum Position {
    /// Subject of the first triple.
    FirstSubject,
    /// Predicate of the first triple.
    FirstPredicate,
    /// Object of the first triple.
    FirstObject,
    /// Subject of the second triple.
    SecondSubject,
    /// Predicate of the second triple.
    SecondPredicate,
    /// Object of the second triple.
    SecondObject,
}

/// A two-premise rule: which terms must agree, and which terms make up the
/// conclusion.
#[derive(Clone, Copy, Debug)]
pub struct Projection {
    /// Subject of the conclusion.
    pub subject: Position,
    /// Predicate of the conclusion.
    pub predicate: Position,
    /// Object of the conclusion.
    pub object: Position,
    /// The term that must equal `right`.
    pub left: Position,
    /// The term that must equal `left`.
    pub right: Position,
}

/// The term of `(t1, t2)` at `pos`.
pub open spec fn term_at(pos: Position, t1: (u64, u64, u64), t2: (u64, u64, u64)) -> u64 {
    match pos {
        Position::FirstSubject => t1.0,
        Position::FirstPredicate => t1.1,
        Position::FirstObject => t1.2,
        Position::SecondSubject => t2.0,
        Position::SecondPredicate => t2.1,
        Position::SecondObject => t2.2,
    }
}

/// The triple that `rule` concludes from `(t1, t2)`.
pub open spec fn conclusion(rule: Projection, t1: (u64, u64, u64), t2: (u64, u64, u64)) -> (
    u64,
    u64,
    u64,
) {
    (term_at(rule.subject, t1, t2), term_at(rule.predicate, t1, t2), term_at(rule.object, t1, t2))
}

/// `rule` fires on `(t1, t2)`: the designated terms agree, and the
/// predicate of the conclusion is a property, so that it can be stored.
pub open spec fn fires(rule: Projection, t1: (u64, u64, u64), t2: (u64, u64, u64)) -> bool {
    &&& term_at(rule.left, t1, t2) == term_at(rule.right, t1, t2)
    &&& is_property(term_at(rule.predicate, t1, t2))
}

/// `t` is concluded from the triples `t1` of predicate `pa` and `t2` of
/// predicate `pb`.
pub open spec fn alpha_step(
    ts: Set<(u64, u64, u64)>,
    pa: u64,
    pb: u64,
    rule: Projection,
    t1: (u64, u64, u64),
    t2: (u64, u64, u64),
    t: (u64, u64, u64),
) -> bool {
    &&& ts.contains(t1)
    &&& t1.1 == pa
    &&& ts.contains(t2)
    &&& t2.1 == pb
    &&& fires(rule, t1, t2)
    &&& t == conclusion(rule, t1, t2)
}

/// Everything that `rule` concludes from the triples of `ts` with predicate
/// `pa` matched against those with predicate `pb`.
pub open spec fn alpha_derived(ts: Set<(u64, u64, u64)>, pa: u64, pb: u64, rule: Projection) -> Set<
    (u64, u64, u64),
> {
    Set::new(
        |t: (u64, u64, u64)|
            exists|t1: (u64, u64, u64), t2: (u64, u64, u64)|
                #[trigger] alpha_step(ts, pa, pb, rule, t1, t2, t),
    )
}

/// The triples that `rule` emits for the triple `t1` matched against the
/// pairs `second` of predicate `pb`, in the order of `second`.
pub open spec fn alpha_row(rule: Projection, t1: (u64, u64, u64), second: Seq<(u64, u64)>, pb: u64) -> Seq<
    (u64, u64, u64),
>
    decreases second.len(),
{
    if second.len() == 0 {
        Seq::empty()
    } else if fires(rule, t1, (second.last().0, pb, second.last().1)) {
        alpha_row(rule, t1, second.drop_last(), pb).push(
            conclusion(rule, t1, (second.last().0, pb, second.last().1)),
        )
    } else {
        alpha_row(rule, t1, second.drop_last(), pb)
    }
}

/// The triples that `rule` emits for the pairs `first` of predicate `pa`
/// matched against the pairs `second` of predicate `pb`: for each pair of
/// `first` in turn, its row.
pub open spec fn alpha_seq(
    rule: Projection,
    first: Seq<(u64, u64)>,
    pa: u64,
    second: Seq<(u64, u64)>,
    pb: u64,
) -> Seq<(u64, u64, u64)>
    decreases first.len(),
{
    if first.len() == 0 {
        Seq::empty()
    } else {
        alpha_seq(rule, first.drop_last(), pa, second, pb) + alpha_row(
            rule,
            (first.last().0, pa, first.last().1),
            second,
            pb,
        )
    }
}

/// The triples that `rule` emits on the chunks in slots `id_1` and `id_2`,
/// in order: the pairs of the first chunk in stored order, each matched
/// against the pairs of the second in stored order. None where either slot
/// is not in use.
pub open spec fn alpha_emitted(ts: TripleStore, id_1: int, id_2: int, rule: Projection) -> Seq<
    (u64, u64, u64),
> {
    if 0 <= id_1 < ts.num_slots() && 0 <= id_2 < ts.num_slots() {
        alpha_seq(
            rule,
            ts.chunks()[id_1].pairs(),
            property_at(id_1),
            ts.chunks()[id_2].pairs(),
            property_at(id_2),
        )
    } else {
        Seq::empty()
    }
}

/// The term at `pos` of the two triples given by their parts.
fn pick(pos: Position, first: &[u64; 2], pa: u64, second: &[u64; 2], pb: u64) -> (v: u64)
    ensures
        v == term_at(pos, (first[0], pa, first[1]), (second[0], pb, second[1])),
{
    match pos {
        Position::FirstSubject => first[0],
        Position::FirstPredicate => pa,
        Position::FirstObject => first[1],
        Position::SecondSubject => second[0],
        Position::SecondPredicate => pb,
        Position::SecondObject => second[1],
    }
}

/// Applies the two-premise rule `rule` to the chunks in slots `id_1` and
/// `id_2` and returns what it concludes. A slot that is not in use
/// contributes nothing.
///
/// The output is a new store laid out as the rule emitted: one pair for
/// each match, in the order of the first chunk and, for each of its pairs,
/// of the second, duplicates included; no slot is in use where nothing was
/// emitted.
pub fn apply_alpha_rule(ts: &TripleStore, id_1: usize, id_2: usize, rule: Projection) -> (output:
    TripleStore)
    requires
        ts.wf(),
    ensures
        output.wf(),
        id_1 < START_INDEX && id_2 < START_INDEX ==> output@ == alpha_derived(
            ts@,
            property_at(id_1 as int),
            property_at(id_2 as int),
            rule,
        ),
        id_1 >= START_INDEX || id_2 >= START_INDEX ==> output@ == Set::<(u64, u64, u64)>::empty(),
        output.lists(alpha_emitted(*ts, id_1 as int, id_2 as int, rule)),
{
    let mut output = TripleStore::new();
    let (first, second) = match (ts.chunk(id_1), ts.chunk(id_2)) {
        (Some(first), Some(second)) => (first.so(), second.so()),
        _ => {
            proof {
                if id_1 < START_INDEX && id_2 < START_INDEX {
                    let pa = property_at(id_1 as int);
                    let pb = property_at(id_2 as int);
                    assert forall|t: (u64, u64, u64)| !alpha_derived(ts@, pa, pb, rule).contains(
                        t,
                    ) by {
                        if alpha_derived(ts@, pa, pb, rule).contains(t) {
                            let (t1, t2) = choose|t1: (u64, u64, u64), t2: (u64, u64, u64)|
                                #[trigger] alpha_step(ts@, pa, pb, rule, t1, t2, t);
                            assert(ts@.contains(t1) && ts@.contains(t2));
                        }
                    }
                    assert(output@ =~= alpha_derived(ts@, pa, pb, rule));
                }
            }
            return output;
        },
    };
    let pa = slot_to_property(id_1);
    let pb = slot_to_property(id_2);
    let ghost c1 = ts.chunks()[id_1 as int];
    let ghost c2 = ts.chunks()[id_2 as int];
    let mut i: usize = 0;
    proof {
        assert(c1.pairs().take(0) =~= Seq::<(u64, u64)>::empty());
    }
    while i < first.len()
        invariant
            i <= first.len(),
            ts.wf(),
            output.wf(),
            output.lists(alpha_seq(rule, c1.pairs().take(i as int), pa, c2.pairs(), pb)),
            id_1 < ts.num_slots(),
            id_2 < ts.num_slots(),
            pa == property_at(id_1 as int),
            pb == property_at(id_2 as int),
            first@ == c1.so_view(),
            second@ == c2.so_view(),
            c1 == ts.chunks()[id_1 as int],
            c2 == ts.chunks()[id_2 as int],
            forall|t: (u64, u64, u64)| #[trigger]
                output@.contains(t) ==> alpha_derived(ts@, pa, pb, rule).contains(t),
            forall|m1: int, m2: int|
                #![trigger first@[m1], second@[m2]]
                0 <= m1 < i && 0 <= m2 < second.len() && fires(
                    rule,
                    (first@[m1][0], pa, first@[m1][1]),
                    (second@[m2][0], pb, second@[m2][1]),
                ) ==> output@.contains(
                    conclusion(
                        rule,
                        (first@[m1][0], pa, first@[m1][1]),
                        (second@[m2][0], pb, second@[m2][1]),
                    ),
                ),
        decreases first.len() - i,
    {
        let mut j: usize = 0;
        let ghost done = alpha_seq(rule, c1.pairs().take(i as int), pa, c2.pairs(), pb);
        let ghost t1 = (first@[i as int][0], pa, first@[i as int][1]);
        proof {
            assert(c2.pairs().take(0) =~= Seq::<(u64, u64)>::empty());
            assert(done + alpha_row(rule, t1, c2.pairs().take(0), pb) =~= done);
        }
        while j < second.len()
            invariant
                i < first.len(),
                j <= second.len(),
                ts.wf(),
                output.wf(),
                done == alpha_seq(rule, c1.pairs().take(i as int), pa, c2.pairs(), pb),
                t1 == (first@[i as int][0], pa, first@[i as int][1]),
                output.lists(done + alpha_row(rule, t1, c2.pairs().take(j as int), pb)),
                id_1 < ts.num_slots(),
                id_2 < ts.num_slots(),
                pa == property_at(id_1 as int),
                pb == property_at(id_2 as int),
                first@ == c1.so_view(),
                second@ == c2.so_view(),
                c1 == ts.chunks()[id_1 as int],
                c2 == ts.chunks()[id_2 as int],
                forall|t: (u64, u64, u64)| #[trigger]
                    output@.contains(t) ==> alpha_derived(ts@, pa, pb, rule).contains(t),
                forall|m1: int, m2: int|
                    #![trigger first@[m1], second@[m2]]
                    ((0 <= m1 < i && 0 <= m2 < second.len()) || (m1 == i && 0 <= m2 < j)) && fires(
                        rule,
                        (first@[m1][0], pa, first@[m1][1]),
                        (second@[m2][0], pb, second@[m2][1]),
                    ) ==> output@.contains(
                        conclusion(
                            rule,
                            (first@[m1][0], pa, first@[m1][1]),
                            (second@[m2][0], pb, second@[m2][1]),
                        ),
                    ),
            decreases second.len() - j,
        {
            let a = &first[i];
            let b = &second[j];
            let left = pick(rule.left, a, pa, b, pb);
            let right = pick(rule.right, a, pa, b, pb);
            let predicate = pick(rule.predicate, a, pa, b, pb);
            let ghost row = alpha_row(rule, t1, c2.pairs().take(j as int), pb);
            proof {
                assert(c2.pairs().take(j + 1).drop_last() =~= c2.pairs().take(j as int));
                assert(c2.pairs().take(j + 1).last() == pair_of(second@[j as int]));
            }
            if left == right && is_property_id(predicate) {
                let subject = pick(rule.subject, a, pa, b, pb);
                let object = pick(rule.object, a, pa, b, pb);
                output.add_triple([subject, predicate, object]);
                proof {
                    let t1 = (first@[i as int][0], pa, first@[i as int][1]);
                    let t2 = (second@[j as int][0], pb, second@[j as int][1]);
                    assert(c1.pairs()[i as int] == pair_of(first@[i as int]));
                    assert(c1.relation().contains(c1.pairs()[i as int]));
                    assert(c2.pairs()[j as int] == pair_of(second@[j as int]));
                    assert(c2.relation().contains(c2.pairs()[j as int]));
                    assert(ts@.contains(t1));
                    assert(ts@.contains(t2));
                    assert(alpha_step(ts@, pa, pb, rule, t1, t2, conclusion(rule, t1, t2)));
                    assert(output.lists((done + row).push(conclusion(rule, t1, t2))));
                    assert((done + row).push(conclusion(rule, t1, t2)) =~= done + alpha_row(
                        rule,
                        t1,
                        c2.pairs().take(j + 1),
                        pb,
                    ));
                }
            }
            j += 1;
        }
        proof {
            assert(c2.pairs().take(j as int) =~= c2.pairs());
            assert(c1.pairs().take(i + 1).drop_last() =~= c1.pairs().take(i as int));
            assert(c1.pairs().take(i + 1).last() == pair_of(first@[i as int]));
        }
        i += 1;
    }
    proof {
        assert(c1.pairs().take(i as int) =~= c1.pairs());
    }
    proof {
        assert forall|t: (u64, u64, u64)| alpha_derived(ts@, pa, pb, rule).contains(
            t,
        ) implies output@.contains(t) by {
            let (t1, t2) = choose|t1: (u64, u64, u64), t2: (u64, u64, u64)|
                #[trigger] alpha_step(ts@, pa, pb, rule, t1, t2, t);
            assert(c1.pairs().contains((t1.0, t1.2)));
            assert(c2.pairs().contains((t2.0, t2.2)));
            let m1 = choose|m: int| 0 <= m < c1.pairs().len() && c1.pairs()[m] == (t1.0, t1.2);
            let m2 = choose|m: int| 0 <= m < c2.pairs().len() && c2.pairs()[m] == (t2.0, t2.2);
            assert(first@[m1][0] == t1.0 && second@[m2][0] == t2.0);
        }
        assert(output@ =~= alpha_derived(ts@, pa, pb, rule));
    }
    output
}


/// The class memberships that follow through the class relation `link`:
/// `(x, rdf:type, c2)` wherever `(c1, link, c2)` and `(x, rdf:type, c1)` are
/// in `ts`.
pub open spec fn members_through(ts: Set<(u64, u64, u64)>, link: u64) -> Set<(u64, u64, u64)> {
    Set::new(
        |t: (u64, u64, u64)|
            t.1 == RDF_TYPE && exists|c: u64|
                ts.contains((c, link, t.2)) && #[trigger] ts.contains((t.0, RDF_TYPE, c)),
    )
}

/// The class memberships that follow against the class relation `link`:
/// `(x, rdf:type, c1)` wherever `(c1, link, c2)` and `(x, rdf:type, c2)` are
/// in `ts`.
pub open spec fn members_against(ts: Set<(u64, u64, u64)>, link: u64) -> Set<(u64, u64, u64)> {
    Set::new(
        |t: (u64, u64, u64)|
            t.1 == RDF_TYPE && exists|c: u64|
                ts.contains((t.2, link, c)) && #[trigger] ts.contains((t.0, RDF_TYPE, c)),
    )
}

/// The projection that carries a membership from the subject of the class
/// statement to its object.
pub open spec fn forward() -> Projection {
    Projection {
        subject: Position::SecondSubject,
        predicate: Position::SecondPredicate,
        object: Position::FirstObject,
        left: Position::FirstSubject,
        right: Position::SecondObject,
    }
}

/// The projection that carries a membership from the object of the class
/// statement to its subject.
pub open spec fn backward() -> Projection {
    Projection {
        subject: Position::SecondSubject,
        predicate: Position::SecondPredicate,
        object: Position::FirstSubject,
        left: Position::FirstObject,
        right: Position::SecondObject,
    }
}

/// Joining `link` with `rdf:type` forward gives the memberships through
/// `link`.
pub proof fn lemma_forward_is_members_through(ts: Set<(u64, u64, u64)>, link: u64)
    ensures
        alpha_derived(ts, link, RDF_TYPE, forward()) == members_through(ts, link),
{
    let lhs = alpha_derived(ts, link, RDF_TYPE, forward());
    let rhs = members_through(ts, link);
    assert forall|t: (u64, u64, u64)| lhs.contains(t) <==> rhs.contains(t) by {
        if lhs.contains(t) {
            let (t1, t2) = choose|t1: (u64, u64, u64), t2: (u64, u64, u64)|
                #[trigger] alpha_step(ts, link, RDF_TYPE, forward(), t1, t2, t);
            assert(ts.contains((t.0, RDF_TYPE, t1.0)));
        }
        if rhs.contains(t) {
            let c = choose|c: u64|
                ts.contains((c, link, t.2)) && #[trigger] ts.contains((t.0, RDF_TYPE, c));
            assert(alpha_step(ts, link, RDF_TYPE, forward(), (c, link, t.2), (t.0, RDF_TYPE, c), t));
        }
    }
    assert(lhs =~= rhs);
}

/// Joining `link` with `rdf:type` backward gives the memberships against
/// `link`.
pub proof fn lemma_backward_is_members_against(ts: Set<(u64, u64, u64)>, link: u64)
    ensures
        alpha_derived(ts, link, RDF_TYPE, backward()) == members_against(ts, link),
{
    let lhs = alpha_derived(ts, link, RDF_TYPE, backward());
    let rhs = members_against(ts, link);
    assert forall|t: (u64, u64, u64)| lhs.contains(t) <==> rhs.contains(t) by {
        if lhs.contains(t) {
            let (t1, t2) = choose|t1: (u64, u64, u64), t2: (u64, u64, u64)|
                #[trigger] alpha_step(ts, link, RDF_TYPE, backward(), t1, t2, t);
            assert(ts.contains((t.0, RDF_TYPE, t1.2)));
        }
        if rhs.contains(t) {
            let c = choose|c: u64|
                ts.contains((t.2, link, c)) && #[trigger] ts.contains((t.0, RDF_TYPE, c));
            assert(alpha_step(
                ts,
                link,
                RDF_TYPE,
                backward(),
                (t.2, link, c),
                (t.0, RDF_TYPE, c),
                t,
            ));
        }
    }
    assert(lhs =~= rhs);
}

/// An instance of a class is an instance of its superclasses: from
/// `(c1, rdfs:subClassOf, c2)` and `(x, rdf:type, c1)` follows
/// `(x, rdf:type, c2)`.
#[allow(non_snake_case)]
pub fn CAX_SCO(ts: &TripleStore) -> (output: TripleStore)
    requires
        ts.wf(),
    ensures
        output.wf(),
        output@ == members_through(ts@, RDFS_SUB_CLASS_OF),
        output.lists(alpha_emitted(*ts, slot_of(RDFS_SUB_CLASS_OF), slot_of(RDF_TYPE), forward())),
{
    let rule = Projection {
        subject: Position::SecondSubject,
        predicate: Position::SecondPredicate,
        object: Position::FirstObject,
        left: Position::FirstSubject,
        right: Position::SecondObject,
    };
    proof {
        lemma_forward_is_members_through(ts@, RDFS_SUB_CLASS_OF);
    }
    apply_alpha_rule(ts, property_to_slot(RDFS_SUB_CLASS_OF), property_to_slot(RDF_TYPE), rule)
}

/// An instance of a class is an instance of the classes it is declared
/// equivalent to: from `(c1, owl:equivalentClass, c2)` and
/// `(x, rdf:type, c1)` follows `(x, rdf:type, c2)`.
#[allow(non_snake_case)]
pub fn CAX_EQC1(ts: &TripleStore) -> (output: TripleStore)
    requires
        ts.wf(),
    ensures
        output.wf(),
        output@ == members_through(ts@, OWL_EQUIVALENT_CLASS),
        output.lists(
            alpha_emitted(*ts, slot_of(OWL_EQUIVALENT_CLASS), slot_of(RDF_TYPE), forward()),
        ),
{
    let rule = Projection {
        subject: Position::SecondSubject,
        predicate: Position::SecondPredicate,
        object: Position::FirstObject,
        left: Position::FirstSubject,
        right: Position::SecondObject,
    };
    proof {
        lemma_forward_is_members_through(ts@, OWL_EQUIVALENT_CLASS);
    }
    apply_alpha_rule(ts, property_to_slot(OWL_EQUIVALENT_CLASS), property_to_slot(RDF_TYPE), rule)
}

/// The same in the other direction: from `(c1, owl:equivalentClass, c2)`
/// and `(x, rdf:type, c2)` follows `(x, rdf:type, c1)`.
#[allow(non_snake_case)]
pub fn CAX_EQC2(ts: &TripleStore) -> (output: TripleStore)
    requires
        ts.wf(),
    ensures
        output.wf(),
        output@ == members_against(ts@, OWL_EQUIVALENT_CLASS),
        output.lists(
            alpha_emitted(*ts, slot_of(OWL_EQUIVALENT_CLASS), slot_of(RDF_TYPE), backward()),
        ),
{
    let rule = Projection {
        subject: Position::SecondSubject,
        predicate: Position::SecondPredicate,
        object: Position::FirstSubject,
        left: Position::FirstObject,
        right: Position::SecondObject,
    };
    proof {
        lemma_backward_is_members_against(ts@, OWL_EQUIVALENT_CLASS);
    }
    apply_alpha_rule(ts, property_to_slot(OWL_EQUIVALENT_CLASS), property_to_slot(RDF_TYPE), rule)
}

} // verus!
