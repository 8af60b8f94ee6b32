//! The rules as values, and the loop that fires them until the graph stops
//! growing.

use crate::inferray::dictionary::{
    slot_of, Vocabulary, BUILTIN_PROPERTIES, OWL_EQUIVALENT_CLASS, OWL_EQUIVALENT_PROPERTY,
    OWL_INVERSE_OF, RDFS_SUB_CLASS_OF, RDF_TYPE,
};
use crate::inferray::graph::{all_issued, InfGraph};
use crate::inferray::store::{clip, lemma_sorted_len, TripleStore};
use crate::rules::alpha_rules::{
    alpha_emitted, backward, forward, members_against, members_through, CAX_EQC1, CAX_EQC2,
    CAX_SCO,
};
use crate::rules::delta_rules::{
    delta_derived, delta_emitted, delta_step, PRP_EQP_1_2, PRP_INV_1_2,
};
use vstd::prelude::*;

verus! {

/// An inference rule: given the triples of a graph, what follows from them
/// in one step.
#[derive(Clone, Copy, Debug)]
pub enum Rule {
    /// Membership through `rdfs:subClassOf`.
    CaxSco,
    /// Membership through `owl:equivalentClass`, subject to object.
    CaxEqc1,
    /// Membership through `owl:equivalentClass`, object to subject.
    CaxEqc2,
    /// Rewriting along `owl:inverseOf`.
    PrpInv,
    /// Rewriting along `owl:equivalentProperty`.
    PrpEqp,
}

impl Rule {
    /// What the rule concludes from `ts`.
    pub open spec fn derived(self, ts: Set<(u64, u64, u64)>) -> Set<(u64, u64, u64)> {
        match self {
            Rule::CaxSco => members_through(ts, RDFS_SUB_CLASS_OF),
            Rule::CaxEqc1 => members_through(ts, OWL_EQUIVALENT_CLASS),
            Rule::CaxEqc2 => members_against(ts, OWL_EQUIVALENT_CLASS),
            Rule::PrpInv => delta_derived(ts, OWL_INVERSE_OF, true),
            Rule::PrpEqp => delta_derived(ts, OWL_EQUIVALENT_PROPERTY, false),
        }
    }

    /// The triples that the rule emits on the store `ts`, in order, a
    /// triple as often as it is concluded.
    pub open spec fn emitted(self, ts: TripleStore) -> Seq<(u64, u64, u64)> {
        match self {
            Rule::CaxSco => alpha_emitted(
                ts,
                slot_of(RDFS_SUB_CLASS_OF),
                slot_of(RDF_TYPE),
                forward(),
            ),
            Rule::CaxEqc1 => alpha_emitted(
                ts,
                slot_of(OWL_EQUIVALENT_CLASS),
                slot_of(RDF_TYPE),
                forward(),
            ),
            Rule::CaxEqc2 => alpha_emitted(
                ts,
                slot_of(OWL_EQUIVALENT_CLASS),
                slot_of(RDF_TYPE),
                backward(),
            ),
            Rule::PrpInv => delta_emitted(ts, slot_of(OWL_INVERSE_OF), true),
            Rule::PrpEqp => delta_emitted(ts, slot_of(OWL_EQUIVALENT_PROPERTY), false),
        }
    }

    /// Applies the rule to a snapshot of the store and returns the triples
    /// it concludes, in a new store laid out as the rule emitted them; the
    /// snapshot is not changed.
    pub fn fire(&self, ts: &TripleStore) -> (output: TripleStore)
        requires
            ts.wf(),
        ensures
            output.wf(),
            output@ == self.derived(ts@),
            output.lists(self.emitted(*ts)),
    {
        match self {
            Rule::CaxSco => CAX_SCO(ts),
            Rule::CaxEqc1 => CAX_EQC1(ts),
            Rule::CaxEqc2 => CAX_EQC2(ts),
            Rule::PrpInv => PRP_INV_1_2(ts),
            Rule::PrpEqp => PRP_EQP_1_2(ts),
        }
    }

    /// A rule concludes triples over predicates that are properties, and it
    /// mentions no identifier that the dictionary of the premises has not
    /// issued.
    pub proof fn lemma_derived_issued(self, v: Vocabulary, ts: Set<(u64, u64, u64)>)
        requires
            v.wf(),
            v.properties.len() >= BUILTIN_PROPERTIES,
            all_issued(v, ts),
        ensures
            all_issued(v, self.derived(ts)),
    {
        assert(v.issued(RDF_TYPE));
        assert forall|t: (u64, u64, u64)| #[trigger]
            self.derived(ts).contains(t) implies v.issued(t.0) && v.issued(t.1) && v.issued(
            t.2,
        ) by {
            match self {
                Rule::CaxSco => {
                    let c = choose|c: u64|
                        ts.contains((c, RDFS_SUB_CLASS_OF, t.2)) && #[trigger] ts.contains(
                            (t.0, RDF_TYPE, c),
                        );
                    assert(ts.contains((c, RDFS_SUB_CLASS_OF, t.2)));
                },
                Rule::CaxEqc1 => {
                    let c = choose|c: u64|
                        ts.contains((c, OWL_EQUIVALENT_CLASS, t.2)) && #[trigger] ts.contains(
                            (t.0, RDF_TYPE, c),
                        );
                    assert(ts.contains((c, OWL_EQUIVALENT_CLASS, t.2)));
                },
                Rule::CaxEqc2 => {
                    let c = choose|c: u64|
                        ts.contains((t.2, OWL_EQUIVALENT_CLASS, c)) && #[trigger] ts.contains(
                            (t.0, RDF_TYPE, c),
                        );
                    assert(ts.contains((t.2, OWL_EQUIVALENT_CLASS, c)));
                },
                Rule::PrpInv => {
                    let (x, y) = choose|x: u64, y: u64|
                        #[trigger] delta_step(ts, OWL_INVERSE_OF, true, x, y, t);
                    assert(ts.contains((x, OWL_INVERSE_OF, y)));
                    assert(ts.contains((t.2, x, t.0)) || ts.contains((t.2, y, t.0)));
                },
                Rule::PrpEqp => {
                    let (x, y) = choose|x: u64, y: u64|
                        #[trigger] delta_step(ts, OWL_EQUIVALENT_PROPERTY, false, x, y, t);
                    assert(ts.contains((x, OWL_EQUIVALENT_PROPERTY, y)));
                    assert(ts.contains((t.0, x, t.2)) || ts.contains((t.0, y, t.2)));
                },
            }
        }
    }
}

/// What the rules of `rules` conclude from `ts`, all together.
pub open spec fn derived_by(rules: Seq<Rule>, ts: Set<(u64, u64, u64)>) -> Set<(u64, u64, u64)>
    decreases rules.len(),
{
    if rules.len() == 0 {
        Set::empty()
    } else {
        derived_by(rules.drop_last(), ts) + rules.last().derived(ts)
    }
}

/// The triples that the rules of `rules` emit on the store `ts`: those of
/// the first rule, then those of the second, and so on.
pub open spec fn emitted_by(rules: Seq<Rule>, ts: TripleStore) -> Seq<(u64, u64, u64)>
    decreases rules.len(),
{
    if rules.len() == 0 {
        Seq::empty()
    } else {
        emitted_by(rules.drop_last(), ts) + rules.last().emitted(ts)
    }
}

/// `ts` with what the rules conclude from it.
pub open spec fn step(rules: Seq<Rule>, ts: Set<(u64, u64, u64)>) -> Set<(u64, u64, u64)> {
    ts + derived_by(rules, ts)
}

/// `ts` after `n` steps.
pub open spec fn rounds(rules: Seq<Rule>, ts: Set<(u64, u64, u64)>, n: nat) -> Set<
    (u64, u64, u64),
>
    decreases n,
{
    if n == 0 {
        ts
    } else {
        step(rules, rounds(rules, ts, (n - 1) as nat))
    }
}

/// The rules conclude nothing from `ts` that is not in it already.
pub open spec fn closed_under(rules: Seq<Rule>, ts: Set<(u64, u64, u64)>) -> bool {
    derived_by(rules, ts).subset_of(ts)
}

/// A triple is among what the rules conclude exactly if one of them
/// concludes it.
pub proof fn lemma_derived_by_members(rules: Seq<Rule>, ts: Set<(u64, u64, u64)>, t: (u64, u64, u64))
    ensures
        derived_by(rules, ts).contains(t) <==> exists|i: int|
            0 <= i < rules.len() && (#[trigger] rules[i]).derived(ts).contains(t),
    decreases rules.len(),
{
    if rules.len() > 0 {
        let front = rules.drop_last();
        lemma_derived_by_members(front, ts, t);
        if derived_by(rules, ts).contains(t) {
            if rules.last().derived(ts).contains(t) {
                assert(rules[rules.len() - 1].derived(ts).contains(t));
            } else {
                let i = choose|i: int|
                    0 <= i < front.len() && (#[trigger] front[i]).derived(ts).contains(t);
                assert(rules[i].derived(ts).contains(t));
            }
        }
        if exists|i: int| 0 <= i < rules.len() && (#[trigger] rules[i]).derived(ts).contains(t) {
            let i = choose|i: int|
                0 <= i < rules.len() && (#[trigger] rules[i]).derived(ts).contains(t);
            if i < front.len() {
                assert(front[i].derived(ts).contains(t));
            }
        }
    }
}

/// Every rule sees the same snapshot, so the order in which the rules fire
/// does not matter: two lists of the same rules conclude the same, in one
/// step and in any number of steps.
pub proof fn lemma_order_irrelevant(a: Seq<Rule>, b: Seq<Rule>, ts: Set<(u64, u64, u64)>, n: nat)
    requires
        a.to_set() == b.to_set(),
    ensures
        derived_by(a, ts) == derived_by(b, ts),
        rounds(a, ts, n) == rounds(b, ts, n),
    decreases n,
{
    lemma_same_rules_same_conclusions(a, b, ts);
    if n > 0 {
        lemma_order_irrelevant(a, b, ts, (n - 1) as nat);
        lemma_same_rules_same_conclusions(a, b, rounds(a, ts, (n - 1) as nat));
    }
}

proof fn lemma_same_rules_same_conclusions(a: Seq<Rule>, b: Seq<Rule>, ts: Set<(u64, u64, u64)>)
    requires
        a.to_set() == b.to_set(),
    ensures
        derived_by(a, ts) == derived_by(b, ts),
{
    assert forall|t: (u64, u64, u64)| derived_by(a, ts).contains(t) <==> derived_by(
        b,
        ts,
    ).contains(t) by {
        lemma_derived_by_members(a, ts, t);
        lemma_derived_by_members(b, ts, t);
        if derived_by(a, ts).contains(t) {
            let i = choose|i: int| 0 <= i < a.len() && (#[trigger] a[i]).derived(ts).contains(t);
            assert(a.to_set().contains(a[i]));
            assert(b.contains(a[i]));
            let j = choose|j: int| 0 <= j < b.len() && b[j] == a[i];
            assert(b[j].derived(ts).contains(t));
        }
        if derived_by(b, ts).contains(t) {
            let i = choose|i: int| 0 <= i < b.len() && (#[trigger] b[i]).derived(ts).contains(t);
            assert(b.to_set().contains(b[i]));
            assert(a.contains(b[i]));
            let j = choose|j: int| 0 <= j < a.len() && a[j] == b[i];
            assert(a[j].derived(ts).contains(t));
        }
    }
    assert(derived_by(a, ts) =~= derived_by(b, ts));
}

/// What rules conclude mentions only issued identifiers.
pub proof fn lemma_derived_by_issued(rules: Seq<Rule>, v: Vocabulary, ts: Set<(u64, u64, u64)>)
    requires
        v.wf(),
        v.properties.len() >= BUILTIN_PROPERTIES,
        all_issued(v, ts),
    ensures
        all_issued(v, derived_by(rules, ts)),
    decreases rules.len(),
{
    if rules.len() > 0 {
        lemma_derived_by_issued(rules.drop_last(), v, ts);
        rules.last().lemma_derived_issued(v, ts);
    }
}

/// Steps only add triples.
pub proof fn lemma_rounds_grow(rules: Seq<Rule>, ts: Set<(u64, u64, u64)>, n: nat)
    ensures
        ts.subset_of(rounds(rules, ts, n)),
    decreases n,
{
    if n > 0 {
        lemma_rounds_grow(rules, ts, (n - 1) as nat);
    }
}

/// On a closed set a step changes nothing, and so does any number of steps:
/// closing what is closed gives it back.
pub proof fn lemma_closed_is_fixed(rules: Seq<Rule>, ts: Set<(u64, u64, u64)>, n: nat)
    requires
        closed_under(rules, ts),
    ensures
        rounds(rules, ts, n) == ts,
    decreases n,
{
    if n > 0 {
        lemma_closed_is_fixed(rules, ts, (n - 1) as nat);
        assert(step(rules, ts) =~= ts);
    }
}

/// An ordered set of rules that can be fired on a graph until nothing new
/// follows.
pub trait RuleSet {
    /// The rules, in the order in which they fire.
    spec fn rules(&self) -> Seq<Rule>;

    /// The rules of the reasoner.
    fn new() -> (set: Vec<Rule>)
        ensures
            set@ == seq![Rule::CaxSco, Rule::CaxEqc1, Rule::CaxEqc2, Rule::PrpInv, Rule::PrpEqp],
    ;

    /// Fires every rule on the graph as it stands, adds what they conclude,
    /// sorts, and starts over until the number of triples stops changing.
    ///
    /// The result is the graph after some number of steps, so nothing is
    /// lost. It is closed under the rules, unless the count of its triples
    /// has reached `usize::MAX`, where the count can no longer tell growth.
    /// On a graph that is closed already nothing changes, the count
    /// included.
    fn fire_all(&self, graph: &mut InfGraph)
        requires
            old(graph).wf(),
        ensures
            final(graph).wf(),
            final(graph).dictionary@ == old(graph).dictionary@,
            exists|n: nat| final(graph).ids() == #[trigger] rounds(self.rules(), old(graph).ids(), n),
            old(graph).ids().subset_of(final(graph).ids()),
            final(graph).dictionary.store_view().num_slots() >= old(graph).dictionary.store_view().num_slots(),
            final(graph).ids().len() < usize::MAX ==> closed_under(self.rules(), final(graph).ids()),
            closed_under(self.rules(), old(graph).ids()) ==> final(graph).ids() == old(graph).ids(),
            closed_under(self.rules(), old(graph).ids())
                ==> final(graph).dictionary.store_view().counted()
                == old(graph).dictionary.store_view().counted(),
    ;
}

/// Fires every rule of `rules` on `ts` and gathers what they conclude.
fn fire_each(rules: &Vec<Rule>, ts: &TripleStore) -> (outputs: TripleStore)
    requires
        ts.wf(),
    ensures
        outputs.wf(),
        outputs@ == derived_by(rules@, ts@),
        outputs.lists(emitted_by(rules@, *ts)),
{
    let mut outputs = TripleStore::new();
    let mut i: usize = 0;
    proof {
        assert(rules@.take(0) =~= Seq::<Rule>::empty());
    }
    while i < rules.len()
        invariant
            i <= rules.len(),
            ts.wf(),
            outputs.wf(),
            outputs@ == derived_by(rules@.take(i as int), ts@),
            outputs.lists(emitted_by(rules@.take(i as int), *ts)),
        decreases rules.len() - i,
    {
        let delta = rules[i].fire(ts);
        let ghost before = outputs;
        outputs.add_all(delta);
        proof {
            assert(rules@.take(i + 1).drop_last() =~= rules@.take(i as int));
            assert(before.lists(emitted_by(rules@.take(i as int), *ts)) && delta.lists(
                rules@[i as int].emitted(*ts),
            ));
        }
        i += 1;
    }
    proof {
        assert(rules@.take(i as int) =~= rules@);
    }
    outputs
}

impl RuleSet for Vec<Rule> {
    open spec fn rules(&self) -> Seq<Rule> {
        self@
    }

    fn new() -> (set: Vec<Rule>) {
        let mut set = Vec::new();
        set.push(Rule::CaxSco);
        set.push(Rule::CaxEqc1);
        set.push(Rule::CaxEqc2);
        set.push(Rule::PrpInv);
        set.push(Rule::PrpEqp);
        proof {
            assert(set@ =~= seq![
                Rule::CaxSco,
                Rule::CaxEqc1,
                Rule::CaxEqc2,
                Rule::PrpInv,
                Rule::PrpEqp,
            ]);
        }
        set
    }

    fn fire_all(&self, graph: &mut InfGraph) {
        let ghost start = graph.ids();
        let ghost v = graph.dictionary@;
        let ghost mut n: nat = 0;
        let mut prev_size: usize = 0;
        let mut size = graph.size();
        proof {
            lemma_sorted_len(graph.dictionary.store_view().chunks());
            if size == 0 {
                // no triple at all: nothing to conclude from
                assert(graph.ids().len() == 0);
                assert(graph.ids() =~= Set::<(u64, u64, u64)>::empty());
                lemma_nothing_from_nothing(self@);
            }
        }
        while prev_size != size
            invariant
                graph.wf(),
                graph.dictionary@ == v,
                graph.ids() == rounds(self@, start, n),
                graph.ids().finite(),
                size == clip(graph.ids().len()),
                size == graph.dictionary.store_view().counted(),
                graph.dictionary.store_view().num_slots() >= old(graph).dictionary.store_view().num_slots(),
                prev_size <= size,
                prev_size == size ==> graph.ids().len() >= usize::MAX || closed_under(
                    self@,
                    graph.ids(),
                ),
                closed_under(self@, start) ==> graph.ids() == start,
            decreases
                    usize::MAX - size + if prev_size != size {
                        1int
                    } else {
                        0int
                    },
        {
            prev_size = size;
            let ghost before = graph.ids();
            let outputs = fire_each(self, graph.dictionary.store());
            proof {
                lemma_derived_by_issued(self@, v, before);
            }
            let store = graph.dictionary.store_mut();
            store.add_all(outputs);
            proof {
                assert(store@ == step(self@, before));
                assert(all_issued(v, store@));
            }
            size = store.sort();
            proof {
                n = n + 1;
                vstd::set_lib::lemma_len_subset(before, graph.ids());
                if prev_size == size && graph.ids().len() < usize::MAX {
                    vstd::set_lib::lemma_subset_equality(before, graph.ids());
                }
                if closed_under(self@, start) {
                    assert(step(self@, before) =~= before);
                }
            }
        }
        proof {
            assert(graph.ids() == rounds(self.rules(), start, n));
            lemma_rounds_grow(self@, start, n);
            if closed_under(self@, start) {
                lemma_sorted_len(old(graph).dictionary.store_view().chunks());
            }
        }
    }
}

/// From no triple no rule concludes anything.
proof fn lemma_nothing_from_nothing(rules: Seq<Rule>)
    ensures
        closed_under(rules, Set::<(u64, u64, u64)>::empty()),
    decreases rules.len(),
{
    let none = Set::<(u64, u64, u64)>::empty();
    if rules.len() > 0 {
        lemma_nothing_from_nothing(rules.drop_last());
        let rule = rules.last();
        assert forall|t: (u64, u64, u64)| !rule.derived(none).contains(t) by {
            if rule.derived(none).contains(t) {
                match rule {
                    Rule::CaxSco => {},
                    Rule::CaxEqc1 => {},
                    Rule::CaxEqc2 => {},
                    Rule::PrpInv => {
                        let (x, y) = choose|x: u64, y: u64|
                            #[trigger] delta_step(none, OWL_INVERSE_OF, true, x, y, t);
                    },
                    Rule::PrpEqp => {
                        let (x, y) = choose|x: u64, y: u64|
                            #[trigger] delta_step(none, OWL_EQUIVALENT_PROPERTY, false, x, y, t);
                    },
                }
            }
        }
        assert(rule.derived(none) =~= none);
    }
}

} // verus!
