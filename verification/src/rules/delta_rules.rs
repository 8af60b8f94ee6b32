//! Rules that rewrite the triples of one predicate into triples of another,
//! as told by the schema statements between properties (`owl:inverseOf`,
//! `owl:equivalentProperty`). One scan per schema statement, no join.

use crate::inferray::dictionary::{
    is_property, is_property_id, property_at, property_to_slot, slot_of, slot_to_property,
    OWL_EQUIVALENT_PROPERTY, OWL_INVERSE_OF, START_INDEX,
};
use crate::inferray::pairs::pair_of;
use crate::inferray::store::TripleStore;
use vstd::prelude::*;

verus! {

/// The triple of predicate `from` that `t` is a rewriting of: with subject
/// and object exchanged if `invert`, kept otherwise.
pub open spec fn source_of(t: (u64, u64, u64), from: u64, invert: bool) -> (u64, u64, u64) {
    if invert {
        (t.2, from, t.0)
    } else {
        (t.0, from, t.2)
    }
}

/// `t` has predicate `to` and is the rewriting of a triple of `ts` with
/// predicate `from`.
pub open spec fn rewritten(
    ts: Set<(u64, u64, u64)>,
    from: u64,
    to: u64,
    invert: bool,
    t: (u64, u64, u64),
) -> bool {
    &&& t.1 == to
    &&& is_property(to)
    &&& ts.contains(source_of(t, from, invert))
}

/// `ts` states `(x, schema, y)`, and `t` is the rewriting of a triple of `x`
/// to `y` or of a triple of `y` to `x`.
pub open spec fn delta_step(
    ts: Set<(u64, u64, u64)>,
    schema: u64,
    invert: bool,
    x: u64,
    y: u64,
    t: (u64, u64, u64),
) -> bool {
    &&& ts.contains((x, schema, y))
    &&& (rewritten(ts, x, y, invert, t) || rewritten(ts, y, x, invert, t))
}

/// Everything that the statements of predicate `schema` rewrite, in both
/// directions.
pub open spec fn delta_derived(ts: Set<(u64, u64, u64)>, schema: u64, invert: bool) -> Set<
    (u64, u64, u64),
> {
    Set::new(
        |t: (u64, u64, u64)|
            exists|x: u64, y: u64| #[trigger] delta_step(ts, schema, invert, x, y, t),
    )
}

/// The pairs rewritten to triples of predicate `to`, in the same order:
/// with subject and object exchanged if `invert`, kept otherwise.
pub open spec fn rewritten_pairs(pairs: Seq<(u64, u64)>, to: u64, invert: bool) -> Seq<
    (u64, u64, u64),
> {
    Seq::new(
        pairs.len(),
        |i: int|
            if invert {
                (pairs[i].1, to, pairs[i].0)
            } else {
                (pairs[i].0, to, pairs[i].1)
            },
    )
}

/// The triples that rewriting predicate `from` to predicate `to` emits, in
/// order: one for each pair in the chunk of `from`, in stored order; none
/// unless both are properties and `from` has a chunk.
pub open spec fn rewrite_emitted(ts: TripleStore, from: u64, to: u64, invert: bool) -> Seq<
    (u64, u64, u64),
> {
    if is_property(from) && is_property(to) && slot_of(from) < ts.num_slots() {
        rewritten_pairs(ts.chunks()[slot_of(from)].pairs(), to, invert)
    } else {
        Seq::empty()
    }
}

/// The triples that the schema statements `statements` emit, in order: for
/// each statement `(x, y)` in turn, the rewriting of `x` to `y`, then the
/// rewriting of `y` to `x`.
pub open spec fn statements_emitted(
    ts: TripleStore,
    statements: Seq<(u64, u64)>,
    invert: bool,
) -> Seq<(u64, u64, u64)>
    decreases statements.len(),
{
    if statements.len() == 0 {
        Seq::empty()
    } else {
        statements_emitted(ts, statements.drop_last(), invert) + rewrite_emitted(
            ts,
            statements.last().0,
            statements.last().1,
            invert,
        ) + rewrite_emitted(ts, statements.last().1, statements.last().0, invert)
    }
}

/// The triples that the rewriting rule of the schema predicate in slot
/// `prop_idx` emits, in order; none where that slot is not in use.
pub open spec fn delta_emitted(ts: TripleStore, prop_idx: int, invert: bool) -> Seq<
    (u64, u64, u64),
> {
    if 0 <= prop_idx < ts.num_slots() {
        statements_emitted(ts, ts.chunks()[prop_idx].pairs(), invert)
    } else {
        Seq::empty()
    }
}

/// Adds to `output` the rewriting to predicate `to` of every triple of
/// predicate `from`, in stored order. Nothing is added unless both are
/// properties and `from` has a chunk.
fn rewrite_into(
    ts: &TripleStore,
    from: u64,
    to: u64,
    invert: bool,
    output: &mut TripleStore,
    Ghost(seq): Ghost<Seq<(u64, u64, u64)>>,
)
    requires
        ts.wf(),
        old(output).wf(),
        old(output).lists(seq),
    ensures
        final(output).wf(),
        final(output).lists(seq + rewrite_emitted(*ts, from, to, invert)),
        forall|t: (u64, u64, u64)| #[trigger]
            final(output)@.contains(t) <==> old(output)@.contains(t) || rewritten(
                ts@,
                from,
                to,
                invert,
                t,
            ),
{
    if !is_property_id(from) || !is_property_id(to) {
        proof {
            assert forall|t: (u64, u64, u64)| !rewritten(ts@, from, to, invert, t) by {
                if rewritten(ts@, from, to, invert, t) {
                    assert(ts@.contains(source_of(t, from, invert)));
                }
            }
            assert(seq + rewrite_emitted(*ts, from, to, invert) =~= seq);
        }
        return ;
    }
    let slot = property_to_slot(from);
    match ts.chunk(slot) {
        Some(chunk) => {
            let pairs = chunk.so();
            let ghost c = ts.chunks()[slot as int];
            let mut k: usize = 0;
            proof {
                assert(seq + rewritten_pairs(c.pairs().take(0), to, invert) =~= seq);
            }
            while k < pairs.len()
                invariant
                    k <= pairs.len(),
                    ts.wf(),
                    output.wf(),
                    output.lists(seq + rewritten_pairs(c.pairs().take(k as int), to, invert)),
                    is_property(from),
                    is_property(to),
                    slot == slot_of(from),
                    slot < ts.num_slots(),
                    c == ts.chunks()[slot as int],
                    pairs@ == c.so_view(),
                    forall|t: (u64, u64, u64)|
                        old(output)@.contains(t) ==> #[trigger] output@.contains(t),
                    forall|t: (u64, u64, u64)| #[trigger]
                        output@.contains(t) ==> old(output)@.contains(t) || rewritten(
                            ts@,
                            from,
                            to,
                            invert,
                            t,
                        ),
                    forall|m: int|
                        0 <= m < k ==> output@.contains(
                            if invert {
                                ((#[trigger] pairs@[m])[1], to, pairs@[m][0])
                            } else {
                                (pairs@[m][0], to, pairs@[m][1])
                            },
                        ),
                decreases pairs.len() - k,
            {
                let s = pairs[k][0];
                let o = pairs[k][1];
                proof {
                    assert(c.pairs()[k as int] == pair_of(pairs@[k as int]));
                    assert(c.relation().contains(c.pairs()[k as int]));
                    assert(ts@.contains((s, from, o)));
                }
                let ghost listed = seq + rewritten_pairs(c.pairs().take(k as int), to, invert);
                if invert {
                    output.add_triple([o, to, s]);
                } else {
                    output.add_triple([s, to, o]);
                }
                proof {
                    let t = if invert {
                        (o, to, s)
                    } else {
                        (s, to, o)
                    };
                    assert(output.lists(listed.push(t)));
                    assert(listed.push(t) =~= seq + rewritten_pairs(
                        c.pairs().take(k + 1),
                        to,
                        invert,
                    ));
                }
                k += 1;
            }
            proof {
                assert(c.pairs().take(k as int) =~= c.pairs());
                assert forall|t: (u64, u64, u64)| rewritten(
                    ts@,
                    from,
                    to,
                    invert,
                    t,
                ) implies output@.contains(t) by {
                    let u = source_of(t, from, invert);
                    assert(c.pairs().contains((u.0, u.2)));
                    let m = choose|m: int| 0 <= m < c.pairs().len() && c.pairs()[m] == (u.0, u.2);
                    assert(pairs@[m][0] == u.0 && pairs@[m][1] == u.2);
                }
            }
        },
        None => {
            proof {
                assert forall|t: (u64, u64, u64)| !rewritten(ts@, from, to, invert, t) by {
                    if rewritten(ts@, from, to, invert, t) {
                        assert(ts@.contains(source_of(t, from, invert)));
                    }
                }
                assert(seq + rewrite_emitted(*ts, from, to, invert) =~= seq);
            }
        },
    }
}

/// Applies the rewriting rule of the schema predicate kept in slot
/// `prop_idx`: for every statement `(x, schema, y)`, the triples of `x` are
/// rewritten to `y` and the triples of `y` to `x`, with subject and object
/// exchanged if `invert`. A slot that is not in use contributes nothing.
///
/// The output is a new store laid out as the rule emitted: one pair for
/// each rewriting, in the order of the statements and of the chunks they
/// rewrite, duplicates included; no slot is in use where nothing was
/// emitted.
pub fn apply_delta_rule(ts: &TripleStore, prop_idx: usize, invert: bool) -> (output: TripleStore)
    requires
        ts.wf(),
    ensures
        output.wf(),
        prop_idx < START_INDEX ==> output@ == delta_derived(
            ts@,
            property_at(prop_idx as int),
            invert,
        ),
        prop_idx >= START_INDEX ==> output@ == Set::<(u64, u64, u64)>::empty(),
        output.lists(delta_emitted(*ts, prop_idx as int, invert)),
{
    let mut output = TripleStore::new();
    match ts.chunk(prop_idx) {
        Some(chunk) => {
            let statements = chunk.so();
            let schema = slot_to_property(prop_idx);
            let ghost c = ts.chunks()[prop_idx as int];
            let mut n: usize = 0;
            proof {
                assert(c.pairs().take(0) =~= Seq::<(u64, u64)>::empty());
            }
            while n < statements.len()
                invariant
                    n <= statements.len(),
                    ts.wf(),
                    output.wf(),
                    output.lists(statements_emitted(*ts, c.pairs().take(n as int), invert)),
                    prop_idx < ts.num_slots(),
                    schema == property_at(prop_idx as int),
                    c == ts.chunks()[prop_idx as int],
                    statements@ == c.so_view(),
                    forall|t: (u64, u64, u64)| #[trigger]
                        output@.contains(t) ==> delta_derived(ts@, schema, invert).contains(t),
                    forall|m: int, t: (u64, u64, u64)|
                        #![trigger statements@[m], output@.contains(t)]
                        0 <= m < n && (rewritten(
                            ts@,
                            statements@[m][0],
                            statements@[m][1],
                            invert,
                            t,
                        ) || rewritten(ts@, statements@[m][1], statements@[m][0], invert, t))
                            ==> output@.contains(t),
                decreases statements.len() - n,
            {
                let x = statements[n][0];
                let y = statements[n][1];
                proof {
                    assert(c.pairs()[n as int] == pair_of(statements@[n as int]));
                    assert(c.relation().contains(c.pairs()[n as int]));
                    assert(ts@.contains((x, schema, y)));
                }
                let ghost before = output@;
                let ghost done = statements_emitted(*ts, c.pairs().take(n as int), invert);
                rewrite_into(ts, x, y, invert, &mut output, Ghost(done));
                let ghost between = output@;
                rewrite_into(
                    ts,
                    y,
                    x,
                    invert,
                    &mut output,
                    Ghost(done + rewrite_emitted(*ts, x, y, invert)),
                );
                proof {
                    assert(c.pairs().take(n + 1).drop_last() =~= c.pairs().take(n as int));
                    assert(c.pairs().take(n + 1).last() == (x, y));
                    assert forall|t: (u64, u64, u64)| #[trigger]
                        output@.contains(t) implies delta_derived(ts@, schema, invert).contains(
                        t,
                    ) by {
                        if !before.contains(t) {
                            assert(between.contains(t) || rewritten(ts@, y, x, invert, t));
                            assert(delta_step(ts@, schema, invert, x, y, t));
                        }
                    }
                    assert forall|m: int, t: (u64, u64, u64)|
                        #![trigger statements@[m], output@.contains(t)]
                        0 <= m < n + 1 && (rewritten(
                            ts@,
                            statements@[m][0],
                            statements@[m][1],
                            invert,
                            t,
                        ) || rewritten(
                            ts@,
                            statements@[m][1],
                            statements@[m][0],
                            invert,
                            t,
                        )) implies output@.contains(t) by {
                        if m < n {
                            assert(before.contains(t));
                            assert(between.contains(t));
                        } else {
                            assert(between.contains(t) || rewritten(ts@, y, x, invert, t));
                        }
                    }
                }
                n += 1;
            }
            proof {
                assert forall|t: (u64, u64, u64)| delta_derived(ts@, schema, invert).contains(
                    t,
                ) implies output@.contains(t) by {
                    let (x, y) = choose|x: u64, y: u64|
                        #[trigger] delta_step(ts@, schema, invert, x, y, t);
                    assert(c.pairs().contains((x, y)));
                    let m = choose|m: int| 0 <= m < c.pairs().len() && c.pairs()[m] == (x, y);
                    assert(statements@[m][0] == x && statements@[m][1] == y);
                }
                assert(output@ =~= delta_derived(ts@, schema, invert));
                assert(c.pairs().take(n as int) =~= c.pairs());
            }
        },
        None => {
            proof {
                if prop_idx < START_INDEX {
                    let schema = property_at(prop_idx as int);
                    assert forall|t: (u64, u64, u64)| !delta_derived(ts@, schema, invert).contains(
                        t,
                    ) by {
                        if delta_derived(ts@, schema, invert).contains(t) {
                            let (x, y) = choose|x: u64, y: u64|
                                #[trigger] delta_step(ts@, schema, invert, x, y, t);
                            assert(ts@.contains((x, schema, y)));
                        }
                    }
                    assert(output@ =~= delta_derived(ts@, schema, invert));
                }
            }
        },
    }
    output
}

/// A property and its inverse: from `(p, owl:inverseOf, q)` and
/// `(s, p, o)` follows `(o, q, s)`, and from `(s, q, o)` follows `(o, p, s)`.
#[allow(non_snake_case)]
pub fn PRP_INV_1_2(ts: &TripleStore) -> (output: TripleStore)
    requires
        ts.wf(),
    ensures
        output.wf(),
        output@ == delta_derived(ts@, OWL_INVERSE_OF, true),
        output.lists(delta_emitted(*ts, slot_of(OWL_INVERSE_OF), true)),
{
    apply_delta_rule(ts, property_to_slot(OWL_INVERSE_OF), true)
}

/// Equivalent properties: from `(p, owl:equivalentProperty, q)` and
/// `(s, p, o)` follows `(s, q, o)`, and from `(s, q, o)` follows `(s, p, o)`.
#[allow(non_snake_case)]
pub fn PRP_EQP_1_2(ts: &TripleStore) -> (output: TripleStore)
    requires
        ts.wf(),
    ensures
        output.wf(),
        output@ == delta_derived(ts@, OWL_EQUIVALENT_PROPERTY, false),
        output.lists(delta_emitted(*ts, slot_of(OWL_EQUIVALENT_PROPERTY), false)),
{
    apply_delta_rule(ts, property_to_slot(OWL_EQUIVALENT_PROPERTY), false)
}

} // verus!
