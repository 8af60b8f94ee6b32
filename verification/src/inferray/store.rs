//! The triple store: one chunk of pairs per predicate.

use crate::inferray::dictionary::{
    is_property, property_at, property_to_slot, slot_of, slot_to_property, START_INDEX,
};
use crate::inferray::pairs::{
    is_distinct_sort_of, lemma_strictly_sorted_no_duplicates, lemma_strictly_sorted_unique,
    pair_lt, pair_of, pairs_of, strictly_sorted, swapped, transposed,
};
use crate::inferray::sorter::{
    bucket_sort_pairs, firsts_within, insertion_sort_pairs, is_histogram, is_offsets,
};
use rayon::iter::{IntoParallelRefMutIterator, ParallelIterator};
use vstd::prelude::*;

verus! {

/// All triples that share one predicate, kept twice: as `(subject, object)`
/// pairs and as `(object, subject)` pairs.
pub struct Chunk {
    so: Vec<[u64; 2]>,
    os: Vec<[u64; 2]>,
    os_sorted: bool,
}

impl Chunk {
    /// The stored `(subject, object)` arrays, in storage order.
    pub closed spec fn so_view(&self) -> Seq<[u64; 2]> {
        self.so@
    }

    /// The stored `(object, subject)` arrays, in storage order.
    pub closed spec fn os_view(&self) -> Seq<[u64; 2]> {
        self.os@
    }

    /// The object-major pairs have been rebuilt since the chunk last changed.
    pub closed spec fn is_fresh(&self) -> bool {
        self.os_sorted
    }

    /// The `(subject, object)` pairs, in storage order.
    pub open spec fn pairs(&self) -> Seq<(u64, u64)> {
        pairs_of(self.so_view())
    }

    /// The `(object, subject)` pairs, in storage order.
    pub open spec fn os_pairs(&self) -> Seq<(u64, u64)> {
        pairs_of(self.os_view())
    }

    /// The relation that the chunk holds.
    pub open spec fn relation(&self) -> Set<(u64, u64)> {
        self.pairs().to_set()
    }

    /// While the object-major pairs are marked fresh they are strictly sorted.
    pub open spec fn wf(&self) -> bool {
        self.is_fresh() ==> strictly_sorted(pairs_of(self.os_view()))
    }

    /// Both representations hold the same relation, one transposed.
    pub open spec fn consistent(&self) -> bool {
        pairs_of(self.os_view()).to_set() == transposed(self.relation())
    }

    /// The subject-major pairs.
    pub fn so(&self) -> (r: &Vec<[u64; 2]>)
        ensures
            r@ == self.so_view(),
    {
        &self.so
    }

    /// Appends a `(subject, object)` pair and marks the object-major pairs
    /// stale. The pair is not added to the object-major pairs: that is
    /// `add_os`.
    pub fn add_so(&mut self, so: [u64; 2])
        ensures
            final(self).so_view() == old(self).so_view().push(so),
            final(self).os_view() == old(self).os_view(),
            !final(self).is_fresh(),
    {
        self.so.push(so);
        self.os_sorted = false;
    }

    /// Appends an `(object, subject)` pair and marks the object-major pairs
    /// stale. The pair is not added to the subject-major pairs: that is
    /// `add_so`.
    pub fn add_os(&mut self, os: [u64; 2])
        ensures
            final(self).os_view() == old(self).os_view().push(os),
            final(self).so_view() == old(self).so_view(),
            !final(self).is_fresh(),
    {
        self.os.push(os);
        self.os_sorted = false;
    }

    /// Sorts the subject-major pairs and drops duplicates; returns how many
    /// pairs are left. The object-major pairs are left as they are and marked
    /// stale. The buffers and the range are those of the bucket sorter, which
    /// leaves the buffers as it does on the subject-major pairs.
    pub fn so_sort(
        &mut self,
        hist: &mut Vec<usize>,
        hist2: &mut Vec<usize>,
        cumul: &mut Vec<usize>,
        min: u64,
        max: u64,
        width: usize,
    ) -> (count: usize)
        requires
            old(self).can_so_sort(min, max, width),
        ensures
            count == final(self).so_view().len(),
            final(self).is_so_sort_of(*old(self)),
            old(self).so_view().len() == 0 ==> final(hist)@ == old(hist)@ && final(hist2)@ == old(
                hist2,
            )@ && final(cumul)@ == old(cumul)@,
            old(self).so_view().len() > 0 ==> is_histogram(
                final(hist2)@,
                old(self).so_view(),
                min,
                width as int,
            ) && is_offsets(final(cumul)@, old(self).so_view(), min, width as int) && final(hist)@
                == Seq::new(width as nat, |k: int| 0usize),
    {
        self.os_sorted = false;
        bucket_sort_pairs(&mut self.so, hist, hist2, cumul, min, max, width)
    }

    /// The range handed to `so_sort` covers the first components.
    pub open spec fn can_so_sort(&self, min: u64, max: u64, width: usize) -> bool {
        self.so_view().len() > 0 ==> min <= max && width == max - min + 1 && firsts_within(
            self.so_view(),
            min,
            max,
        )
    }

    /// What `so_sort` makes of a chunk: the same relation, listed in strictly
    /// ascending order; a listing that was already so is kept as it is.
    pub open spec fn is_so_sort_of(&self, before: Chunk) -> bool {
        &&& is_distinct_sort_of(self.pairs(), before.pairs())
        &&& strictly_sorted(before.pairs()) ==> self.pairs() == before.pairs()
        &&& self.os_view() == before.os_view()
        &&& !self.is_fresh()
    }

    /// Sorts the object-major pairs and drops duplicates, then marks them
    /// fresh. The bucket sorter is used where a histogram over the range of
    /// the objects can be indexed, the plain insertion of pairs otherwise.
    fn os_sort(&mut self)
        ensures
            is_distinct_sort_of(pairs_of(final(self).os_view()), pairs_of(old(self).os_view())),
            final(self).so_view() == old(self).so_view(),
            final(self).is_fresh(),
    {
        if !self.os.is_empty() {
            let (min, max) = first_bounds(&self.os);
            if max - min < usize::MAX as u64 {
                let width = (max - min + 1) as usize;
                let mut hist: Vec<usize> = Vec::with_capacity(width);
                let mut hist2: Vec<usize> = Vec::with_capacity(width);
                let mut cumul: Vec<usize> = Vec::with_capacity(width);
                bucket_sort_pairs(&mut self.os, &mut hist, &mut hist2, &mut cumul, min, max, width);
            } else {
                insertion_sort_pairs(&mut self.os);
            }
        } else {
            proof {
                assert(pairs_of(self.os@) =~= Seq::<(u64, u64)>::empty());
            }
        }
        self.os_sorted = true;
    }

    /// Sorts the subject-major pairs and drops duplicates without a
    /// histogram; returns how many pairs are left. The object-major pairs
    /// are left as they are and marked stale.
    pub fn so_sort_unranged(&mut self) -> (count: usize)
        ensures
            count == final(self).so_view().len(),
            final(self).is_so_sort_of(*old(self)),
    {
        self.os_sorted = false;
        insertion_sort_pairs(&mut self.so)
    }

    /// Rebuilds the object-major pairs if anything changed since they were
    /// last rebuilt.
    pub fn refresh(&mut self)
        requires
            old(self).wf(),
        ensures
            is_distinct_sort_of(pairs_of(final(self).os_view()), pairs_of(old(self).os_view())),
            old(self).is_fresh() ==> final(self).os_view() == old(self).os_view(),
            old(self).consistent() ==> final(self).consistent(),
            final(self).so_view() == old(self).so_view(),
            final(self).is_fresh(),
            final(self).wf(),
    {
        if !self.os_sorted {
            self.os_sort();
        }
    }

    /// The object-major pairs in strictly ascending order. They are rebuilt
    /// here if anything changed since they were last read: by the bucket
    /// sorter where a histogram over the range of the objects can be
    /// indexed, by plain insertion otherwise.
    pub fn os(&mut self) -> (r: &Vec<[u64; 2]>)
        requires
            old(self).wf(),
        ensures
            r@ == final(self).os_view(),
            is_distinct_sort_of(pairs_of(r@), pairs_of(old(self).os_view())),
            old(self).is_fresh() ==> r@ == old(self).os_view(),
            old(self).consistent() ==> final(self).consistent() && pairs_of(r@).to_set()
                == transposed(final(self).relation()),
            final(self).so_view() == old(self).so_view(),
            final(self).is_fresh(),
            final(self).wf(),
    {
        self.refresh();
        &self.os
    }

    /// The pairs of the chunk that match a pattern, each once: `s` and `o`
    /// name the subject and the object that a pair must have, or leave them
    /// free. With the subject named the subject-major pairs are searched,
    /// with only the object named the object-major pairs, rebuilt if need
    /// be; with neither, every pair matches.
    pub fn select(&mut self, s: Option<u64>, o: Option<u64>) -> (out: Vec<[u64; 2]>)
        requires
            old(self).wf(),
            old(self).consistent(),
            strictly_sorted(old(self).pairs()),
        ensures
            final(self).wf(),
            final(self).consistent(),
            final(self).so_view() == old(self).so_view(),
            pairs_of(out@).to_set() == old(self).relation().filter(
                |p: (u64, u64)| pair_matches(p, s, o),
            ),
            pairs_of(out@).no_duplicates(),
            pairs_of(out@) == kept(old(self).pairs(), s, o),
    {
        let out = match (s, o) {
            (Some(subject), _) => {
                let out = run_of(&self.so, subject, o);
                proof {
                    lemma_strictly_sorted_no_duplicates(pairs_of(out@));
                    assert(pairs_of(out@).to_set() =~= self.relation().filter(
                        |p: (u64, u64)| pair_matches(p, s, o),
                    ));
                }
                out
            },
            (None, Some(object)) => {
                self.refresh();
                let found = run_of(&self.os, object, None);
                let out = transposed_copy(&found);
                proof {
                    let wanted = self.relation().filter(|p: (u64, u64)| pair_matches(p, s, o));
                    lemma_strictly_sorted_no_duplicates(pairs_of(found@));
                    assert forall|p: (u64, u64)| pairs_of(out@).to_set().contains(p)
                        <==> wanted.contains(p) by {
                        if pairs_of(out@).to_set().contains(p) {
                            let m = choose|m: int|
                                0 <= m < pairs_of(out@).len() && pairs_of(out@)[m] == p;
                            assert(pairs_of(found@)[m] == swapped(p));
                            assert(pairs_of(found@).to_set().contains(swapped(p)));
                            assert(pairs_of(self.os_view()).to_set().contains(swapped(p)));
                        }
                        if wanted.contains(p) {
                            assert(transposed(self.relation()).contains(swapped(p)));
                            assert(pairs_of(found@).to_set().contains(swapped(p)));
                            let m = choose|m: int|
                                0 <= m < pairs_of(found@).len() && pairs_of(found@)[m] == swapped(
                                    p,
                                );
                            assert(pairs_of(out@)[m] == p);
                        }
                    }
                    assert(pairs_of(out@).to_set() =~= wanted);
                    assert forall|a: int, b: int|
                        0 <= a < pairs_of(out@).len() && 0 <= b < pairs_of(out@).len() && a
                            != b implies pairs_of(out@)[a] != pairs_of(out@)[b] by {
                        assert(pairs_of(found@)[a] == swapped(pairs_of(out@)[a]));
                        assert(pairs_of(found@)[b] == swapped(pairs_of(out@)[b]));
                    }
                    // all found pairs share the object, so they ascend by subject
                    assert forall|a: int, b: int| 0 <= a < b < pairs_of(out@).len() implies pair_lt(
                        #[trigger] pairs_of(out@)[a],
                        #[trigger] pairs_of(out@)[b],
                    ) by {
                        assert(pairs_of(found@)[a] == swapped(pairs_of(out@)[a]));
                        assert(pairs_of(found@)[b] == swapped(pairs_of(out@)[b]));
                        assert(pair_lt(pairs_of(found@)[a], pairs_of(found@)[b]));
                        assert(pairs_of(found@).to_set().contains(pairs_of(found@)[a]));
                        assert(pairs_of(found@).to_set().contains(pairs_of(found@)[b]));
                    }
                }
                out
            },
            (None, None) => {
                let out = copied(&self.so);
                proof {
                    lemma_strictly_sorted_no_duplicates(pairs_of(out@));
                    assert(pairs_of(out@).to_set() =~= self.relation().filter(
                        |p: (u64, u64)| pair_matches(p, s, o),
                    ));
                }
                out
            },
        };
        proof {
            lemma_kept(old(self).pairs(), s, o);
            lemma_strictly_sorted_unique(pairs_of(out@), kept(old(self).pairs(), s, o));
        }
        out
    }

    /// Replaces the identifier `res` by `prop` wherever it occurs.
    pub fn res_to_prop(&mut self, res: u64, prop: u64)
        ensures
            pairs_of(final(self).so_view()) == renamed_pairs(pairs_of(old(self).so_view()), res, prop),
            pairs_of(final(self).os_view()) == renamed_pairs(pairs_of(old(self).os_view()), res, prop),
            !final(self).is_fresh(),
    {
        rename_in(&mut self.so, res, prop);
        rename_in(&mut self.os, res, prop);
        self.os_sorted = false;
    }
}

impl Default for Chunk {
    /// An empty chunk.
    fn default() -> (c: Self)
        ensures
            c.so_view() == Seq::<[u64; 2]>::empty(),
            c.os_view() == Seq::<[u64; 2]>::empty(),
            !c.is_fresh(),
            c.wf(),
            c.consistent(),
    {
        let c = Self { so: Vec::new(), os: Vec::new(), os_sorted: false };
        proof {
            assert(pairs_of(c.so_view()) =~= Seq::<(u64, u64)>::empty());
            assert(pairs_of(c.os_view()) =~= Seq::<(u64, u64)>::empty());
            assert(c.relation() =~= Set::<(u64, u64)>::empty());
            assert(transposed(c.relation()) =~= Set::<(u64, u64)>::empty());
            assert(pairs_of(c.os_view()).to_set() =~= Set::<(u64, u64)>::empty());
        }
        c
    }
}

/// `v`, or `prop` where `v` is `res`.
pub open spec fn renamed(v: u64, res: u64, prop: u64) -> u64 {
    if v == res {
        prop
    } else {
        v
    }
}

/// The pairs with `res` replaced by `prop` in both components.
pub open spec fn renamed_pairs(s: Seq<(u64, u64)>, res: u64, prop: u64) -> Seq<(u64, u64)> {
    Seq::new(s.len(), |i: int| (renamed(s[i].0, res, prop), renamed(s[i].1, res, prop)))
}

fn rename_in(pairs: &mut Vec<[u64; 2]>, res: u64, prop: u64)
    ensures
        pairs_of(final(pairs)@) == renamed_pairs(pairs_of(old(pairs)@), res, prop),
{
    let mut k: usize = 0;
    while k < pairs.len()
        invariant
            k <= pairs.len(),
            pairs.len() == old(pairs).len(),
            forall|i: int|
                0 <= i < k ==> (#[trigger] pairs@[i])[0] == renamed(old(pairs)@[i][0], res, prop)
                    && pairs@[i][1] == renamed(old(pairs)@[i][1], res, prop),
            forall|i: int| k <= i < pairs.len() ==> pairs@[i] == old(pairs)@[i],
        decreases pairs.len() - k,
    {
        if pairs[k][0] == res {
            pairs[k][0] = prop;
        }
        if pairs[k][1] == res {
            pairs[k][1] = prop;
        }
        k += 1;
    }
    proof {
        assert(pairs_of(pairs@) =~= renamed_pairs(pairs_of(old(pairs)@), res, prop));
    }
}

/// The least and the greatest first component of `pairs`.
fn first_bounds(pairs: &Vec<[u64; 2]>) -> (r: (u64, u64))
    requires
        pairs.len() > 0,
    ensures
        firsts_within(pairs@, r.0, r.1),
        exists|i: int| 0 <= i < pairs.len() && (#[trigger] pairs@[i])[0] == r.0,
        exists|i: int| 0 <= i < pairs.len() && (#[trigger] pairs@[i])[0] == r.1,
{
    let mut min = pairs[0][0];
    let mut max = pairs[0][0];
    let ghost mut at_min: int = 0;
    let ghost mut at_max: int = 0;
    let mut k: usize = 1;
    while k < pairs.len()
        invariant
            1 <= k <= pairs.len(),
            0 <= at_min < k,
            0 <= at_max < k,
            pairs@[at_min][0] == min,
            pairs@[at_max][0] == max,
            forall|i: int| 0 <= i < k ==> min <= (#[trigger] pairs@[i])[0] <= max,
        decreases pairs.len() - k,
    {
        let first = pairs[k][0];
        if first < min {
            min = first;
            proof {
                at_min = k as int;
            }
        }
        if first > max {
            max = first;
            proof {
                at_max = k as int;
            }
        }
        k += 1;
    }
    (min, max)
}

/// The triples of a reasoning session, partitioned by predicate: slot `i`
/// holds the chunk of the `i`-th property.
pub struct TripleStore {
    elem: Vec<Chunk>,
    size: usize,
}

/// `n`, or `usize::MAX` where `n` is larger.
pub open spec fn clip(n: nat) -> usize {
    if n <= usize::MAX {
        n as usize
    } else {
        usize::MAX
    }
}

/// The number of subject-major pairs in all the chunks together.
pub open spec fn total_pairs(chunks: Seq<Chunk>) -> nat
    decreases chunks.len(),
{
    if chunks.len() == 0 {
        0
    } else {
        total_pairs(chunks.drop_last()) + chunks.last().so_view().len()
    }
}

/// The triples that the pairs of `r` stand for when kept in slot `slot`.
pub open spec fn lifted(r: Set<(u64, u64)>, slot: int) -> Set<(u64, u64, u64)> {
    Set::new(|t: (u64, u64, u64)| t.1 == property_at(slot) && r.contains((t.0, t.2)))
}

/// The triples that a sequence of chunks stands for, chunk `i` holding the
/// pairs of the property of slot `i`.
pub open spec fn triples_of(chunks: Seq<Chunk>) -> Set<(u64, u64, u64)> {
    Set::new(
        |t: (u64, u64, u64)|
            is_property(t.1) && slot_of(t.1) < chunks.len() && chunks[slot_of(t.1)].relation().contains(
                (t.0, t.2),
            ),
    )
}

impl View for TripleStore {
    type V = Set<(u64, u64, u64)>;

    /// The `(subject, predicate, object)` triples that the store holds.
    open spec fn view(&self) -> Set<(u64, u64, u64)> {
        triples_of(self.chunks())
    }
}

impl TripleStore {
    /// The chunks, by slot.
    pub closed spec fn chunks(&self) -> Seq<Chunk> {
        self.elem@
    }

    /// The running count of stored triples.
    pub closed spec fn counted(&self) -> usize {
        self.size
    }

    /// Some stored triple has `v` as its subject or as its object.
    pub open spec fn mentions(&self, v: u64) -> bool {
        exists|t: (u64, u64, u64)| #[trigger] self@.contains(t) && (t.0 == v || t.2 == v)
    }

    /// The number of slots in use.
    pub open spec fn num_slots(&self) -> nat {
        self.chunks().len()
    }

    /// The number of pairs stored, duplicates included.
    pub open spec fn raw_len(&self) -> nat {
        total_pairs(self.chunks())
    }

    /// Every slot stands for a property, the count is the number of stored
    /// pairs (held at `usize::MAX` should it ever go beyond), and each chunk
    /// keeps its two representations in step.
    pub open spec fn wf(&self) -> bool {
        &&& self.chunks().len() <= START_INDEX
        &&& self.counted() == clip(self.raw_len())
        &&& forall|i: int|
            0 <= i < self.chunks().len() ==> (#[trigger] self.chunks()[i]).consistent()
                && self.chunks()[i].wf()
    }

    /// Every chunk lists its pairs in strictly ascending order.
    pub open spec fn is_sorted(&self) -> bool {
        forall|i: int|
            0 <= i < self.chunks().len() ==> strictly_sorted((#[trigger] self.chunks()[i]).pairs())
    }

    /// An empty store.
    pub fn new() -> (store: Self)
        ensures
            store.wf(),
            store.is_sorted(),
            store.num_slots() == 0,
            store.raw_len() == 0,
            store@ == Set::<(u64, u64, u64)>::empty(),
            store.lists(Seq::empty()),
    {
        let elem = Vec::new();
        let store = Self { elem, size: 0 };
        proof {
            assert(store@ =~= Set::<(u64, u64, u64)>::empty());
        }
        store
    }

    /// The count of stored triples: exact once the store has been sorted,
    /// the number of insertions before that.
    pub fn size(&self) -> (n: usize)
        ensures
            n == self.counted(),
            self.wf() ==> n == clip(self.raw_len()),
            self.wf() && self.is_sorted() ==> self@.finite() && n == clip(self@.len()),
    {
        proof {
            if self.wf() && self.is_sorted() {
                lemma_sorted_len(self.chunks());
            }
        }
        self.size
    }

    /// The number of slots in use.
    pub fn slots(&self) -> (n: usize)
        ensures
            n == self.num_slots(),
    {
        self.elem.len()
    }

    /// The chunk in `slot`, if that slot is in use.
    pub fn chunk(&self, slot: usize) -> (r: Option<&Chunk>)
        ensures
            slot < self.num_slots() ==> r == Some(&self.chunks()[slot as int]),
            slot >= self.num_slots() ==> r is None,
    {
        if slot < self.elem.len() {
            Some(&self.elem[slot])
        } else {
            None
        }
    }

    /// The pairs of `slot` in object-major order: `(object, subject)`,
    /// strictly ascending, the same relation as the subject-major pairs of
    /// that slot read in the other direction. They are rebuilt here if the
    /// chunk changed since they were last read.
    pub fn os(&mut self, slot: usize) -> (r: Option<&Vec<[u64; 2]>>)
        requires
            old(self).wf(),
        ensures
            final(self).wf(),
            final(self)@ == old(self)@,
            final(self).num_slots() == old(self).num_slots(),
            final(self).counted() == old(self).counted(),
            forall|i: int|
                0 <= i < old(self).num_slots() ==> (#[trigger] final(self).chunks()[i]).so_view()
                    == old(self).chunks()[i].so_view(),
            forall|i: int|
                0 <= i < old(self).num_slots() && i != slot ==> #[trigger] final(self).chunks()[i]
                    == old(self).chunks()[i],
            slot >= old(self).num_slots() ==> final(self).chunks() == old(self).chunks(),
            slot < old(self).num_slots() ==> r->0@ == final(self).chunks()[slot as int].os_view(),
            slot >= old(self).num_slots() ==> r is None,
            slot < old(self).num_slots() ==> r is Some && strictly_sorted(pairs_of(r->0@))
                && pairs_of(r->0@).to_set() == transposed(old(self).chunks()[slot as int].relation()),
    {
        if slot >= self.elem.len() {
            return None;
        }
        let ghost before = *self;
        let ghost c0 = self.elem@[slot as int];
        proof {
            assert(c0.consistent() && c0.wf());
        }
        self.elem[slot].refresh();
        proof {
            let c1 = self.elem@[slot as int];
            assert(self.chunks() =~= before.chunks().update(slot as int, c1));
            lemma_total_update(before.chunks(), slot as int, c1);
            assert forall|t: (u64, u64, u64)| self@.contains(t) <==> before@.contains(t) by {}
            assert(self@ =~= before@);
        }
        Some(&self.elem[slot].os)
    }

    /// Appends to `out` the triples of `slot` that have the subject and the
    /// object that the pattern names.
    fn select_into(&mut self, slot: usize, s: Option<u64>, o: Option<u64>, out: &mut Vec<[u64; 3]>)
        requires
            old(self).wf(),
            old(self).is_sorted(),
            slot < old(self).num_slots(),
            triples_in(old(out)@).no_duplicates(),
            forall|m: int|
                0 <= m < old(out).len() ==> (#[trigger] old(out)@[m])[1] != property_at(slot as int),
        ensures
            final(self).wf(),
            final(self).is_sorted(),
            final(self)@ == old(self)@,
            final(self).num_slots() == old(self).num_slots(),
            final(self).counted() == old(self).counted(),
            triples_in(final(out)@).no_duplicates(),
            triples_in(final(out)@).to_set() == triples_in(old(out)@).to_set() + old(self)@.filter(
                |t: (u64, u64, u64)| t.1 == property_at(slot as int) && triple_matches(t, s, None, o),
            ),
            forall|m: int|
                0 <= m < final(out).len() ==> (#[trigger] final(out)@[m])[1] == property_at(
                    slot as int,
                ) || (m < old(out).len() && final(out)@[m] == old(out)@[m]),
            triples_in(final(out)@) == triples_in(old(out)@) + lifted_seq(
                kept(old(self).chunks()[slot as int].pairs(), s, o),
                slot as int,
            ),
            forall|i: int|
                0 <= i < old(self).num_slots() ==> (#[trigger] final(self).chunks()[i]).so_view()
                    == old(self).chunks()[i].so_view(),
    {
        let ghost before = *self;
        let ghost c0 = self.elem@[slot as int];
        let ghost start = triples_in(out@);
        let ghost wanted = before@.filter(
            |t: (u64, u64, u64)| t.1 == property_at(slot as int) && triple_matches(t, s, None, o),
        );
        proof {
            assert(c0.consistent() && c0.wf() && strictly_sorted(c0.pairs()));
        }
        let selected = self.elem[slot].select(s, o);
        let p = slot_to_property(slot);
        proof {
            let c1 = self.elem@[slot as int];
            assert(self.chunks() =~= before.chunks().update(slot as int, c1));
            lemma_total_update(before.chunks(), slot as int, c1);
            assert forall|t: (u64, u64, u64)| self@.contains(t) <==> before@.contains(t) by {}
            assert(self@ =~= before@);
        }
        let ghost found = pairs_of(selected@);
        let mut k: usize = 0;
        proof {
            assert(found.take(0).to_set() =~= Set::<(u64, u64)>::empty());
            assert(triples_in(out@).to_set() =~= start.to_set() + lifted(
                found.take(0).to_set(),
                slot as int,
            ));
        }
        while k < selected.len()
            invariant
                k <= selected.len(),
                found == pairs_of(selected@),
                found.no_duplicates(),
                p == property_at(slot as int),
                start == triples_in(old(out)@),
                out.len() == old(out).len() + k,
                forall|m: int| 0 <= m < old(out).len() ==> out@[m] == old(out)@[m],
                forall|q: int|
                    old(out).len() <= q < old(out).len() + k ==> #[trigger] triples_in(out@)[q] == (
                        found[q - old(out).len()].0,
                        p,
                        found[q - old(out).len()].1,
                    ),
                forall|m: int| 0 <= m < old(out).len() ==> (#[trigger] old(out)@[m])[1] != p,
                triples_in(old(out)@).no_duplicates(),
            decreases selected.len() - k,
        {
            let ghost listed = triples_in(out@);
            out.push([selected[k][0], p, selected[k][1]]);
            proof {
                assert forall|q: int|
                    old(out).len() <= q < old(out).len() + k + 1 implies #[trigger] triples_in(
                    out@,
                )[q] == (found[q - old(out).len()].0, p, found[q - old(out).len()].1) by {
                    if q < old(out).len() + k {
                        assert(triples_in(out@)[q] == listed[q]);
                    }
                }
            }
            k += 1;
        }
        proof {
            let all = triples_in(out@);
            let n = old(out).len() as int;
            assert(all =~= start + lifted_seq(found, slot as int));
            assert forall|a: int, b: int| 0 <= a < all.len() && 0 <= b < all.len() && a
                != b implies all[a] != all[b] by {
                if a < n && b < n {
                    assert(start[a] != start[b]);
                } else if a >= n && b >= n {
                    assert(all[a] == (found[a - n].0, p, found[a - n].1));
                    assert(all[b] == (found[b - n].0, p, found[b - n].1));
                    assert(found[a - n] != found[b - n]);
                } else if a < n {
                    assert(all[b] == (found[b - n].0, p, found[b - n].1));
                    assert(old(out)@[a][1] != p);
                } else {
                    assert(all[a] == (found[a - n].0, p, found[a - n].1));
                    assert(old(out)@[b][1] != p);
                }
            }
            assert forall|t: (u64, u64, u64)| all.to_set().contains(t) <==> (start.to_set()
                + wanted).contains(t) by {
                if all.to_set().contains(t) {
                    let m = choose|m: int| 0 <= m < all.len() && all[m] == t;
                    if m < n {
                        assert(start[m] == t);
                    } else {
                        assert(all[m] == (found[m - n].0, p, found[m - n].1));
                        assert(found.to_set().contains(found[m - n]));
                        assert(c0.relation().contains((t.0, t.2)));
                        assert(before@.contains(t));
                    }
                }
                if start.to_set().contains(t) {
                    let m = choose|m: int| 0 <= m < start.len() && start[m] == t;
                    assert(all[m] == t);
                }
                if wanted.contains(t) {
                    assert(c0.relation().contains((t.0, t.2)));
                    assert(found.to_set().contains((t.0, t.2)));
                    let m = choose|m: int| 0 <= m < found.len() && found[m] == (t.0, t.2);
                    assert(all[n + m] == t);
                }
            }
            assert(all.to_set() =~= start.to_set() + wanted);
            assert forall|m: int| 0 <= m < out.len() implies (#[trigger] out@[m])[1] == property_at(
                slot as int,
            ) || (m < old(out).len() && out@[m] == old(out)@[m]) by {
                if m >= n {
                    assert(triples_in(out@)[m] == (found[m - n].0, p, found[m - n].1));
                }
            }
        }
    }

    /// The triples that match a pattern, each once: `s`, `p` and `o` name
    /// the subject, the predicate and the object that a triple must have,
    /// or leave them free.
    ///
    /// With the predicate named only its chunk is searched; without it every
    /// chunk is. Within a chunk the subject-major pairs are searched where
    /// the subject is named, the object-major pairs where only the object
    /// is; these are rebuilt if the chunk changed since they were last read.
    pub fn matching(&mut self, s: Option<u64>, p: Option<u64>, o: Option<u64>) -> (out: Vec<
        [u64; 3],
    >)
        requires
            old(self).wf(),
            old(self).is_sorted(),
        ensures
            final(self).wf(),
            final(self).is_sorted(),
            final(self)@ == old(self)@,
            final(self).num_slots() == old(self).num_slots(),
            final(self).counted() == old(self).counted(),
            triples_in(out@).to_set() == old(self)@.filter(
                |t: (u64, u64, u64)| triple_matches(t, s, p, o),
            ),
            triples_in(out@).no_duplicates(),
            triples_in(out@) == old(self).matched(s, p, o),
            forall|i: int|
                0 <= i < old(self).num_slots() ==> (#[trigger] final(self).chunks()[i]).so_view()
                    == old(self).chunks()[i].so_view(),
    {
        let ghost wanted = self@.filter(|t: (u64, u64, u64)| triple_matches(t, s, p, o));
        let mut out: Vec<[u64; 3]> = Vec::new();
        match p {
            Some(predicate) => {
                let slot = if predicate < START_INDEX {
                    property_to_slot(predicate)
                } else {
                    self.elem.len()
                };
                if slot < self.elem.len() {
                    self.select_into(slot, s, o, &mut out);
                    proof {
                        assert(triples_in(out@).to_set() =~= wanted);
                        assert(triples_in(out@) =~= old(self).matched(s, p, o));
                    }
                } else {
                    proof {
                        assert(triples_in(out@).to_set() =~= wanted);
                    }
                }
            },
            None => {
                let mut slot: usize = 0;
                proof {
                    assert(triples_in(out@).to_set() =~= self@.filter(
                        |t: (u64, u64, u64)| triple_matches(t, s, p, o) && slot_of(t.1) < 0,
                    ));
                    assert(old(self).chunks().take(0) =~= Seq::<Chunk>::empty());
                    assert(triples_in(out@) =~= matched_in(old(self).chunks().take(0), s, o));
                }
                while slot < self.elem.len()
                    invariant
                        slot <= self.num_slots(),
                        self.wf(),
                        self.is_sorted(),
                        self@ == old(self)@,
                        self.num_slots() == old(self).num_slots(),
                        self.counted() == old(self).counted(),
                        p is None,
                        triples_in(out@).no_duplicates(),
                        forall|m: int|
                            0 <= m < out.len() ==> is_property((#[trigger] out@[m])[1]) && slot_of(
                                out@[m][1],
                            ) < slot,
                        triples_in(out@).to_set() == old(self)@.filter(
                            |t: (u64, u64, u64)|
                                triple_matches(t, s, p, o) && slot_of(t.1) < slot,
                        ),
                        triples_in(out@) == matched_in(
                            old(self).chunks().take(slot as int),
                            s,
                            o,
                        ),
                        forall|i: int|
                            0 <= i < old(self).num_slots() ==> (
                            #[trigger] self.chunks()[i]).so_view() == old(self).chunks()[i].so_view(),
                    decreases self.num_slots() - slot,
                {
                    let ghost before = triples_in(out@).to_set();
                    let ghost held = self.chunks();
                    self.select_into(slot, s, o, &mut out);
                    proof {
                        let taken = old(self).chunks().take(slot + 1);
                        assert(taken.drop_last() =~= old(self).chunks().take(slot as int));
                        assert(taken.last() == old(self).chunks()[slot as int]);
                        assert(held[slot as int].pairs() == old(self).chunks()[slot as int].pairs());
                        assert forall|i: int| 0 <= i < old(self).num_slots() implies (
                        #[trigger] self.chunks()[i]).so_view() == old(self).chunks()[i].so_view() by {
                            assert(held[i].so_view() == old(self).chunks()[i].so_view());
                        }
                        assert(triples_in(out@).to_set() =~= old(self)@.filter(
                            |t: (u64, u64, u64)|
                                triple_matches(t, s, p, o) && slot_of(t.1) < slot + 1,
                        ));
                    }
                    slot += 1;
                }
                proof {
                    assert(triples_in(out@).to_set() =~= wanted);
                    assert(old(self).chunks().take(slot as int) =~= old(self).chunks());
                }
            },
        }
        out
    }

    /// The triples that match a pattern, as `matching` lists them: the
    /// matching pairs of the chunk of the predicate, in stored order, where
    /// a predicate is named and has a chunk; else, chunk after chunk, the
    /// matching pairs of each in stored order.
    pub open spec fn matched(&self, s: Option<u64>, p: Option<u64>, o: Option<u64>) -> Seq<
        (u64, u64, u64),
    > {
        match p {
            Some(predicate) => if is_property(predicate) && slot_of(predicate) < self.num_slots() {
                lifted_seq(
                    kept(self.chunks()[slot_of(predicate)].pairs(), s, o),
                    slot_of(predicate),
                )
            } else {
                Seq::empty()
            },
            None => matched_in(self.chunks(), s, o),
        }
    }

    /// Every triple of the store, chunk after chunk, the pairs of each
    /// chunk in stored order.
    pub open spec fn listed(&self) -> Seq<(u64, u64, u64)> {
        listing(self.chunks())
    }

    /// Appends empty chunks until `slots` slots are in use.
    fn grow(&mut self, slots: usize)
        requires
            old(self).wf(),
            old(self).num_slots() <= slots <= START_INDEX,
        ensures
            final(self).wf(),
            final(self).num_slots() == slots,
            final(self).counted() == old(self).counted(),
            final(self).raw_len() == old(self).raw_len(),
            final(self)@ == old(self)@,
            forall|i: int|
                0 <= i < old(self).num_slots() ==> final(self).chunks()[i] == old(self).chunks()[i],
            forall|i: int|
                old(self).num_slots() <= i < slots ==> (#[trigger] final(self).chunks()[i]).so_view()
                    == Seq::<[u64; 2]>::empty() && final(self).chunks()[i].os_view() == Seq::<
                    [u64; 2],
                >::empty(),
    {
        while self.elem.len() < slots
            invariant
                self.wf(),
                old(self).num_slots() <= self.num_slots() <= slots <= START_INDEX,
                self.counted() == old(self).counted(),
                self.raw_len() == old(self).raw_len(),
                self@ == old(self)@,
                forall|i: int|
                    0 <= i < old(self).num_slots() ==> self.chunks()[i] == old(self).chunks()[i],
                forall|i: int|
                    old(self).num_slots() <= i < self.num_slots() ==> (
                    #[trigger] self.chunks()[i]).so_view() == Seq::<[u64; 2]>::empty()
                        && self.chunks()[i].os_view() == Seq::<[u64; 2]>::empty(),
            decreases slots - self.elem.len(),
        {
            let ghost before = *self;
            let chunk = Chunk::default();
            proof {
                assert(chunk.relation() =~= Set::<(u64, u64)>::empty());
            }
            self.elem.push(chunk);
            proof {
                assert(self.chunks().drop_last() =~= before.chunks());
                assert(self@ =~= before@);
            }
        }
    }

    /// Appends the pair `(is, io)` to the chunk in slot `ip`.
    pub fn add_triple_raw(&mut self, is: u64, ip: usize, io: u64)
        requires
            old(self).wf(),
            ip < old(self).num_slots(),
        ensures
            final(self).wf(),
            final(self).num_slots() == old(self).num_slots(),
            final(self).raw_len() == old(self).raw_len() + 1,
            final(self)@ == old(self)@.insert((is, property_at(ip as int), io)),
            forall|i: int|
                0 <= i < old(self).num_slots() && i != ip
                    ==> final(self).chunks()[i] == old(self).chunks()[i],
            final(self).chunks()[ip as int].so_view() == old(self).chunks()[ip as int].so_view().push(
                [is, io],
            ),
            final(self).chunks()[ip as int].os_view() == old(self).chunks()[ip as int].os_view().push(
                [io, is],
            ),
            final(self).chunks()[ip as int].pairs() == old(self).chunks()[ip as int].pairs().push(
                (is, io),
            ),
            final(self).chunks()[ip as int].os_pairs() == old(self).chunks()[ip as int].os_pairs().push((io, is)),
    {
        let ghost before = *self;
        let ghost c0 = self.elem@[ip as int];
        self.elem[ip].add_so([is, io]);
        self.elem[ip].add_os([io, is]);
        if self.size < usize::MAX {
            self.size += 1;
        }
        proof {
            let c1 = self.elem@[ip as int];
            assert(self.chunks() =~= before.chunks().update(ip as int, c1));
            assert(c1.pairs() =~= c0.pairs().push((is, io)));
            assert(pairs_of(c1.os_view()) =~= pairs_of(c0.os_view()).push((io, is)));
            c0.pairs().lemma_push_to_set_commute((is, io));
            pairs_of(c0.os_view()).lemma_push_to_set_commute((io, is));
            assert(c1.relation() =~= c0.relation().insert((is, io)));
            assert(transposed(c1.relation()) =~= transposed(c0.relation()).insert((io, is)));
            lemma_total_update(before.chunks(), ip as int, c1);
            assert(self@ =~= before@.insert((is, property_at(ip as int), io)));
        }
    }

    /// Takes in every triple of `other`.
    pub fn add_all(&mut self, other: Self)
        requires
            old(self).wf(),
            other.wf(),
        ensures
            final(self).wf(),
            final(self)@ == old(self)@ + other@,
            final(self).raw_len() == old(self).raw_len() + other.raw_len(),
            final(self).num_slots() == if other.num_slots() > old(self).num_slots() {
                other.num_slots()
            } else {
                old(self).num_slots()
            },
            forall|k: int|
                0 <= k < other.num_slots() ==> (#[trigger] final(self).chunks()[k]).so_view()
                    == old(self).so_at(k) + other.chunks()[k].so_view(),
            forall|k: int|
                0 <= k < other.num_slots() ==> (#[trigger] final(self).chunks()[k]).os_pairs()
                    == pairs_of(old(self).os_at(k)) + swapped_pairs(other.chunks()[k].pairs()),
            forall|k: int|
                other.num_slots() <= k < old(self).num_slots() ==> #[trigger] final(self).chunks()[k] == old(self).chunks()[k],
            forall|a: Seq<(u64, u64, u64)>, b: Seq<(u64, u64, u64)>|
                #![trigger old(self).lists(a), other.lists(b)]
                old(self).lists(a) && other.lists(b) ==> final(self).lists(a + b),
    {
        if other.elem.len() > self.elem.len() {
            self.grow(other.elem.len());
        }
        let ghost grown = self.num_slots();
        let ghost base = self.chunks();
        proof {
            assert forall|k: int| 0 <= k < grown implies (#[trigger] base[k]).so_view() == old(self).so_at(k) && base[k].os_view() == old(self).os_at(k) by {}
        }
        let mut ip: usize = 0;
        proof {
            assert(triples_of(other.chunks().take(0)) =~= Set::<(u64, u64, u64)>::empty());
            assert(self@ =~= old(self)@ + triples_of(other.chunks().take(0)));
        }
        while ip < other.elem.len()
            invariant
                ip <= other.elem.len(),
                self.wf(),
                other.wf(),
                self.num_slots() == grown,
                other.num_slots() <= grown,
                self@ == old(self)@ + triples_of(other.chunks().take(ip as int)),
                self.raw_len() == old(self).raw_len() + total_pairs(other.chunks().take(ip as int)),
                base.len() == grown,
                forall|q: int|
                    0 <= q < ip ==> (#[trigger] self.chunks()[q]).so_view() == base[q].so_view()
                        + other.chunks()[q].so_view() && self.chunks()[q].os_pairs()
                        == base[q].os_pairs() + swapped_pairs(other.chunks()[q].pairs()),
                forall|q: int| ip <= q < grown ==> #[trigger] self.chunks()[q] == base[q],
            decreases other.elem.len() - ip,
        {
            let pairs = other.elem[ip].so();
            let ghost c = other.chunks()[ip as int];
            let ghost done = triples_of(other.chunks().take(ip as int));
            let mut k: usize = 0;
            proof {
                assert(pairs_of(pairs@.take(0)).to_set() =~= Set::<(u64, u64)>::empty());
                assert(lifted(pairs_of(pairs@.take(0)).to_set(), ip as int) =~= Set::<
                    (u64, u64, u64),
                >::empty());
                assert(self@ =~= old(self)@ + done + lifted(
                    pairs_of(pairs@.take(0)).to_set(),
                    ip as int,
                ));
                assert(self.chunks()[ip as int].so_view() =~= base[ip as int].so_view()
                    + pairs@.take(0));
                assert(self.chunks()[ip as int].os_pairs() =~= base[ip as int].os_pairs()
                    + swapped_pairs(pairs_of(pairs@.take(0))));
            }
            while k < pairs.len()
                invariant
                    k <= pairs.len(),
                    ip < other.elem.len(),
                    pairs@ == c.so_view(),
                    self.wf(),
                    self.num_slots() == grown,
                    other.num_slots() <= grown,
                    self@ == old(self)@ + done + lifted(
                        pairs_of(pairs@.take(k as int)).to_set(),
                        ip as int,
                    ),
                    self.raw_len() == old(self).raw_len() + total_pairs(
                        other.chunks().take(ip as int),
                    ) + k,
                    base.len() == grown,
                    forall|q: int|
                        0 <= q < ip ==> (#[trigger] self.chunks()[q]).so_view()
                            == base[q].so_view() + other.chunks()[q].so_view()
                            && self.chunks()[q].os_pairs() == base[q].os_pairs() + swapped_pairs(
                            other.chunks()[q].pairs(),
                        ),
                    forall|q: int| ip < q < grown ==> #[trigger] self.chunks()[q] == base[q],
                    self.chunks()[ip as int].so_view() == base[ip as int].so_view() + pairs@.take(
                        k as int,
                    ),
                    self.chunks()[ip as int].os_pairs() == base[ip as int].os_pairs()
                        + swapped_pairs(pairs_of(pairs@.take(k as int))),
                decreases pairs.len() - k,
            {
                let ghost seen = pairs_of(pairs@.take(k as int));
                let ghost held = self.chunks();
                self.add_triple_raw(pairs[k][0], ip, pairs[k][1]);
                proof {
                    assert([pairs@[k as int][0], pairs@[k as int][1]] =~= pairs@[k as int]);
                    assert(self.chunks()[ip as int].so_view() =~= base[ip as int].so_view()
                        + pairs@.take(k + 1));
                    assert(self.chunks()[ip as int].os_pairs() =~= base[ip as int].os_pairs()
                        + swapped_pairs(pairs_of(pairs@.take(k + 1))));
                    assert forall|q: int| 0 <= q < ip implies (#[trigger] self.chunks()[q]).so_view()
                        == base[q].so_view() + other.chunks()[q].so_view()
                        && self.chunks()[q].os_pairs() == base[q].os_pairs() + swapped_pairs(
                        other.chunks()[q].pairs(),
                    ) by {
                        assert(self.chunks()[q] == held[q]);
                    }
                    assert forall|q: int| ip < q < grown implies #[trigger] self.chunks()[q]
                        == base[q] by {
                        assert(self.chunks()[q] == held[q]);
                    }
                    let x = pair_of(pairs@[k as int]);
                    assert(pairs_of(pairs@.take(k + 1)) =~= seen.push(x));
                    seen.lemma_push_to_set_commute(x);
                    assert(lifted(seen.push(x).to_set(), ip as int) =~= lifted(
                        seen.to_set(),
                        ip as int,
                    ).insert((x.0, property_at(ip as int), x.1)));
                    assert(self@ =~= old(self)@ + done + lifted(
                        pairs_of(pairs@.take(k + 1)).to_set(),
                        ip as int,
                    ));
                }
                k += 1;
            }
            proof {
                assert(pairs@.take(k as int) =~= pairs@);
                assert(other.chunks().take(ip + 1) =~= other.chunks().take(ip as int).push(c));
                assert(other.chunks().take(ip + 1).drop_last() =~= other.chunks().take(ip as int));
                lemma_triples_push(other.chunks().take(ip as int), c);
                assert(self@ =~= old(self)@ + triples_of(other.chunks().take(ip + 1)));
            }
            ip += 1;
        }
        proof {
            assert(other.chunks().take(ip as int) =~= other.chunks());
            assert forall|a: Seq<(u64, u64, u64)>, b: Seq<(u64, u64, u64)>|
                #![trigger old(self).lists(a), other.lists(b)]
                old(self).lists(a) && other.lists(b) implies self.lists(a + b) by {
                lemma_for_concat(a, b, 0);
                assert forall|j: int| 0 <= j < self.num_slots() implies (
                #[trigger] self.chunks()[j]).pairs() == pairs_for(a + b, j)
                    && self.chunks()[j].os_pairs() == swapped_pairs(pairs_for(a + b, j)) by {
                    lemma_for_concat(a, b, j);
                    if j >= old(self).num_slots() {
                        lemma_pairs_for_beyond(a, j);
                    } else {
                        assert(old(self).chunks()[j].pairs() == pairs_for(a, j));
                    }
                    if j >= other.num_slots() {
                        lemma_pairs_for_beyond(b, j);
                        assert(self.chunks()[j] == old(self).chunks()[j]);
                        assert(pairs_for(a + b, j) =~= pairs_for(a, j));
                    } else {
                        assert(other.chunks()[j].pairs() == pairs_for(b, j));
                        assert(self.chunks()[j].pairs() =~= pairs_of(old(self).so_at(j))
                            + other.chunks()[j].pairs());
                        assert(pairs_of(old(self).so_at(j)) =~= pairs_for(a, j));
                        assert(pairs_of(old(self).os_at(j)) =~= swapped_pairs(pairs_for(a, j)));
                        assert(swapped_pairs(pairs_for(a, j) + pairs_for(b, j)) =~= swapped_pairs(
                            pairs_for(a, j),
                        ) + swapped_pairs(pairs_for(b, j)));
                    }
                }
            }
        }
    }

    /// The store is laid out as adding the triples of `seq`, one after the
    /// other, to an empty store leaves it: as many slots as the triples
    /// need, each chunk with the pairs of its triples in the order of `seq`,
    /// the object-major list with the same pairs transposed, and every
    /// addition counted.
    pub open spec fn lists(&self, seq: Seq<(u64, u64, u64)>) -> bool {
        &&& self.num_slots() == slots_for(seq)
        &&& self.raw_len() == seq.len()
        &&& forall|k: int|
            0 <= k < self.num_slots() ==> (#[trigger] self.chunks()[k]).pairs() == pairs_for(seq, k)
                && self.chunks()[k].os_pairs() == swapped_pairs(pairs_for(seq, k))
    }

    /// The subject-major arrays of slot `k`, none where the slot is not in
    /// use.
    pub open spec fn so_at(&self, k: int) -> Seq<[u64; 2]> {
        if 0 <= k < self.num_slots() {
            self.chunks()[k].so_view()
        } else {
            Seq::empty()
        }
    }

    /// The object-major arrays of slot `k`, none where the slot is not in
    /// use.
    pub open spec fn os_at(&self, k: int) -> Seq<[u64; 2]> {
        if 0 <= k < self.num_slots() {
            self.chunks()[k].os_view()
        } else {
            Seq::empty()
        }
    }

    /// Replaces the identifier `res` by `prop` wherever it occurs as a
    /// subject or as an object.
    pub fn res_to_prop(&mut self, res: u64, prop: u32)
        requires
            old(self).wf(),
        ensures
            final(self).wf(),
            final(self).num_slots() == old(self).num_slots(),
            final(self).raw_len() == old(self).raw_len(),
            forall|i: int|
                0 <= i < old(self).num_slots() ==> (#[trigger] final(self).chunks()[i]).pairs()
                    == renamed_pairs(old(self).chunks()[i].pairs(), res, prop as u64)
                    && final(self).chunks()[i].os_pairs() == renamed_pairs(
                    old(self).chunks()[i].os_pairs(),
                    res,
                    prop as u64,
                ),
            final(self)@ == renamed_triples(old(self)@, res, prop as u64),
    {
        let mut i: usize = 0;
        while i < self.elem.len()
            invariant
                i <= self.elem.len(),
                self.chunks().len() == old(self).chunks().len(),
                self.chunks().len() <= START_INDEX,
                self.counted() == old(self).counted(),
                old(self).wf(),
                self.raw_len() == old(self).raw_len(),
                forall|q: int|
                    0 <= q < i ==> (#[trigger] self.chunks()[q]).pairs() == renamed_pairs(
                        old(self).chunks()[q].pairs(),
                        res,
                        prop as u64,
                    ) && self.chunks()[q].os_pairs() == renamed_pairs(
                        old(self).chunks()[q].os_pairs(),
                        res,
                        prop as u64,
                    ) && self.chunks()[q].consistent() && self.chunks()[q].wf(),
                forall|q: int| i <= q < self.elem.len() ==> self.chunks()[q] == old(self).chunks()[q],
            decreases self.elem.len() - i,
        {
            let ghost before = self.chunks();
            let ghost c0 = self.chunks()[i as int];
            self.elem[i].res_to_prop(res, prop as u64);
            proof {
                let c1 = self.chunks()[i as int];
                assert(self.chunks() =~= before.update(i as int, c1));
                assert(c1.so_view().len() == c1.pairs().len());
                assert(c0.so_view().len() == c0.pairs().len());
                lemma_total_update(before, i as int, c1);
                assert(c0.consistent());
                lemma_renamed_consistent(
                    c0.pairs(),
                    pairs_of(c0.os_view()),
                    res,
                    prop as u64,
                );
            }
            i += 1;
        }
        proof {
            let r = prop as u64;
            assert forall|t: (u64, u64, u64)| self@.contains(t) <==> renamed_triples(
                old(self)@,
                res,
                r,
            ).contains(t) by {
                if self@.contains(t) {
                    let q = slot_of(t.1);
                    let c1 = self.chunks()[q];
                    let c0 = old(self).chunks()[q];
                    assert(c1.pairs().contains((t.0, t.2)));
                    let m = choose|m: int| 0 <= m < c1.pairs().len() && c1.pairs()[m] == (t.0, t.2);
                    let u = (c0.pairs()[m].0, t.1, c0.pairs()[m].1);
                    assert(c0.relation().contains(c0.pairs()[m]));
                    assert(old(self)@.contains(u));
                    assert(t == renamed_triple(u, res, r));
                }
                if renamed_triples(old(self)@, res, r).contains(t) {
                    let u = choose|u: (u64, u64, u64)|
                        #[trigger] old(self)@.contains(u) && t == renamed_triple(u, res, r);
                    let q = slot_of(u.1);
                    let c1 = self.chunks()[q];
                    let c0 = old(self).chunks()[q];
                    assert(c0.pairs().contains((u.0, u.2)));
                    let m = choose|m: int| 0 <= m < c0.pairs().len() && c0.pairs()[m] == (u.0, u.2);
                    assert(c1.pairs()[m] == (t.0, t.2));
                    assert(c1.relation().contains((t.0, t.2)));
                }
            }
            assert(self@ =~= renamed_triples(old(self)@, res, r));
        }
    }

    /// The least and the greatest identifier among the stored subjects and
    /// objects, and the number of values from one to the other. On a store
    /// without triples the bounds are `(u64::MAX, 0)`; where the range is
    /// empty or too wide to be counted in `usize`, the width is 0.
    pub fn width(&self) -> (r: (u64, u64, usize))
        requires
            self.wf(),
        ensures
            forall|v: u64| self.mentions(v) ==> r.0 <= v <= r.1,
            self@ != Set::<(u64, u64, u64)>::empty() ==> self.mentions(r.0) && self.mentions(r.1),
            self@ == Set::<(u64, u64, u64)>::empty() ==> r.0 == u64::MAX && r.1 == 0,
            r.2 == span(r.0, r.1),
    {
        let mut min: u64 = u64::MAX;
        let mut max: u64 = 0;
        let ghost mut seen = false;
        let mut i: usize = 0;
        while i < self.elem.len()
            invariant
                i <= self.elem.len(),
                self.wf(),
                forall|q: int, m: int|
                    0 <= q < i && 0 <= m < self.chunks()[q].pairs().len() ==> min <= (
                    #[trigger] self.chunks()[q].pairs()[m]).0 <= max && min
                        <= self.chunks()[q].pairs()[m].1 <= max,
                seen ==> self.mentions(min) && self.mentions(max),
                !seen ==> min == u64::MAX && max == 0 && forall|q: int|
                    0 <= q < i ==> (#[trigger] self.chunks()[q]).pairs().len() == 0,
            decreases self.elem.len() - i,
        {
            let pairs = self.elem[i].so();
            let (lo, hi) = value_bounds(pairs, min, max);
            proof {
                let c = self.chunks()[i as int];
                assert(c.pairs().len() == pairs.len());
                if pairs.len() > 0 {
                    let a = if lo != min {
                        choose|m: int|
                            0 <= m < pairs.len() && ((#[trigger] pairs@[m])[0] == lo || pairs@[m][1]
                                == lo)
                    } else {
                        0
                    };
                    let b = if hi != max {
                        choose|m: int|
                            0 <= m < pairs.len() && ((#[trigger] pairs@[m])[0] == hi || pairs@[m][1]
                                == hi)
                    } else {
                        0
                    };
                    assert(lo <= pairs@[0][0] <= hi);
                    assert(c.pairs()[a] == pair_of(pairs@[a]));
                    assert(c.relation().contains(c.pairs()[a]));
                    assert(self@.contains((pairs@[a][0], property_at(i as int), pairs@[a][1])));
                    assert(c.pairs()[b] == pair_of(pairs@[b]));
                    assert(c.relation().contains(c.pairs()[b]));
                    assert(self@.contains((pairs@[b][0], property_at(i as int), pairs@[b][1])));
                    assert(self.mentions(lo));
                    assert(self.mentions(hi));
                    seen = true;
                }
                assert forall|q: int, m: int|
                    0 <= q < i + 1 && 0 <= m < self.chunks()[q].pairs().len() implies lo <= (
                #[trigger] self.chunks()[q].pairs()[m]).0 <= hi && lo
                    <= self.chunks()[q].pairs()[m].1 <= hi by {
                    if q == i {
                        assert(c.pairs()[m] == pair_of(pairs@[m]));
                    }
                }
            }
            min = lo;
            max = hi;
            i += 1;
        }
        proof {
            assert forall|v: u64| self.mentions(v) implies min <= v <= max by {
                let t = choose|t: (u64, u64, u64)|
                    #[trigger] self@.contains(t) && (t.0 == v || t.2 == v);
                let c = self.chunks()[slot_of(t.1)];
                assert(c.pairs().contains((t.0, t.2)));
                let m = choose|m: int| 0 <= m < c.pairs().len() && c.pairs()[m] == (t.0, t.2);
                assert(min <= self.chunks()[slot_of(t.1)].pairs()[m].0 <= max);
            }
            if !seen {
                assert forall|t: (u64, u64, u64)| !self@.contains(t) by {
                    if self@.contains(t) {
                        let c = self.chunks()[slot_of(t.1)];
                        assert(c.pairs().contains((t.0, t.2)));
                    }
                }
                assert(self@ =~= Set::<(u64, u64, u64)>::empty());
            } else {
                let t = choose|t: (u64, u64, u64)|
                    #[trigger] self@.contains(t) && (t.0 == min || t.2 == min);
                assert(self@.contains(t));
            }
        }
        let width = if min <= max && max - min < usize::MAX as u64 {
            (max - min + 1) as usize
        } else {
            0
        };
        (min, max, width)
    }

    /// The number of stored pairs, held at `usize::MAX` if it goes beyond.
    fn recount(&self) -> (n: usize)
        ensures
            n == clip(self.raw_len()),
    {
        let mut n: usize = 0;
        let mut i: usize = 0;
        while i < self.elem.len()
            invariant
                i <= self.elem.len(),
                n == clip(total_pairs(self.chunks().take(i as int))),
            decreases self.elem.len() - i,
        {
            let len = self.elem[i].so().len();
            proof {
                assert(self.chunks().take(i + 1).drop_last() =~= self.chunks().take(i as int));
            }
            n = if len <= usize::MAX - n {
                n + len
            } else {
                usize::MAX
            };
            i += 1;
        }
        proof {
            assert(self.chunks().take(i as int) =~= self.chunks());
        }
        n
    }

    /// Sorts every chunk and drops duplicate pairs; returns the number of
    /// triples, which `size` reports from then on. No chunk's sort touches
    /// another chunk, so the chunks are sorted in parallel, each by the
    /// bucket sorter over the range of the stored identifiers. Where that
    /// range is too wide for a histogram, or the store holds no pair, the
    /// chunks are sorted one after the other without one. The object-major
    /// pairs of every chunk are left stale.
    pub fn sort(&mut self) -> (count: usize)
        requires
            old(self).wf(),
        ensures
            final(self).wf(),
            final(self).is_sorted(),
            final(self)@ == old(self)@,
            final(self).num_slots() == old(self).num_slots(),
            final(self)@.finite(),
            count == clip(final(self)@.len()),
            count == final(self).counted(),
            forall|i: int|
                0 <= i < old(self).num_slots() ==> (#[trigger] final(self).chunks()[i]).is_so_sort_of(
                    old(self).chunks()[i],
                ),
    {
        let ghost before = *self;
        let (min, max, width) = self.width();
        if width > 0 {
            proof {
                assert forall|i: int| 0 <= i < self.elem@.len() implies (
                #[trigger] self.elem@[i]).can_so_sort(min, max, width) by {
                    let c = self.elem@[i];
                    if c.so_view().len() > 0 {
                        assert forall|m: int| 0 <= m < c.so_view().len() implies min <= (
                        #[trigger] c.so_view()[m])[0] <= max by {
                            assert(c.pairs()[m] == pair_of(c.so_view()[m]));
                            assert(c.relation().contains(c.pairs()[m]));
                            let t = (c.so_view()[m][0], property_at(i), c.so_view()[m][1]);
                            assert(self@.contains(t));
                            assert(self.mentions(t.0));
                        }
                    }
                }
            }
            sort_chunks(&mut self.elem, min, max, width);
        } else {
            sort_chunks_unranged(&mut self.elem);
        }
        self.size = self.recount();
        proof {
            assert forall|i: int| 0 <= i < self.chunks().len() implies (
            #[trigger] self.chunks()[i]).consistent() && self.chunks()[i].wf()
                && strictly_sorted(self.chunks()[i].pairs()) by {
                assert(self.chunks()[i].is_so_sort_of(before.chunks()[i]));
                assert(before.chunks()[i].consistent());
            }
            assert forall|t: (u64, u64, u64)| self@.contains(t) <==> before@.contains(t) by {
                if is_property(t.1) && slot_of(t.1) < self.chunks().len() {
                    assert(self.chunks()[slot_of(t.1)].is_so_sort_of(before.chunks()[slot_of(t.1)]));
                }
            }
            assert(self@ =~= before@);
            lemma_sorted_len(self.chunks());
        }
        self.size
    }

    /// Adds the triple `[subject, predicate, object]`; the slot of the
    /// predicate comes into use if it was not.
    pub fn add_triple(&mut self, triple: [u64; 3])
        requires
            old(self).wf(),
            is_property(triple[1]),
        ensures
            final(self).wf(),
            final(self)@ == old(self)@.insert((triple[0], triple[1], triple[2])),
            final(self).raw_len() == old(self).raw_len() + 1,
            final(self).num_slots() == if slot_of(triple[1]) < old(self).num_slots() {
                old(self).num_slots()
            } else {
                (slot_of(triple[1]) + 1) as nat
            },
            final(self).chunks()[slot_of(triple[1])].so_view() == old(self).so_at(
                slot_of(triple[1]),
            ).push([triple[0], triple[2]]),
            final(self).chunks()[slot_of(triple[1])].os_view() == old(self).os_at(
                slot_of(triple[1]),
            ).push([triple[2], triple[0]]),
            forall|j: int|
                0 <= j < final(self).num_slots() && j != slot_of(triple[1]) ==> (
                #[trigger] final(self).chunks()[j]).so_view() == old(self).so_at(j) && final(self).chunks()[j].os_view() == old(self).os_at(j),
            forall|j: int|
                0 <= j < old(self).num_slots() && j != slot_of(triple[1]) ==> #[trigger] final(self).chunks()[j] == old(self).chunks()[j],
            forall|seq: Seq<(u64, u64, u64)>| #[trigger]
                old(self).lists(seq) ==> final(self).lists(
                    seq.push((triple[0], triple[1], triple[2])),
                ),
    {
        let ip_to_store = property_to_slot(triple[1]);
        if ip_to_store >= self.elem.len() {
            self.grow(ip_to_store + 1);
        }
        self.add_triple_raw(triple[0], ip_to_store, triple[2]);
        proof {
            let t = (triple[0], triple[1], triple[2]);
            let k = slot_of(triple[1]);
            assert(self.chunks()[k].pairs() =~= pairs_of(old(self).so_at(k)).push((t.0, t.2)));
            assert(self.chunks()[k].os_pairs() =~= pairs_of(old(self).os_at(k)).push((t.2, t.0)));
            assert forall|seq: Seq<(u64, u64, u64)>| #[trigger] old(self).lists(seq) implies self.lists(
                seq.push(t),
            ) by {
                let next = seq.push(t);
                assert(next.drop_last() =~= seq);
                assert forall|j: int| 0 <= j < self.num_slots() implies (
                #[trigger] self.chunks()[j]).pairs() == pairs_for(next, j)
                    && self.chunks()[j].os_pairs() == swapped_pairs(pairs_for(next, j)) by {
                    if j >= old(self).num_slots() {
                        lemma_pairs_for_beyond(seq, j);
                    } else {
                        assert(old(self).chunks()[j].pairs() == pairs_for(seq, j));
                    }
                    if j == k {
                        assert(swapped_pairs(pairs_for(next, j)) =~= swapped_pairs(
                            pairs_for(seq, j),
                        ).push((t.2, t.0)));
                        assert(pairs_of(old(self).os_at(j)) =~= swapped_pairs(pairs_for(seq, j)));
                        assert(pairs_of(old(self).so_at(j)) =~= pairs_for(seq, j));
                    } else {
                        assert(self.chunks()[j].so_view() == old(self).so_at(j));
                        assert(self.chunks()[j].pairs() =~= pairs_for(seq, j));
                        assert(self.chunks()[j].os_pairs() =~= swapped_pairs(pairs_for(seq, j)));
                    }
                }
            }
        }
    }
}

/// Replacing one chunk changes the total by the difference of the lengths.
proof fn lemma_total_update(chunks: Seq<Chunk>, i: int, c: Chunk)
    requires
        0 <= i < chunks.len(),
    ensures
        total_pairs(chunks.update(i, c)) == total_pairs(chunks) - chunks[i].so_view().len()
            + c.so_view().len(),
    decreases chunks.len(),
{
    let next = chunks.update(i, c);
    if i == chunks.len() - 1 {
        assert(next.drop_last() =~= chunks.drop_last());
    } else {
        assert(next.drop_last() =~= chunks.drop_last().update(i, c));
        lemma_total_update(chunks.drop_last(), i, c);
    }
}

/// The triples held once the triples of `seq` have been inserted, one after
/// the other, into a store that held `ts`.
pub open spec fn inserted(ts: Set<(u64, u64, u64)>, seq: Seq<(u64, u64, u64)>) -> Set<
    (u64, u64, u64),
>
    decreases seq.len(),
{
    if seq.len() == 0 {
        ts
    } else {
        inserted(ts, seq.drop_last()).insert(seq.last())
    }
}

/// Whatever is inserted into an empty store, in whatever order and however
/// often, the store holds each of the triples once: its triples are the
/// distinct triples of the sequence, and that many are counted after the
/// next sort.
pub proof fn lemma_inserted_distinct(seq: Seq<(u64, u64, u64)>)
    ensures
        inserted(Set::empty(), seq) == seq.to_set(),
        inserted(Set::empty(), seq).finite(),
        inserted(Set::empty(), seq).len() <= seq.len(),
        seq.no_duplicates() ==> inserted(Set::empty(), seq).len() == seq.len(),
    decreases seq.len(),
{
    if seq.len() == 0 {
        assert(seq.to_set() =~= Set::<(u64, u64, u64)>::empty());
    } else {
        lemma_inserted_distinct(seq.drop_last());
        seq.drop_last().lemma_push_to_set_commute(seq.last());
        assert(seq =~= seq.drop_last().push(seq.last()));
    }
    vstd::seq_lib::seq_to_set_is_finite(seq);
    seq.lemma_cardinality_of_set();
    if seq.no_duplicates() {
        seq.unique_seq_to_set();
    }
}

/// One more chunk adds the triples of its slot.
pub proof fn lemma_triples_push(chunks: Seq<Chunk>, c: Chunk)
    requires
        chunks.len() < START_INDEX,
    ensures
        triples_of(chunks.push(c)) == triples_of(chunks) + lifted(c.relation(), chunks.len() as int),
        triples_of(chunks).disjoint(lifted(c.relation(), chunks.len() as int)),
{
    let next = chunks.push(c);
    assert forall|t: (u64, u64, u64)| triples_of(next).contains(t) <==> (triples_of(chunks)
        + lifted(c.relation(), chunks.len() as int)).contains(t) by {
        if is_property(t.1) && slot_of(t.1) < chunks.len() {
            assert(next[slot_of(t.1)] == chunks[slot_of(t.1)]);
        }
    }
    assert(triples_of(next) =~= triples_of(chunks) + lifted(c.relation(), chunks.len() as int));
}

/// A relation kept in one slot stands for as many triples as it has pairs.
proof fn lemma_lifted_len(r: Set<(u64, u64)>, slot: int)
    requires
        r.finite(),
    ensures
        lifted(r, slot).finite(),
        lifted(r, slot).len() == r.len(),
{
    let f = |p: (u64, u64)| (p.0, property_at(slot), p.1);
    assert(vstd::relations::injective_on(f, r));
    assert forall|t: (u64, u64, u64)| r.map(f).contains(t) <==> lifted(r, slot).contains(t) by {
        if lifted(r, slot).contains(t) {
            assert(r.contains((t.0, t.2)) && f((t.0, t.2)) == t);
        }
    }
    assert(r.map(f) =~= lifted(r, slot));
    vstd::set_lib::lemma_map_size(r, lifted(r, slot), f);
}

/// Sorted chunks stand for as many triples as they hold pairs.
pub proof fn lemma_sorted_len(chunks: Seq<Chunk>)
    requires
        chunks.len() <= START_INDEX,
        forall|i: int| 0 <= i < chunks.len() ==> strictly_sorted((#[trigger] chunks[i]).pairs()),
    ensures
        triples_of(chunks).finite(),
        triples_of(chunks).len() == total_pairs(chunks),
    decreases chunks.len(),
{
    if chunks.len() == 0 {
        assert(triples_of(chunks) =~= Set::<(u64, u64, u64)>::empty());
    } else {
        let front = chunks.drop_last();
        let c = chunks.last();
        assert(chunks =~= front.push(c));
        assert forall|i: int| 0 <= i < front.len() implies strictly_sorted(
            (#[trigger] front[i]).pairs(),
        ) by {
            assert(front[i] == chunks[i]);
        }
        lemma_sorted_len(front);
        lemma_triples_push(front, c);
        crate::inferray::pairs::lemma_strictly_sorted_no_duplicates(c.pairs());
        c.pairs().unique_seq_to_set();
        vstd::seq_lib::seq_to_set_is_finite(c.pairs());
        lemma_lifted_len(c.relation(), front.len() as int);
        vstd::set_lib::lemma_set_disjoint_lens(
            triples_of(front),
            lifted(c.relation(), front.len() as int),
        );
    }
}

/// The number of values from `min` to `max`, or 0 where there is none or
/// where `usize` cannot hold the number.
pub open spec fn span(min: u64, max: u64) -> usize {
    if min <= max && max - min < usize::MAX {
        (max - min + 1) as usize
    } else {
        0
    }
}

/// Widens `[min, max]` to take in both components of every pair.
fn value_bounds(pairs: &Vec<[u64; 2]>, min: u64, max: u64) -> (r: (u64, u64))
    ensures
        r.0 <= min,
        max <= r.1,
        forall|m: int|
            0 <= m < pairs.len() ==> r.0 <= (#[trigger] pairs@[m])[0] <= r.1 && r.0 <= pairs@[m][1]
                <= r.1,
        r.0 == min || exists|m: int|
            0 <= m < pairs.len() && ((#[trigger] pairs@[m])[0] == r.0 || pairs@[m][1] == r.0),
        r.1 == max || exists|m: int|
            0 <= m < pairs.len() && ((#[trigger] pairs@[m])[0] == r.1 || pairs@[m][1] == r.1),
{
    let mut lo = min;
    let mut hi = max;
    let mut k: usize = 0;
    while k < pairs.len()
        invariant
            k <= pairs.len(),
            lo <= min,
            max <= hi,
            forall|m: int|
                0 <= m < k ==> lo <= (#[trigger] pairs@[m])[0] <= hi && lo <= pairs@[m][1] <= hi,
            lo == min || exists|m: int|
                0 <= m < k && ((#[trigger] pairs@[m])[0] == lo || pairs@[m][1] == lo),
            hi == max || exists|m: int|
                0 <= m < k && ((#[trigger] pairs@[m])[0] == hi || pairs@[m][1] == hi),
        decreases pairs.len() - k,
    {
        let s = pairs[k][0];
        let o = pairs[k][1];
        if s < lo {
            lo = s;
        }
        if o < lo {
            lo = o;
        }
        if s > hi {
            hi = s;
        }
        if o > hi {
            hi = o;
        }
        k += 1;
    }
    (lo, hi)
}

/// Runs `Chunk::so_sort_unranged` on every chunk, one after the other.
fn sort_chunks_unranged(chunks: &mut Vec<Chunk>)
    ensures
        final(chunks)@.len() == old(chunks)@.len(),
        forall|i: int|
            0 <= i < old(chunks)@.len() ==> (#[trigger] final(chunks)@[i]).is_so_sort_of(
                old(chunks)@[i],
            ),
{
    let mut k: usize = 0;
    while k < chunks.len()
        invariant
            k <= chunks.len(),
            chunks@.len() == old(chunks)@.len(),
            forall|i: int| 0 <= i < k ==> (#[trigger] chunks@[i]).is_so_sort_of(old(chunks)@[i]),
            forall|i: int| k <= i < chunks.len() ==> chunks@[i] == old(chunks)@[i],
        decreases chunks.len() - k,
    {
        let ghost held = chunks@;
        chunks[k].so_sort_unranged();
        proof {
            assert forall|i: int| 0 <= i < k + 1 implies (#[trigger] chunks@[i]).is_so_sort_of(
                old(chunks)@[i],
            ) by {
                if i < k {
                    assert(chunks@[i] == held[i]);
                }
            }
        }
        k += 1;
    }
}

/// Fresh working space for one worker of the sort: three empty buffers.
fn sort_buffers() -> (buffers: (Vec<usize>, Vec<usize>, Vec<usize>))
    ensures
        buffers.0@ == Seq::<usize>::empty(),
        buffers.1@ == Seq::<usize>::empty(),
        buffers.2@ == Seq::<usize>::empty(),
{
    (Vec::new(), Vec::new(), Vec::new())
}

/// Runs `Chunk::so_sort` on every chunk through rayon's
/// `par_iter_mut().for_each_init(..)`, which hands each element of the vector
/// to the closure exactly once, each worker with buffers of its own, and
/// returns when all are done. The contract claims just that: every chunk is
/// what `so_sort` makes of it, and the vector keeps its length.
#[verifier::external_body]
fn sort_chunks(chunks: &mut Vec<Chunk>, min: u64, max: u64, width: usize)
    requires
        forall|i: int|
            0 <= i < old(chunks)@.len() ==> (#[trigger] old(chunks)@[i]).can_so_sort(min, max, width),
    ensures
        final(chunks)@.len() == old(chunks)@.len(),
        forall|i: int|
            0 <= i < old(chunks)@.len() ==> (#[trigger] final(chunks)@[i]).is_so_sort_of(
                old(chunks)@[i],
            ),
{
    chunks.par_iter_mut().for_each_init(
        sort_buffers,
        |buffers, chunk| {
            chunk.so_sort(&mut buffers.0, &mut buffers.1, &mut buffers.2, min, max, width);
        },
    );
}

/// The triple with `res` replaced by `prop` as subject and as object.
pub open spec fn renamed_triple(t: (u64, u64, u64), res: u64, prop: u64) -> (u64, u64, u64) {
    (renamed(t.0, res, prop), t.1, renamed(t.2, res, prop))
}

/// The triples of `ts` with `res` replaced by `prop` as subject and as object.
pub open spec fn renamed_triples(ts: Set<(u64, u64, u64)>, res: u64, prop: u64) -> Set<
    (u64, u64, u64),
> {
    Set::new(
        |t: (u64, u64, u64)|
            exists|u: (u64, u64, u64)| #[trigger] ts.contains(u) && t == renamed_triple(u, res, prop),
    )
}

/// Renaming both representations keeps them in step.
proof fn lemma_renamed_consistent(so: Seq<(u64, u64)>, os: Seq<(u64, u64)>, res: u64, prop: u64)
    requires
        os.to_set() == transposed(so.to_set()),
    ensures
        renamed_pairs(os, res, prop).to_set() == transposed(renamed_pairs(so, res, prop).to_set()),
{
    let so1 = renamed_pairs(so, res, prop);
    let os1 = renamed_pairs(os, res, prop);
    assert forall|x: (u64, u64)| os1.to_set().contains(x) <==> transposed(so1.to_set()).contains(
        x,
    ) by {
        if os1.to_set().contains(x) {
            let m = choose|m: int| 0 <= m < os1.len() && os1[m] == x;
            assert(os.to_set().contains(os[m]));
            assert(so.contains((os[m].1, os[m].0)));
            let n = choose|n: int| 0 <= n < so.len() && so[n] == (os[m].1, os[m].0);
            assert(so1[n] == (x.1, x.0));
        }
        if transposed(so1.to_set()).contains(x) {
            assert(so1.contains((x.1, x.0)));
            let n = choose|n: int| 0 <= n < so1.len() && so1[n] == (x.1, x.0);
            assert(so.to_set().contains(so[n]));
            assert(transposed(so.to_set()).contains((so[n].1, so[n].0)));
            assert(os.contains((so[n].1, so[n].0)));
            let m = choose|m: int| 0 <= m < os.len() && os[m] == (so[n].1, so[n].0);
            assert(os1[m] == x);
        }
    }
    assert(os1.to_set() =~= transposed(so1.to_set()));
}


/// The triple has the subject, the predicate and the object that the
/// pattern names.
pub open spec fn triple_matches(
    t: (u64, u64, u64),
    s: Option<u64>,
    p: Option<u64>,
    o: Option<u64>,
) -> bool {
    &&& s is Some ==> t.0 == s->0
    &&& p is Some ==> t.1 == p->0
    &&& o is Some ==> t.2 == o->0
}

/// The triples that a sequence of stored arrays stands for, in the same
/// order.
pub open spec fn triples_in(s: Seq<[u64; 3]>) -> Seq<(u64, u64, u64)> {
    Seq::new(s.len(), |i: int| (s[i][0], s[i][1], s[i][2]))
}

/// The number of slots that the triples of `seq` need: one more than the
/// highest slot among their predicates, none for no triple.
pub open spec fn slots_for(seq: Seq<(u64, u64, u64)>) -> int
    decreases seq.len(),
{
    if seq.len() == 0 {
        0
    } else if slot_of(seq.last().1) + 1 > slots_for(seq.drop_last()) {
        slot_of(seq.last().1) + 1
    } else {
        slots_for(seq.drop_last())
    }
}

/// The `(subject, object)` pairs of the triples of `seq` whose predicate
/// has slot `slot`, in the order of `seq`.
pub open spec fn pairs_for(seq: Seq<(u64, u64, u64)>, slot: int) -> Seq<(u64, u64)>
    decreases seq.len(),
{
    if seq.len() == 0 {
        Seq::empty()
    } else if slot_of(seq.last().1) == slot {
        pairs_for(seq.drop_last(), slot).push((seq.last().0, seq.last().2))
    } else {
        pairs_for(seq.drop_last(), slot)
    }
}

/// A slot beyond those that the triples need has none of their pairs.
pub proof fn lemma_pairs_for_beyond(seq: Seq<(u64, u64, u64)>, slot: int)
    requires
        slot >= slots_for(seq),
    ensures
        pairs_for(seq, slot) == Seq::<(u64, u64)>::empty(),
    decreases seq.len(),
{
    if seq.len() > 0 {
        lemma_pairs_for_beyond(seq.drop_last(), slot);
    }
}

/// What two sequences of triples need and list, one after the other, is
/// what each needs and lists.
pub proof fn lemma_for_concat(a: Seq<(u64, u64, u64)>, b: Seq<(u64, u64, u64)>, slot: int)
    ensures
        pairs_for(a + b, slot) == pairs_for(a, slot) + pairs_for(b, slot),
        slots_for(a + b) == if slots_for(a) > slots_for(b) {
            slots_for(a)
        } else {
            slots_for(b)
        },
        slots_for(a) >= 0,
    decreases b.len(),
{
    lemma_slots_for_nonnegative(a);
    lemma_slots_for_nonnegative(b);
    if b.len() == 0 {
        assert(a + b =~= a);
        assert(pairs_for(a, slot) + pairs_for(b, slot) =~= pairs_for(a, slot));
    } else {
        lemma_for_concat(a, b.drop_last(), slot);
        assert((a + b).drop_last() =~= a + b.drop_last());
        assert((a + b).last() == b.last());
        assert(pairs_for(a + b, slot) =~= pairs_for(a, slot) + pairs_for(b, slot));
    }
}

/// No sequence of triples needs fewer than no slots.
pub proof fn lemma_slots_for_nonnegative(seq: Seq<(u64, u64, u64)>)
    ensures
        slots_for(seq) >= 0,
    decreases seq.len(),
{
    if seq.len() > 0 {
        lemma_slots_for_nonnegative(seq.drop_last());
    }
}

/// The pairs of `pairs` that match the pattern, in the same order.
pub open spec fn kept(pairs: Seq<(u64, u64)>, s: Option<u64>, o: Option<u64>) -> Seq<(u64, u64)>
    decreases pairs.len(),
{
    if pairs.len() == 0 {
        Seq::empty()
    } else if pair_matches(pairs.last(), s, o) {
        kept(pairs.drop_last(), s, o).push(pairs.last())
    } else {
        kept(pairs.drop_last(), s, o)
    }
}

/// The triples that the pairs stand for when kept in slot `slot`, in the
/// same order.
pub open spec fn lifted_seq(pairs: Seq<(u64, u64)>, slot: int) -> Seq<(u64, u64, u64)> {
    Seq::new(pairs.len(), |i: int| (pairs[i].0, property_at(slot), pairs[i].1))
}

/// The triples of the chunks, chunk after chunk, the pairs of each chunk in
/// stored order.
pub open spec fn listing(chunks: Seq<Chunk>) -> Seq<(u64, u64, u64)>
    decreases chunks.len(),
{
    if chunks.len() == 0 {
        Seq::empty()
    } else {
        listing(chunks.drop_last()) + lifted_seq(chunks.last().pairs(), chunks.len() - 1)
    }
}

/// The matching triples of the chunks, chunk after chunk, the matching
/// pairs of each chunk in stored order.
pub open spec fn matched_in(chunks: Seq<Chunk>, s: Option<u64>, o: Option<u64>) -> Seq<
    (u64, u64, u64),
>
    decreases chunks.len(),
{
    if chunks.len() == 0 {
        Seq::empty()
    } else {
        matched_in(chunks.drop_last(), s, o) + lifted_seq(
            kept(chunks.last().pairs(), s, o),
            chunks.len() - 1,
        )
    }
}

/// What is kept of strictly ascending pairs is strictly ascending, and it
/// is just the matching pairs.
pub proof fn lemma_kept(pairs: Seq<(u64, u64)>, s: Option<u64>, o: Option<u64>)
    requires
        strictly_sorted(pairs),
    ensures
        strictly_sorted(kept(pairs, s, o)),
        kept(pairs, s, o).to_set() == pairs.to_set().filter(|p: (u64, u64)| pair_matches(p, s, o)),
        forall|m: int|
            0 <= m < kept(pairs, s, o).len() ==> pairs.contains(#[trigger] kept(pairs, s, o)[m]),
    decreases pairs.len(),
{
    let all = kept(pairs, s, o);
    let wanted = pairs.to_set().filter(|p: (u64, u64)| pair_matches(p, s, o));
    if pairs.len() == 0 {
        assert(all.to_set() =~= wanted);
    } else {
        let front = pairs.drop_last();
        let rest = kept(front, s, o);
        assert forall|a: int, b: int| 0 <= a < b < front.len() implies pair_lt(
            #[trigger] front[a],
            #[trigger] front[b],
        ) by {
            assert(pair_lt(pairs[a], pairs[b]));
        }
        lemma_kept(front, s, o);
        assert forall|m: int| 0 <= m < all.len() implies pairs.contains(#[trigger] all[m]) by {
            if m < rest.len() {
                assert(front.contains(rest[m]));
                let w = choose|w: int| 0 <= w < front.len() && front[w] == rest[m];
                assert(pairs[w] == all[m]);
            } else {
                assert(pairs[pairs.len() - 1] == all[m]);
            }
        }
        assert forall|a: int, b: int| 0 <= a < b < all.len() implies pair_lt(
            #[trigger] all[a],
            #[trigger] all[b],
        ) by {
            if b < rest.len() {
                assert(pair_lt(rest[a], rest[b]));
            } else {
                assert(front.contains(rest[a]));
                let w = choose|w: int| 0 <= w < front.len() && front[w] == rest[a];
                assert(pair_lt(pairs[w], pairs[pairs.len() - 1]));
            }
        }
        assert forall|x: (u64, u64)| all.to_set().contains(x) <==> wanted.contains(x) by {
            if all.to_set().contains(x) {
                let m = choose|m: int| 0 <= m < all.len() && all[m] == x;
                assert(pairs.contains(all[m]));
                if m < rest.len() {
                    assert(rest.to_set().contains(rest[m]));
                }
            }
            if wanted.contains(x) {
                let w = choose|w: int| 0 <= w < pairs.len() && pairs[w] == x;
                if w < front.len() {
                    assert(front[w] == x);
                    assert(front.to_set().contains(x));
                    assert(rest.to_set().contains(x));
                    let m = choose|m: int| 0 <= m < rest.len() && rest[m] == x;
                    assert(all[m] == x);
                } else {
                    assert(all[all.len() - 1] == x);
                }
            }
        }
        assert(all.to_set() =~= wanted);
    }
}

/// The pairs with their components exchanged, in the same order.
pub open spec fn swapped_pairs(s: Seq<(u64, u64)>) -> Seq<(u64, u64)> {
    Seq::new(s.len(), |i: int| swapped(s[i]))
}

/// The pair has the subject and the object that the pattern names.
pub open spec fn pair_matches(p: (u64, u64), s: Option<u64>, o: Option<u64>) -> bool {
    &&& s is Some ==> p.0 == s->0
    &&& o is Some ==> p.1 == o->0
}

/// The first position of `pairs` whose first component is not below `key`.
fn lower_bound(pairs: &Vec<[u64; 2]>, key: u64) -> (at: usize)
    requires
        strictly_sorted(pairs_of(pairs@)),
    ensures
        at <= pairs.len(),
        forall|k: int| 0 <= k < at ==> (#[trigger] pairs@[k])[0] < key,
        forall|k: int| at <= k < pairs.len() ==> (#[trigger] pairs@[k])[0] >= key,
{
    let mut lo: usize = 0;
    let mut hi: usize = pairs.len();
    while lo < hi
        invariant
            lo <= hi <= pairs.len(),
            strictly_sorted(pairs_of(pairs@)),
            forall|k: int| 0 <= k < lo ==> (#[trigger] pairs@[k])[0] < key,
            forall|k: int| hi <= k < pairs.len() ==> (#[trigger] pairs@[k])[0] >= key,
        decreases hi - lo,
    {
        let mid = lo + (hi - lo) / 2;
        if pairs[mid][0] < key {
            proof {
                assert forall|k: int| 0 <= k < mid + 1 implies (#[trigger] pairs@[k])[0] < key by {
                    if k < mid {
                        assert(pair_lt(pairs_of(pairs@)[k], pairs_of(pairs@)[mid as int]));
                    }
                }
            }
            lo = mid + 1;
        } else {
            proof {
                assert forall|k: int| mid <= k < pairs.len() implies (#[trigger] pairs@[k])[0]
                    >= key by {
                    if k > mid {
                        assert(pair_lt(pairs_of(pairs@)[mid as int], pairs_of(pairs@)[k]));
                    }
                }
            }
            hi = mid;
        }
    }
    lo
}

/// The pairs of `pairs` whose first component is `key` and whose second
/// component is `second`, if one is named; in the order of `pairs`.
fn run_of(pairs: &Vec<[u64; 2]>, key: u64, second: Option<u64>) -> (out: Vec<[u64; 2]>)
    requires
        strictly_sorted(pairs_of(pairs@)),
    ensures
        strictly_sorted(pairs_of(out@)),
        pairs_of(out@).to_set() == pairs_of(pairs@).to_set().filter(
            |p: (u64, u64)| pair_matches(p, Some(key), second),
        ),
{
    let ghost all = pairs_of(pairs@);
    let ghost wanted = all.to_set().filter(|p: (u64, u64)| pair_matches(p, Some(key), second));
    let start = lower_bound(pairs, key);
    let mut out: Vec<[u64; 2]> = Vec::new();
    let mut k = start;
    while k < pairs.len() && pairs[k][0] == key
        invariant
            start <= k <= pairs.len(),
            all == pairs_of(pairs@),
            strictly_sorted(all),
            forall|m: int| 0 <= m < start ==> (#[trigger] pairs@[m])[0] < key,
            forall|m: int| start <= m < pairs.len() ==> (#[trigger] pairs@[m])[0] >= key,
            forall|m: int| start <= m < k ==> (#[trigger] pairs@[m])[0] == key,
            strictly_sorted(pairs_of(out@)),
            forall|m: int|
                0 <= m < out.len() ==> all.contains(#[trigger] pairs_of(out@)[m]) && pair_matches(
                    pairs_of(out@)[m],
                    Some(key),
                    second,
                ),
            forall|m: int, j: int|
                0 <= m < out.len() && k <= j < all.len() ==> pair_lt(
                    #[trigger] pairs_of(out@)[m],
                    #[trigger] all[j],
                ),
            forall|m: int|
                start <= m < k && pair_matches(all[m], Some(key), second) ==> pairs_of(
                    out@,
                ).contains(#[trigger] all[m]),
        decreases pairs.len() - k,
    {
        let pair = pairs[k];
        let keep = match second {
            Some(wanted_second) => pair[1] == wanted_second,
            None => true,
        };
        let ghost before = pairs_of(out@);
        if keep {
            out.push(pair);
            proof {
                let after = pairs_of(out@);
                assert(after =~= before.push(all[k as int]));
                assert forall|a: int, b: int| 0 <= a < b < after.len() implies pair_lt(
                    #[trigger] after[a],
                    #[trigger] after[b],
                ) by {
                    if b < before.len() {
                        assert(pair_lt(before[a], before[b]));
                    } else {
                        assert(pair_lt(before[a], all[k as int]));
                    }
                }
                assert forall|m: int, j: int|
                    0 <= m < after.len() && k + 1 <= j < all.len() implies pair_lt(
                    #[trigger] after[m],
                    #[trigger] all[j],
                ) by {
                    if m < before.len() {
                        assert(pair_lt(before[m], all[j]));
                    } else {
                        assert(pair_lt(all[k as int], all[j]));
                    }
                }
                assert forall|m: int| 0 <= m < after.len() implies all.contains(
                    #[trigger] after[m],
                ) && pair_matches(after[m], Some(key), second) by {
                    if m < before.len() {
                        assert(after[m] == before[m]);
                    } else {
                        assert(all[k as int] == after[m]);
                    }
                }
                assert forall|m: int|
                    start <= m < k + 1 && pair_matches(
                        all[m],
                        Some(key),
                        second,
                    ) implies after.contains(#[trigger] all[m]) by {
                    if m < k {
                        assert(before.contains(all[m]));
                        let w = choose|w: int| 0 <= w < before.len() && before[w] == all[m];
                        assert(after[w] == all[m]);
                    } else {
                        assert(after[after.len() - 1] == all[m]);
                    }
                }
            }
        }
        k += 1;
    }
    proof {
        let found = pairs_of(out@);
        assert forall|p: (u64, u64)| found.to_set().contains(p) <==> wanted.contains(p) by {
            if found.to_set().contains(p) {
                let m = choose|m: int| 0 <= m < found.len() && found[m] == p;
                assert(all.contains(found[m]));
            }
            if wanted.contains(p) {
                let m = choose|m: int| 0 <= m < all.len() && all[m] == p;
                assert(pairs@[m][0] == key);
                if m >= k {
                    // past the run every first component is greater
                    assert(k < pairs.len());
                    if m > k {
                        assert(pair_lt(all[k as int], all[m]));
                    }
                }
                assert(found.contains(all[m]));
            }
        }
        assert(found.to_set() =~= wanted);
    }
    out
}

/// The pairs with their components exchanged, in the same order.
fn transposed_copy(pairs: &Vec<[u64; 2]>) -> (out: Vec<[u64; 2]>)
    ensures
        out.len() == pairs.len(),
        forall|m: int|
            0 <= m < pairs.len() ==> #[trigger] pairs_of(out@)[m] == swapped(pairs_of(pairs@)[m]),
{
    let mut out: Vec<[u64; 2]> = Vec::new();
    let mut k: usize = 0;
    while k < pairs.len()
        invariant
            k <= pairs.len(),
            out.len() == k,
            forall|m: int|
                0 <= m < k ==> #[trigger] pairs_of(out@)[m] == swapped(pairs_of(pairs@)[m]),
        decreases pairs.len() - k,
    {
        let ghost before = pairs_of(out@);
        out.push([pairs[k][1], pairs[k][0]]);
        proof {
            assert forall|m: int| 0 <= m < k + 1 implies #[trigger] pairs_of(out@)[m] == swapped(
                pairs_of(pairs@)[m],
            ) by {
                if m < k {
                    assert(pairs_of(out@)[m] == before[m]);
                }
            }
        }
        k += 1;
    }
    out
}

/// A copy of the pairs.
fn copied(pairs: &Vec<[u64; 2]>) -> (out: Vec<[u64; 2]>)
    ensures
        out@ == pairs@,
{
    let mut out: Vec<[u64; 2]> = Vec::new();
    let mut k: usize = 0;
    while k < pairs.len()
        invariant
            k <= pairs.len(),
            out@ == pairs@.take(k as int),
        decreases pairs.len() - k,
    {
        out.push(pairs[k]);
        proof {
            assert(out@ =~= pairs@.take(k + 1));
        }
        k += 1;
    }
    proof {
        assert(pairs@.take(k as int) =~= pairs@);
    }
    out
}

} // verus!
