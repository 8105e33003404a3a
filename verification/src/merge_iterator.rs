//! K-way merge of ordered sources with stable tie-breaking by source
//! priority: position in the input vector, index 0 highest. When several
//! sources hold the same key, one step of the merge emits the entry of the
//! lowest-indexed source holding it and skips that key in every other
//! source; a source that holds a key several times emits it several times.
//!
//! The merged stream is pinned down by the specification function `merge`
//! over the per-source entry sequences, so the output depends on nothing
//! but the sources' contents.

use vstd::pervasive::unreached;
use vstd::pervasive::VecAdditionalExecFns;
use vstd::prelude::*;

use crate::block::{entries_sorted, EntryView};
use crate::iterators::{Error, StorageIterator};
use crate::keys::{key_eq, key_lt, lemma_lex_le_lt_trans, lemma_lex_le_trans,
    lemma_lex_trichotomy, lex_le, lex_lt};

verus! {

/// Total number of entries left across all sources.
pub open spec fn total_len(srcs: Seq<Seq<EntryView>>) -> nat
    decreases srcs.len(),
{
    if srcs.len() == 0 {
        0
    } else {
        srcs[0].len() + total_len(srcs.drop_first())
    }
}

/// Some source still holds an entry.
pub open spec fn has_entries(srcs: Seq<Seq<EntryView>>) -> bool {
    exists|j: int| 0 <= j < srcs.len() && (#[trigger] srcs[j]).len() > 0
}

/// Of two non-empty sources, `i` outranks `j`: its head key is strictly
/// smaller, or the keys are equal and `i` is at most `j`.
pub open spec fn outranks(srcs: Seq<Seq<EntryView>>, i: int, j: int) -> bool {
    lex_lt(srcs[i][0].0, srcs[j][0].0) || (srcs[i][0].0 == srcs[j][0].0 && i <= j)
}

/// The index of the best non-empty source at or after `j`: smallest head
/// key, ties to the lowest index. Meaningful only when one exists.
pub open spec fn best_from(srcs: Seq<Seq<EntryView>>, j: int) -> int
    decreases srcs.len() - j,
{
    if j + 1 >= srcs.len() {
        j
    } else {
        let b = best_from(srcs, j + 1);
        if srcs[j].len() == 0 {
            b
        } else if srcs[b].len() == 0 {
            j
        } else if lex_lt(srcs[b][0].0, srcs[j][0].0) {
            b
        } else {
            j
        }
    }
}

/// `best_from` stays within `[j, srcs.len())`.
pub proof fn lemma_best_from_range(srcs: Seq<Seq<EntryView>>, j: int)
    requires
        0 <= j < srcs.len(),
    ensures
        j <= best_from(srcs, j) < srcs.len(),
    decreases srcs.len() - j,
{
    if j + 1 < srcs.len() {
        lemma_best_from_range(srcs, j + 1);
    }
}

/// When a non-empty source exists at or after `j`, `best_from` names a
/// non-empty source that outranks every non-empty source in that range.
pub proof fn lemma_best_from(srcs: Seq<Seq<EntryView>>, j: int)
    requires
        0 <= j < srcs.len(),
        exists|m: int| j <= m < srcs.len() && (#[trigger] srcs[m]).len() > 0,
    ensures
        j <= best_from(srcs, j) < srcs.len(),
        srcs[best_from(srcs, j)].len() > 0,
        forall|m: int|
            j <= m < srcs.len() && (#[trigger] srcs[m]).len() > 0 ==> outranks(
                srcs,
                best_from(srcs, j),
                m,
            ),
    decreases srcs.len() - j,
{
    lemma_best_from_range(srcs, j);
    let b = best_from(srcs, j);
    if j + 1 >= srcs.len() {
        assert(srcs[j].len() > 0);
    } else {
        let b2 = best_from(srcs, j + 1);
        lemma_best_from_range(srcs, j + 1);
        if exists|m: int| j + 1 <= m < srcs.len() && (#[trigger] srcs[m]).len() > 0 {
            lemma_best_from(srcs, j + 1);
            if srcs[j].len() == 0 {
                assert(b == b2);
                assert forall|m: int|
                    j <= m < srcs.len() && (#[trigger] srcs[m]).len() > 0 implies outranks(
                    srcs,
                    b,
                    m,
                ) by {}
            } else if lex_lt(srcs[b2][0].0, srcs[j][0].0) {
                assert(b == b2);
                assert forall|m: int|
                    j <= m < srcs.len() && (#[trigger] srcs[m]).len() > 0 implies outranks(
                    srcs,
                    b,
                    m,
                ) by {}
            } else {
                assert(b == j);
                lemma_lex_trichotomy(srcs[b2][0].0, srcs[j][0].0);
                assert forall|m: int|
                    j <= m < srcs.len() && (#[trigger] srcs[m]).len() > 0 implies outranks(
                    srcs,
                    b,
                    m,
                ) by {
                    if m > j {
                        assert(outranks(srcs, b2, m));
                        if lex_lt(srcs[b2][0].0, srcs[m][0].0) {
                            if srcs[j][0].0 == srcs[b2][0].0 {
                            } else {
                                crate::keys::lemma_lex_lt_trans(
                                    srcs[j][0].0,
                                    srcs[b2][0].0,
                                    srcs[m][0].0,
                                );
                            }
                        }
                    }
                }
            }
        } else {
            assert(srcs[j].len() > 0);
            assert(srcs[b2].len() == 0);
            assert(b == j);
        }
    }
}

/// The best source is the unique one that outranks every non-empty source.
pub proof fn lemma_best_unique(srcs: Seq<Seq<EntryView>>, i: int)
    requires
        0 <= i < srcs.len(),
        srcs[i].len() > 0,
        forall|m: int|
            0 <= m < srcs.len() && (#[trigger] srcs[m]).len() > 0 ==> outranks(srcs, i, m),
    ensures
        best_from(srcs, 0) == i,
{
    lemma_best_from(srcs, 0);
    let b = best_from(srcs, 0);
    if b != i {
        assert(outranks(srcs, b, i));
        assert(outranks(srcs, i, b));
        lemma_lex_trichotomy(srcs[b][0].0, srcs[i][0].0);
    }
}

/// Drops the leading entries whose key equals `k`.
pub open spec fn skip_key(s: Seq<EntryView>, k: Seq<u8>) -> Seq<EntryView>
    decreases s.len(),
{
    if s.len() > 0 && s[0].0 == k {
        skip_key(s.drop_first(), k)
    } else {
        s
    }
}

/// A sorted source stays sorted with its first entry dropped.
pub proof fn lemma_sorted_drop_first(s: Seq<EntryView>)
    requires
        entries_sorted(s),
        s.len() > 0,
    ensures
        entries_sorted(s.drop_first()),
{
    assert forall|i: int| 0 <= i < s.drop_first().len() - 1 implies lex_le(
        #[trigger] s.drop_first()[i].0,
        s.drop_first()[i + 1].0,
    ) by {
        assert(s.drop_first()[i] == s[i + 1]);
        assert(s.drop_first()[i + 1] == s[i + 2]);
    }
}

/// Skipping a key in a sorted source keeps it sorted, never grows it, and
/// leaves a head that differs from the key and is no smaller than the old
/// head.
pub proof fn lemma_skip_key(s: Seq<EntryView>, k: Seq<u8>)
    requires
        entries_sorted(s),
    ensures
        entries_sorted(skip_key(s, k)),
        skip_key(s, k).len() <= s.len(),
        skip_key(s, k).len() > 0 ==> skip_key(s, k)[0].0 != k,
        s.len() > 0 && skip_key(s, k).len() > 0 ==> lex_le(s[0].0, skip_key(s, k)[0].0),
    decreases s.len(),
{
    if s.len() > 0 && s[0].0 == k {
        lemma_sorted_drop_first(s);
        lemma_skip_key(s.drop_first(), k);
        if s.drop_first().len() > 0 && skip_key(s, k).len() > 0 {
            assert(s.drop_first()[0] == s[1]);
            assert(lex_le(s[0].0, s[1].0));
            lemma_lex_le_trans(s[0].0, s[1].0, skip_key(s, k)[0].0);
        }
    }
}

/// One merge step: the best source `i` loses its head; every other source
/// skips past the emitted key.
pub open spec fn merge_step(srcs: Seq<Seq<EntryView>>, i: int) -> Seq<Seq<EntryView>> {
    Seq::new(
        srcs.len(),
        |j: int|
            if j == i {
                srcs[i].drop_first()
            } else {
                skip_key(srcs[j], srcs[i][0].0)
            },
    )
}

/// Pointwise no-larger sources have a no-larger total.
pub proof fn lemma_total_len_le(a: Seq<Seq<EntryView>>, b: Seq<Seq<EntryView>>)
    requires
        a.len() == b.len(),
        forall|j: int| 0 <= j < a.len() ==> (#[trigger] a[j]).len() <= b[j].len(),
    ensures
        total_len(a) <= total_len(b),
    decreases a.len(),
{
    if a.len() > 0 {
        assert forall|j: int| 0 <= j < a.drop_first().len() implies (#[trigger] a.drop_first()[
            j
        ]).len() <= b.drop_first()[j].len() by {
            assert(a.drop_first()[j] == a[j + 1]);
            assert(b.drop_first()[j] == b[j + 1]);
        }
        lemma_total_len_le(a.drop_first(), b.drop_first());
    }
}

/// A pointwise no-larger source sequence with one strictly smaller source
/// has a strictly smaller total.
pub proof fn lemma_total_len_lt(a: Seq<Seq<EntryView>>, b: Seq<Seq<EntryView>>, i: int)
    requires
        a.len() == b.len(),
        forall|j: int| 0 <= j < a.len() ==> (#[trigger] a[j]).len() <= b[j].len(),
        0 <= i < a.len(),
        a[i].len() < b[i].len(),
    ensures
        total_len(a) < total_len(b),
    decreases a.len(),
{
    assert forall|j: int| 0 <= j < a.drop_first().len() implies (#[trigger] a.drop_first()[
        j
    ]).len() <= b.drop_first()[j].len() by {
        assert(a.drop_first()[j] == a[j + 1]);
        assert(b.drop_first()[j] == b[j + 1]);
    }
    if i == 0 {
        lemma_total_len_le(a.drop_first(), b.drop_first());
    } else {
        assert(a.drop_first()[i - 1] == a[i]);
        assert(b.drop_first()[i - 1] == b[i]);
        lemma_total_len_lt(a.drop_first(), b.drop_first(), i - 1);
    }
}

/// The merged stream of a sequence of sources: repeatedly emit the head of
/// the best source, advance it, and skip the emitted key everywhere else.
pub open spec fn merge(srcs: Seq<Seq<EntryView>>) -> Seq<EntryView>
    decreases total_len(srcs),
    via merge_decreases
{
    if has_entries(srcs) {
        let i = best_from(srcs, 0);
        seq![srcs[i][0]] + merge(merge_step(srcs, i))
    } else {
        Seq::empty()
    }
}

#[via_fn]
proof fn merge_decreases(srcs: Seq<Seq<EntryView>>) {
    if has_entries(srcs) {
        let m = choose|j: int| 0 <= j < srcs.len() && (#[trigger] srcs[j]).len() > 0;
        lemma_best_from(srcs, 0);
        let i = best_from(srcs, 0);
        let stepped = merge_step(srcs, i);
        assert forall|j: int| 0 <= j < stepped.len() implies (#[trigger] stepped[j]).len()
            <= srcs[j].len() by {
            if j != i {
                lemma_skip_key_len(srcs[j], srcs[i][0].0);
            }
        }
        lemma_total_len_lt(stepped, srcs, i);
    }
}

/// Skipping a key never grows a source, sorted or not.
pub proof fn lemma_skip_key_len(s: Seq<EntryView>, k: Seq<u8>)
    ensures
        skip_key(s, k).len() <= s.len(),
    decreases s.len(),
{
    if s.len() > 0 && s[0].0 == k {
        lemma_skip_key_len(s.drop_first(), k);
    }
}

/// One wrapped source of a merge, remembering its original position.
pub struct Source<I> {
    /// The position of this source in the input vector; lower outranks.
    pub index: usize,
    /// The underlying cursor.
    pub iter: I,
}

/// What a slot contributes: the entries of its source, or nothing.
pub open spec fn slot_entries<I: StorageIterator>(s: Option<Source<I>>) -> Seq<EntryView> {
    match s {
        Some(w) => w.iter.entries(),
        None => Seq::empty(),
    }
}

/// A slot is empty or holds a well-formed, non-exhausted, sorted source
/// registered under index `j`.
pub open spec fn slot_wf<I: StorageIterator>(s: Option<Source<I>>, j: int) -> bool {
    match s {
        Some(w) => {
            &&& w.index == j
            &&& w.iter.inv()
            &&& w.iter.entries().len() > 0
            &&& entries_sorted(w.iter.entries())
        },
        None => true,
    }
}

/// Merges multiple iterators of the same type. When the same key occurs in
/// several sources, the one with the smaller index wins.
pub struct MergeIterator<I: StorageIterator> {
    /// One slot per original source; emptied sources become `None`, and the
    /// current source's slot is `None` while it is held in `current`.
    pub slots: Vec<Option<Source<I>>>,
    /// The source holding the next entry to emit.
    pub current: Option<Source<I>>,
}

impl<I: StorageIterator> MergeIterator<I> {
    /// The number of original sources.
    pub open spec fn n(&self) -> int {
        self.slots@.len() as int
    }

    /// The remaining entries of source `j`, wherever it is held.
    pub open spec fn srcs(&self) -> Seq<Seq<EntryView>> {
        Seq::new(
            self.slots@.len(),
            |j: int|
                match self.current {
                    Some(w) => if w.index == j {
                        w.iter.entries()
                    } else {
                        slot_entries(self.slots@[j])
                    },
                    None => slot_entries(self.slots@[j]),
                },
        )
    }

    /// Slot `j` is empty or holds a well-formed, non-exhausted, sorted
    /// source registered under index `j`.
    pub open spec fn slot_wf_at(&self, j: int) -> bool {
        slot_wf(self.slots@[j], j)
    }

    /// Every source still parked in a slot can never fail to advance.
    pub open spec fn slots_infallible(&self) -> bool {
        forall|j: int|
            0 <= j < self.n() && (#[trigger] self.slots@[j]) is Some
                ==> self.slots@[j].unwrap().iter.infallible()
    }

    /// Every source held anywhere in the merge can never fail to advance.
    pub open spec fn merge_infallible(&self) -> bool {
        &&& self.slots_infallible()
        &&& match self.current {
            Some(w) => w.iter.infallible(),
            None => true,
        }
    }

    /// All slots are well-formed.
    pub open spec fn slots_wf(&self) -> bool {
        forall|j: int| 0 <= j < self.n() ==> #[trigger] self.slot_wf_at(j)
    }

    /// The merge invariant: well-formed slots, and a current source that is
    /// non-exhausted, sorted, parked out of its slot, and outranking every
    /// occupied slot — or no current source and every slot empty.
    pub open spec fn merge_inv(&self) -> bool {
        &&& self.slots_wf()
        &&& match self.current {
            Some(w) => {
                &&& w.index < self.n()
                &&& self.slots@[w.index as int] is None
                &&& w.iter.inv()
                &&& w.iter.entries().len() > 0
                &&& entries_sorted(w.iter.entries())
                &&& forall|j: int|
                    0 <= j < self.n() && (#[trigger] self.slots@[j]) is Some ==> outranks(
                        self.srcs(),
                        w.index as int,
                        j,
                    )
            },
            None => forall|j: int| 0 <= j < self.n() ==> (#[trigger] self.slots@[j]) is None,
        }
    }

    /// Advances one source past every leading entry whose key equals
    /// `key`. Returns whether the source still holds entries; an advance
    /// failure is surfaced as-is and the source is then promised nothing.
    fn skip_in_source(w: &mut Source<I>, key: &Vec<u8>) -> (r: Result<bool, Error>)
        requires
            old(w).iter.inv(),
            entries_sorted(old(w).iter.entries()),
        ensures
            final(w).index == old(w).index,
            final(w).iter.inv(),
            old(w).iter.infallible() ==> r is Ok && final(w).iter.infallible(),
            match r {
                Ok(live) => {
                    &&& entries_sorted(final(w).iter.entries())
                    &&& final(w).iter.entries() == skip_key(old(w).iter.entries(), key@)
                    &&& live == (final(w).iter.entries().len() > 0)
                },
                Err(_) => true,
            },
    {
        loop
            invariant
                w.index == old(w).index,
                w.iter.inv(),
                old(w).iter.infallible() ==> w.iter.infallible(),
                entries_sorted(w.iter.entries()),
                skip_key(old(w).iter.entries(), key@) == skip_key(w.iter.entries(), key@),
            decreases w.iter.entries().len(),
        {
            if !w.iter.is_valid() {
                proof {
                    assert(skip_key(w.iter.entries(), key@) == w.iter.entries());
                }
                return Ok(false);
            }
            let wk = w.iter.key();
            if !key_eq(wk.as_slice(), key.as_slice()) {
                proof {
                    assert(skip_key(w.iter.entries(), key@) == w.iter.entries());
                }
                return Ok(true);
            }
            let ghost w_pre = w.iter.entries();
            match w.iter.next() {
                Ok(()) => {
                    proof {
                        lemma_sorted_drop_first(w_pre);
                        assert(skip_key(w_pre, key@) == skip_key(w.iter.entries(), key@));
                    }
                },
                Err(e) => {
                    proof {
                        if old(w).iter.infallible() {
                            assert(false);
                        }
                    }
                    return Err(e);
                },
            }
        }
    }

    /// Rebuilds `current` by scanning the slots for the best source. Keeps
    /// the per-source entries unchanged.
    fn take_best(&mut self)
        requires
            old(self).current is None,
            old(self).slots_wf(),
        ensures
            final(self).merge_inv(),
            final(self).srcs() == old(self).srcs(),
            old(self).slots_infallible() ==> final(self).merge_infallible(),
    {
        let ghost srcs0 = self.srcs();
        let n = self.slots.len();
        let mut best: usize = n;
        let mut bkey: Vec<u8> = Vec::new();
        let mut j: usize = 0;
        while j < n
            invariant
                n == self.slots@.len(),
                self.current is None,
                self.slots_wf(),
                self.srcs() == srcs0,
                0 <= j <= n,
                best == n || (best < j && self.slots@[best as int] is Some),
                best < n ==> bkey@ == slot_entries(self.slots@[best as int])[0].0,
                best < n ==> forall|m: int|
                    0 <= m < j && (#[trigger] self.slots@[m]) is Some ==> lex_lt(
                        bkey@,
                        slot_entries(self.slots@[m])[0].0,
                    ) || (bkey@ == slot_entries(self.slots@[m])[0].0 && best <= m),
                best == n ==> forall|m: int| 0 <= m < j ==> (#[trigger] self.slots@[m]) is None,
            decreases n - j,
        {
            match &self.slots[j] {
                None => {},
                Some(w) => {
                    proof {
                        assert(self.slot_wf_at(j as int));
                    }
                    let wk = w.iter.key();
                    if best == n || key_lt(wk.as_slice(), bkey.as_slice()) {
                        proof {
                            if best < n {
                                lemma_lex_trichotomy(wk@, bkey@);
                            }
                        }
                        let ghost old_best = best;
                        let ghost old_bkey = bkey@;
                        best = j;
                        bkey = wk;
                        proof {
                            assert forall|m: int|
                                0 <= m < j + 1 && (#[trigger] self.slots@[m]) is Some implies
                                lex_lt(bkey@, slot_entries(self.slots@[m])[0].0) || (bkey@
                                == slot_entries(self.slots@[m])[0].0 && best <= m) by {
                                if m < j {
                                    if old_best < n {
                                        let mk = slot_entries(self.slots@[m])[0].0;
                                        if lex_lt(old_bkey, mk) {
                                            lemma_lex_le_lt_trans(bkey@, old_bkey, mk);
                                        } else {
                                            lemma_lex_le_trans(bkey@, old_bkey, mk);
                                        }
                                    }
                                }
                            }
                        }
                    } else {
                        proof {
                            lemma_lex_trichotomy(wk@, bkey@);
                        }
                    }
                },
            }
            j = j + 1;
        }
        if best < n {
            let ghost slots_pre = self.slots@;
            proof {
                assert(self.slot_wf_at(best as int));
            }
            let w = self.slots.remove(best);
            self.slots.insert(best, None);
            self.current = w;
            proof {
                assert(self.slots@ =~= slots_pre.update(best as int, None));
                assert(self.current == slots_pre[best as int]);
                assert forall|m: int| 0 <= m < self.n() implies #[trigger] self.slot_wf_at(
                    m,
                ) by {
                    assert(old(self).slot_wf_at(m));
                }
                assert forall|m: int| 0 <= m < self.n() implies self.srcs()[m] == srcs0[m] by {
                    if m != best as int {
                        assert(self.slots@[m] == slots_pre[m]);
                    }
                }
                assert(self.srcs() =~= srcs0);
                assert forall|m: int|
                    0 <= m < self.n() && (#[trigger] self.slots@[m]) is Some implies outranks(
                    self.srcs(),
                    best as int,
                    m,
                ) by {
                    assert(old(self).slot_wf_at(m));
                    assert(self.slots@[m] == slots_pre[m]);
                    assert(self.srcs()[m] == slot_entries(slots_pre[m]));
                    assert(self.srcs()[best as int] == slot_entries(slots_pre[best as int]));
                }
                if old(self).slots_infallible() {
                    assert forall|m: int|
                        0 <= m < self.n() && (#[trigger] self.slots@[m]) is Some implies self
                        .slots@[m].unwrap().iter.infallible() by {
                        assert(self.slots@[m] == slots_pre[m]);
                    }
                    assert(self.merge_infallible());
                }
            }
        } else {
            proof {
                assert(self.srcs() =~= srcs0);
            }
        }
    }

    /// Creates a merge over the given sources; index 0 has the highest
    /// priority. Sources that are already exhausted are dropped.
    pub fn create(iters: Vec<I>) -> (r: MergeIterator<I>)
        requires
            forall|j: int|
                0 <= j < iters@.len() ==> (#[trigger] iters@[j]).inv() && entries_sorted(
                    iters@[j].entries(),
                ),
        ensures
            r.merge_inv(),
            r.srcs() == Seq::new(iters@.len(), |j: int| iters@[j].entries()),
            (forall|j: int| 0 <= j < iters@.len() ==> (#[trigger] iters@[j]).infallible())
                ==> r.infallible(),
    {
        let ghost orig = iters@;
        let mut iters = iters;
        let mut slots: Vec<Option<Source<I>>> = Vec::new();
        let mut idx: usize = 0;
        let n = iters.len();
        while idx < n
            invariant
                orig.len() == n,
                iters@ == orig.skip(idx as int),
                slots@.len() == idx,
                0 <= idx <= n,
                forall|j: int|
                    0 <= j < orig.len() ==> (#[trigger] orig[j]).inv() && entries_sorted(
                        orig[j].entries(),
                    ),
                forall|m: int|
                    0 <= m < idx ==> slot_entries(#[trigger] slots@[m]) == orig[m].entries(),
                forall|m: int|
                    0 <= m < idx ==> match #[trigger] slots@[m] {
                        Some(w) => w.index == m && w.iter == orig[m] && w.iter.entries().len()
                            > 0,
                        None => orig[m].entries().len() == 0,
                    },
            decreases n - idx,
        {
            let it = iters.remove(0);
            proof {
                assert(orig.skip(idx as int)[0] == orig[idx as int]);
                assert(orig.skip(idx as int).drop_first() =~= orig.skip(idx as int + 1));
            }
            if it.is_valid() {
                slots.push(Some(Source { index: idx, iter: it }));
            } else {
                slots.push(None);
            }
            idx = idx + 1;
        }
        let mut r = MergeIterator { slots, current: None };
        proof {
            assert forall|j: int| 0 <= j < r.n() implies #[trigger] r.slot_wf_at(j) by {}
            assert(r.srcs() =~= Seq::new(orig.len(), |j: int| orig[j].entries()));
            if forall|j: int| 0 <= j < orig.len() ==> (#[trigger] orig[j]).infallible() {
                assert forall|j: int|
                    0 <= j < r.n() && (#[trigger] r.slots@[j]) is Some implies r.slots@[
                    j
                ].unwrap().iter.infallible() by {
                    assert(orig[j].infallible());
                }
                assert(r.slots_infallible());
            }
        }
        r.take_best();
        r
    }
}

/// A merge iterator is valid exactly when its merged stream is non-empty.
pub proof fn lemma_merge_valid<I: StorageIterator>(m: &MergeIterator<I>)
    requires
        m.merge_inv(),
    ensures
        (m.current is Some) == (merge(m.srcs()).len() > 0),
{
    match m.current {
        Some(w) => {
            assert(m.srcs()[w.index as int].len() > 0);
            assert(has_entries(m.srcs()));
        },
        None => {
            assert forall|j: int| 0 <= j < m.srcs().len() implies (#[trigger] m.srcs()[j]).len()
                == 0 by {
                assert(m.slots@[j] is None);
            }
            assert(!has_entries(m.srcs()));
        },
    }
}

/// The head of the merged stream is the current source's head, and one
/// merge step peels it off.
pub proof fn lemma_merge_head<I: StorageIterator>(m: &MergeIterator<I>)
    requires
        m.merge_inv(),
        m.current is Some,
    ensures
        merge(m.srcs()).len() > 0,
        best_from(m.srcs(), 0) == m.current.unwrap().index,
        merge(m.srcs())[0] == m.current.unwrap().iter.entries()[0],
        merge(m.srcs()).drop_first() == merge(
            merge_step(m.srcs(), m.current.unwrap().index as int),
        ),
{
    let w = m.current.unwrap();
    let i = w.index as int;
    assert(m.srcs()[i] == w.iter.entries());
    assert forall|j: int|
        0 <= j < m.srcs().len() && (#[trigger] m.srcs()[j]).len() > 0 implies outranks(
        m.srcs(),
        i,
        j,
    ) by {
        if j != i {
            assert(m.srcs()[j] == slot_entries(m.slots@[j]));
            assert(m.slots@[j] is Some);
        }
    }
    lemma_best_unique(m.srcs(), i);
    assert(has_entries(m.srcs()));
    assert(merge(m.srcs()) == seq![m.srcs()[i][0]] + merge(merge_step(m.srcs(), i)));
    assert(merge(m.srcs()).drop_first() =~= merge(merge_step(m.srcs(), i)));
}

impl<I: StorageIterator> StorageIterator for MergeIterator<I> {
    open spec fn entries(&self) -> Seq<EntryView> {
        merge(self.srcs())
    }

    open spec fn inv(&self) -> bool {
        self.merge_inv()
    }

    open spec fn infallible(&self) -> bool {
        self.merge_infallible()
    }

    fn is_valid(&self) -> (r: bool) {
        proof {
            lemma_merge_valid(self);
        }
        self.current.is_some()
    }

    fn key(&self) -> (r: Vec<u8>) {
        proof {
            lemma_merge_valid(self);
            lemma_merge_head(self);
        }
        match &self.current {
            Some(w) => w.iter.key(),
            None => unreached(),
        }
    }

    fn value(&self) -> (r: Vec<u8>) {
        proof {
            lemma_merge_valid(self);
            lemma_merge_head(self);
        }
        match &self.current {
            Some(w) => w.iter.value(),
            None => unreached(),
        }
    }

    #[verifier::loop_isolation(false)]
    fn next(&mut self) -> (r: Result<(), Error>)
        ensures
            r is Err ==> {
                &&& final(self).srcs().len() == old(self).srcs().len()
                &&& forall|q: int|
                    0 <= q < old(self).srcs().len() ==> (#[trigger] final(self).srcs()[q])
                        == old(self).srcs()[q] || final(self).srcs()[q] == skip_key(
                        old(self).srcs()[q],
                        old(self).entries()[0].0,
                    ) || final(self).srcs()[q].len() == 0
                &&& exists|q: int|
                    0 <= q < old(self).srcs().len() && old(self).srcs()[q].len() > 0 && (
                    #[trigger] final(self).srcs()[q]).len() == 0
            },
    {
        proof {
            lemma_merge_valid(self);
            lemma_merge_head(self);
        }
        let ghost srcs0 = self.srcs();
        let ghost slots0 = self.slots@;
        let mut cur_opt: Option<Source<I>> = None;
        core::mem::swap(&mut self.current, &mut cur_opt);
        let mut cur = match cur_opt {
            Some(c) => c,
            None => unreached(),
        };
        let ghost i = cur.index as int;
        let ghost k = cur.iter.entries()[0].0;
        let key = cur.iter.key();
        proof {
            assert(srcs0[i] == cur.iter.entries());
            assert forall|m: int| 0 <= m < self.n() && m != i implies srcs0[m] == slot_entries(
                #[trigger] slots0[m],
            ) by {}
            assert(slots0[i] is None);
            assert forall|m: int| 0 <= m < self.n() implies #[trigger] self.slot_wf_at(m) by {
                assert(old(self).slot_wf_at(m));
            }
            if old(self).merge_infallible() {
                assert(cur.iter.infallible());
                assert forall|m: int|
                    0 <= m < self.n() && (#[trigger] self.slots@[m]) is Some implies self.slots@[
                    m
                ].unwrap().iter.infallible() by {
                    assert(self.slots@[m] == old(self).slots@[m]);
                }
                assert(self.slots_infallible());
            }
        }

        // Skip the emitted key in every other live source.
        let n = self.slots.len();
        let mut j: usize = 0;
        while j < n
            invariant
                0 <= j <= n,
                self.slots@.len() == n,
                self.current is None,
                cur.index == i,
                cur.iter.entries() == srcs0[i],
                forall|m: int| j <= m < n ==> #[trigger] self.slots@[m] == slots0[m],
                forall|m: int|
                    0 <= m < j ==> slot_entries(#[trigger] self.slots@[m]) == skip_key(
                        slot_entries(slots0[m]),
                        k,
                    ),
                forall|m: int| 0 <= m < n ==> #[trigger] self.slot_wf_at(m),
                forall|m: int|
                    0 <= m < j && (#[trigger] self.slots@[m]) is Some ==> lex_lt(
                        k,
                        slot_entries(self.slots@[m])[0].0,
                    ),
                old(self).merge_infallible() ==> cur.iter.infallible()
                    && self.slots_infallible(),
            decreases n - j,
        {
            let ghost slots_iter = self.slots@;
            proof {
                assert forall|m: int| 0 <= m < n implies slot_wf(#[trigger] slots_iter[m], m) by {
                    assert(self.slot_wf_at(m));
                }
                if old(self).merge_infallible() {
                    assert forall|m: int|
                        0 <= m < n && (#[trigger] slots_iter[m]) is Some implies slots_iter[
                        m
                    ].unwrap().iter.infallible() by {}
                }
            }
            let taken = self.slots.remove(j);
            self.slots.insert(j, None);
            proof {
                assert(self.slots@ =~= slots_iter.update(j as int, None));
                assert(taken == slots_iter[j as int]);
                assert forall|m: int| 0 <= m < n implies #[trigger] self.slot_wf_at(m) by {
                    if m != j as int {
                        assert(self.slots@[m] == slots_iter[m]);
                        assert(slot_wf(slots_iter[m], m));
                    }
                }
                if old(self).merge_infallible() {
                    assert forall|m: int|
                        0 <= m < n && (#[trigger] self.slots@[m]) is Some implies self.slots@[
                        m
                    ].unwrap().iter.infallible() by {
                        assert(self.slots@[m] == slots_iter[m]);
                    }
                    assert(self.slots_infallible());
                }
            }
            match taken {
                None => {
                    proof {
                        assert(slot_entries(self.slots@[j as int]) =~= skip_key(
                            slot_entries(slots0[j as int]),
                            k,
                        ));
                    }
                },
                Some(w) => {
                    let ghost w_orig = w.iter.entries();
                    proof {
                        assert(j as int != i);
                        assert(w_orig == slot_entries(slots0[j as int]));
                        assert(outranks(srcs0, i, j as int));
                        assert(srcs0[j as int] == w_orig);
                        assert(lex_le(k, w_orig[0].0));
                    }
                    let mut w = w;
                    match Self::skip_in_source(&mut w, &key) {
                        Ok(false) => {
                            proof {
                                assert(slot_entries(self.slots@[j as int]) =~= skip_key(
                                    slot_entries(slots0[j as int]),
                                    k,
                                ));
                            }
                        },
                        Ok(true) => {
                            proof {
                                lemma_skip_key(w_orig, k);
                                let nh = skip_key(w_orig, k)[0].0;
                                lemma_lex_le_trans(k, w_orig[0].0, nh);
                                assert(lex_lt(k, nh));
                            }
                            let ghost slots_b = self.slots@;
                            proof {
                                assert forall|m: int| 0 <= m < n implies slot_wf(
                                    #[trigger] slots_b[m],
                                    m,
                                ) by {
                                    assert(self.slot_wf_at(m));
                                }
                            }
                            self.slots.set(j, Some(w));
                            proof {
                                assert forall|m: int| 0 <= m < n implies #[trigger] self
                                    .slot_wf_at(m) by {
                                    if m != j as int {
                                        assert(self.slots@[m] == slots_b[m]);
                                        assert(slot_wf(slots_b[m], m));
                                    }
                                }
                                if old(self).merge_infallible() {
                                    assert(slots_iter[j as int].unwrap().iter.infallible());
                                    assert forall|m: int|
                                        0 <= m < n && (#[trigger] self.slots@[m])
                                            is Some implies self.slots@[
                                        m
                                    ].unwrap().iter.infallible() by {
                                        if m != j as int {
                                            assert(self.slots@[m] == slots_b[m]);
                                        }
                                    }
                                    assert(self.slots_infallible());
                                }
                            }
                        },
                        Err(e) => {
                            // This source failed to advance: drop it and
                            // surface the error.
                            self.current = Some(cur);
                            proof {
                                if old(self).merge_infallible() {
                                    assert(slots_iter[j as int].unwrap().iter.infallible());
                                    assert(false);
                                }
                                assert(self.srcs()[i] == cur.iter.entries());
                                assert forall|m: int|
                                    0 <= m < self.n() && (#[trigger] self.slots@[m])
                                        is Some implies outranks(self.srcs(), i, m) by {
                                    assert(self.slot_wf_at(m));
                                    assert(self.srcs()[m] == slot_entries(self.slots@[m]));
                                    if m < j as int {
                                        assert(lex_lt(k, slot_entries(self.slots@[m])[0].0));
                                    } else {
                                        assert(self.slots@[m] == slots0[m]);
                                        assert(outranks(srcs0, i, m));
                                    }
                                }
                                // The failed source is gone; every other
                                // source is intact or skipped past the key.
                                assert(merge(srcs0)[0].0 == k);
                                assert forall|q: int|
                                    0 <= q < srcs0.len() implies (#[trigger] self.srcs()[q])
                                    == srcs0[q] || self.srcs()[q] == skip_key(srcs0[q], k)
                                    || self.srcs()[q].len() == 0 by {
                                    if q == i {
                                        assert(self.srcs()[q] == cur.iter.entries());
                                    } else {
                                        assert(self.srcs()[q] == slot_entries(self.slots@[q]));
                                        assert(srcs0[q] == slot_entries(slots0[q]));
                                        if q == j as int {
                                            assert(self.slots@[q] is None);
                                        } else {
                                            assert(self.slots@[q] == slots_iter[q]);
                                            if q < j as int {
                                                assert(slot_entries(slots_iter[q]) == skip_key(
                                                    slot_entries(slots0[q]),
                                                    k,
                                                ));
                                            } else {
                                                assert(slots_iter[q] == slots0[q]);
                                            }
                                        }
                                    }
                                }
                                assert(slot_wf(slots_iter[j as int], j as int));
                                assert(srcs0[j as int].len() > 0);
                                assert(self.srcs()[j as int].len() == 0);
                            }
                            return Err(e);
                        },
                    }
                },
            }
            j = j + 1;
        }

        // Advance the current source, then reinstall the best source.
        let ghost cur_pre = cur.iter.entries();
        match cur.iter.next() {
            Err(e) => {
                // The current source failed to advance: drop it; the
                // other sources keep only the skip past the emitted key.
                let ghost pre_srcs = self.srcs();
                proof {
                    if old(self).merge_infallible() {
                        assert(false);
                    }
                    assert(merge(srcs0)[0].0 == k);
                    assert forall|q: int|
                        0 <= q < srcs0.len() implies (#[trigger] pre_srcs[q]) == skip_key(
                        srcs0[q],
                        k,
                    ) || pre_srcs[q].len() == 0 by {
                        assert(pre_srcs[q] == slot_entries(self.slots@[q]));
                        assert(slot_entries(self.slots@[q]) == skip_key(
                            slot_entries(slots0[q]),
                            k,
                        ));
                        if q != i {
                            assert(srcs0[q] == slot_entries(slots0[q]));
                        } else {
                            assert(slots0[q] is None);
                        }
                    }
                    assert(srcs0[i].len() > 0);
                    assert(pre_srcs[i].len() == 0);
                }
                self.take_best();
                proof {
                    assert(self.srcs() == pre_srcs);
                }
                return Err(e);
            },
            Ok(()) => {},
        }
        if cur.iter.is_valid() {
            proof {
                lemma_sorted_drop_first(cur_pre);
            }
            let ghost slots_b = self.slots@;
            proof {
                assert forall|m: int| 0 <= m < n implies slot_wf(#[trigger] slots_b[m], m) by {
                    assert(self.slot_wf_at(m));
                }
            }
            let at = cur.index;
            self.slots.set(at, Some(cur));
            proof {
                assert forall|m: int| 0 <= m < self.n() implies #[trigger] self.slot_wf_at(
                    m,
                ) by {
                    if m != i {
                        assert(self.slots@[m] == slots_b[m]);
                        assert(slot_wf(slots_b[m], m));
                    }
                }
                if old(self).merge_infallible() {
                    assert forall|m: int|
                        0 <= m < self.n() && (#[trigger] self.slots@[m]) is Some implies self
                        .slots@[m].unwrap().iter.infallible() by {
                        if m != i {
                            assert(self.slots@[m] == slots_b[m]);
                        }
                    }
                    assert(self.slots_infallible());
                }
            }
        }
        proof {
            assert forall|m: int| 0 <= m < self.n() implies slot_entries(#[trigger] self.slots@[m])
                == merge_step(srcs0, i)[m] by {
                if m == i {
                    assert(merge_step(srcs0, i)[m] == cur_pre.drop_first());
                    assert(slot_entries(self.slots@[m]) =~= cur_pre.drop_first());
                } else {
                    assert(srcs0[m] == slot_entries(slots0[m]));
                    assert(slot_entries(self.slots@[m]) == skip_key(slot_entries(slots0[m]), k));
                }
            }
            assert(self.srcs() =~= merge_step(srcs0, i));
        }
        self.take_best();
        proof {
            assert(merge(self.srcs()).drop_first() =~= merge(merge_step(srcs0, i)).drop_first());
        }
        Ok(())
    }
}

/// A merge of sorted sources emits keys in non-decreasing order.
pub proof fn lemma_merge_sorted(srcs: Seq<Seq<EntryView>>)
    requires
        forall|j: int| 0 <= j < srcs.len() ==> entries_sorted(#[trigger] srcs[j]),
    ensures
        entries_sorted(merge(srcs)),
    decreases total_len(srcs),
{
    if has_entries(srcs) {
        lemma_best_from(srcs, 0);
        let i = best_from(srcs, 0);
        let e = srcs[i][0];
        let stepped = merge_step(srcs, i);
        assert forall|j: int| 0 <= j < stepped.len() implies entries_sorted(
            #[trigger] stepped[j],
        ) by {
            if j == i {
                lemma_sorted_drop_first(srcs[i]);
            } else {
                lemma_skip_key(srcs[j], e.0);
            }
        }
        assert forall|j: int| 0 <= j < stepped.len() implies (#[trigger] stepped[j]).len()
            <= srcs[j].len() by {
            if j != i {
                lemma_skip_key_len(srcs[j], e.0);
            }
        }
        lemma_total_len_lt(stepped, srcs, i);
        lemma_merge_sorted(stepped);
        let out = merge(srcs);
        let tail = merge(stepped);
        assert(out == seq![e] + tail);
        if tail.len() > 0 {
            assert(has_entries(stepped));
            lemma_best_from(stepped, 0);
            let b2 = best_from(stepped, 0);
            assert(tail[0] == stepped[b2][0]);
            if b2 == i {
                assert(stepped[b2][0] == srcs[i][1]);
                assert(lex_le(e.0, srcs[i][1].0));
            } else {
                assert(srcs[b2].len() > 0);
                assert(outranks(srcs, i, b2));
                lemma_skip_key(srcs[b2], e.0);
                lemma_lex_le_trans(e.0, srcs[b2][0].0, stepped[b2][0].0);
            }
            assert(lex_le(e.0, tail[0].0));
        }
        assert forall|p: int| 0 <= p < out.len() - 1 implies lex_le(
            #[trigger] out[p].0,
            out[p + 1].0,
        ) by {
            if p == 0 {
                assert(out[1] == tail[0]);
            } else {
                assert(out[p] == tail[p - 1]);
                assert(out[p + 1] == tail[p]);
                assert(lex_le(tail[p - 1].0, tail[p].0));
            }
        }
    }
}

/// The merged stream is a function of the per-source entry sequences alone:
/// two merges over equal sources emit equal streams, whatever iterators
/// produce them.
pub proof fn lemma_merge_deterministic<I: StorageIterator, J: StorageIterator>(
    x: &MergeIterator<I>,
    y: &MergeIterator<J>,
)
    requires
        x.srcs() == y.srcs(),
    ensures
        x.entries() == y.entries(),
{
}

/// Tie-breaking in general: when sources `i < j` both hold the stream's
/// minimal key at their heads, one merge step emits the pair of the best
/// source — an index at most `i`, holding that same key — and skips the
/// key in every other source; with `j` sorted, no copy of the key survives
/// anywhere in `j`'s remainder, so `j`'s value for that key is never
/// emitted.
pub proof fn lemma_merge_tie_break_general(srcs: Seq<Seq<EntryView>>, i: int, j: int)
    requires
        0 <= i < j < srcs.len(),
        srcs[i].len() > 0,
        srcs[j].len() > 0,
        srcs[i][0].0 == srcs[j][0].0,
        forall|m: int|
            0 <= m < srcs.len() && (#[trigger] srcs[m]).len() > 0 ==> lex_le(
                srcs[i][0].0,
                srcs[m][0].0,
            ),
    ensures
        merge(srcs).len() > 0,
        best_from(srcs, 0) <= i,
        srcs[best_from(srcs, 0)][0].0 == srcs[i][0].0,
        merge(srcs)[0] == srcs[best_from(srcs, 0)][0],
        merge(srcs).drop_first() == merge(merge_step(srcs, best_from(srcs, 0))),
        merge_step(srcs, best_from(srcs, 0))[j] == skip_key(srcs[j], srcs[i][0].0),
        entries_sorted(srcs[j]) ==> forall|p: int|
            0 <= p < skip_key(srcs[j], srcs[i][0].0).len() ==> (#[trigger] skip_key(
                srcs[j],
                srcs[i][0].0,
            )[p]).0 != srcs[i][0].0,
{
    let k = srcs[i][0].0;
    assert(has_entries(srcs));
    lemma_best_from(srcs, 0);
    let b = best_from(srcs, 0);
    assert(outranks(srcs, b, i));
    assert(lex_le(k, srcs[b][0].0));
    lemma_lex_trichotomy(srcs[b][0].0, k);
    assert(srcs[b][0].0 == k);
    assert(b <= i);
    assert(merge(srcs) == seq![srcs[b][0]] + merge(merge_step(srcs, b)));
    assert(merge(srcs).drop_first() =~= merge(merge_step(srcs, b)));
    assert(merge_step(srcs, b)[j] == skip_key(srcs[j], k));
    if entries_sorted(srcs[j]) {
        lemma_skip_key(srcs[j], k);
        let sk = skip_key(srcs[j], k);
        assert forall|p: int| 0 <= p < sk.len() implies (#[trigger] sk[p]).0 != k by {
            crate::block::lemma_sorted_pairwise(sk, 0, p);
            assert(lex_le(srcs[j][0].0, sk[0].0));
            assert(lex_lt(k, sk[0].0));
            crate::keys::lemma_lex_lt_le_trans(k, sk[0].0, sk[p].0);
            lemma_lex_trichotomy(k, sk[p].0);
        }
    }
}

/// When two sources hold the same key at their heads, the merged stream
/// emits the lower-indexed source's pair first, and the next step has
/// skipped every leading copy of that key in the other source.
pub proof fn lemma_merge_tie_break(s0: Seq<EntryView>, s1: Seq<EntryView>)
    requires
        s0.len() > 0,
        s1.len() > 0,
        s0[0].0 == s1[0].0,
    ensures
        merge(seq![s0, s1]).len() > 0,
        merge(seq![s0, s1])[0] == s0[0],
        merge(seq![s0, s1]).drop_first() == merge(
            seq![s0.drop_first(), skip_key(s1, s0[0].0)],
        ),
{
    let srcs = seq![s0, s1];
    assert(srcs[0] == s0);
    assert(srcs[1] == s1);
    assert(has_entries(srcs));
    lemma_lex_trichotomy(s1[0].0, s0[0].0);
    assert(best_from(srcs, 1) == 1);
    assert(best_from(srcs, 0) == 0);
    assert(merge(srcs) == seq![srcs[0][0]] + merge(merge_step(srcs, 0)));
    assert(merge_step(srcs, 0) =~= seq![s0.drop_first(), skip_key(s1, s0[0].0)]);
    assert(merge(srcs).drop_first() =~= merge(merge_step(srcs, 0)));
}

} // verus!
