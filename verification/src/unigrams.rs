//! The first pass: the unigrams that the dictionary allows are cut down to
//! the most frequent ones, and each of those gets its symbol id.

use crate::model::{BuildError, LogProb, UnigramRecord};
use crate::symbols::WordTable;
use crate::utilities::{is_least, lemma_lowest, lowest, offer, LimitedMinHeap};
use vstd::multiset::Multiset;
use vstd::prelude::*;

verus! {

/// A unigram as the contracts see it: its word and its count.
pub type Unigram = (Seq<char>, u32);

/// What a vector of unigrams holds.
pub open spec fn unigram_views(unigrams: Seq<(String, u32)>) -> Seq<Unigram> {
    Seq::new(unigrams.len(), |i: int| (unigrams[i].0@, unigrams[i].1))
}

/// The unigrams whose word stands in the dictionary, in their order.
pub open spec fn allowed(dictionary: Seq<Seq<char>>, unigrams: Seq<Unigram>) -> Seq<Unigram>
    decreases unigrams.len(),
{
    if unigrams.len() == 0 {
        Seq::empty()
    } else {
        let before = allowed(dictionary, unigrams.drop_last());
        if dictionary.contains(unigrams.last().0) {
            before.push(unigrams.last())
        } else {
            before
        }
    }
}

/// The counts that a selector of the given capacity holds after the counts
/// of the unigrams were offered to it in order.
pub open spec fn selected(unigrams: Seq<Unigram>, capacity: nat) -> Multiset<u32>
    decreases unigrams.len(),
{
    if unigrams.len() == 0 {
        Multiset::empty()
    } else {
        offer(selected(unigrams.drop_last(), capacity), capacity, unigrams.last().1)
    }
}

/// The bar that a unigram has to reach: the smallest count that the
/// selector holds in the end, and zero where it holds none.
pub open spec fn threshold(unigrams: Seq<Unigram>, capacity: nat) -> u32 {
    match lowest(selected(unigrams, capacity)) {
        Some(least) => least,
        None => 0,
    }
}

/// The unigrams whose count is `bar` or more, in their order.
pub open spec fn at_least(unigrams: Seq<Unigram>, bar: u32) -> Seq<Unigram>
    decreases unigrams.len(),
{
    if unigrams.len() == 0 {
        Seq::empty()
    } else {
        let before = at_least(unigrams.drop_last(), bar);
        if unigrams.last().1 >= bar {
            before.push(unigrams.last())
        } else {
            before
        }
    }
}

/// The unigrams that are kept: those that the dictionary allows and whose
/// count reaches the bar that the allowed unigrams set. Counts that tie at
/// the bar are all kept.
pub open spec fn kept_unigrams(
    dictionary: Seq<Seq<char>>,
    unigrams: Seq<Unigram>,
    capacity: nat,
) -> Seq<Unigram> {
    let offered = allowed(dictionary, unigrams);
    at_least(offered, threshold(offered, capacity))
}

/// The sum of the counts.
pub open spec fn total_count(unigrams: Seq<Unigram>) -> nat
    decreases unigrams.len(),
{
    if unigrams.len() == 0 {
        0
    } else {
        total_count(unigrams.drop_last()) + unigrams.last().1 as nat
    }
}

/// The words of the unigrams, in their order.
pub open spec fn words_of(unigrams: Seq<Unigram>) -> Seq<Seq<char>> {
    Seq::new(unigrams.len(), |i: int| unigrams[i].0)
}

/// The order-1 table of the kept unigrams before any bigram was read: each
/// count is set against the total, and no block is entered yet.
pub open spec fn fresh_records(kept: Seq<Unigram>) -> Seq<UnigramRecord> {
    Seq::new(
        kept.len(),
        |i: int|
            UnigramRecord {
                log_prob: LogProb::Ratio {
                    count: kept[i].1,
                    normalizer: total_count(kept) as u32,
                },
                count: kept[i].1,
                offset: 0,
                extent: 0,
            },
    )
}

/// How the first pass ends on the kept unigrams: the symbol table and the
/// order-1 table, unless the counts or the unigrams are too many.
pub open spec fn unigram_outcome(kept: Seq<Unigram>) -> Result<
    (Seq<Seq<char>>, Seq<UnigramRecord>),
    BuildError,
> {
    if total_count(kept) > u32::MAX {
        Err(BuildError::CountOverflow)
    } else if kept.len() > u32::MAX {
        Err(BuildError::TooManyRecords)
    } else {
        Ok((words_of(kept), fresh_records(kept)))
    }
}

/// No count is larger than the total of all counts.
pub proof fn lemma_count_within_total(unigrams: Seq<Unigram>, i: int)
    requires
        0 <= i < unigrams.len(),
    ensures
        unigrams[i].1 <= total_count(unigrams),
    decreases unigrams.len(),
{
    if i < unigrams.len() - 1 {
        lemma_count_within_total(unigrams.drop_last(), i);
    }
}

/// The counts of the unigrams, each as often as it occurs.
pub open spec fn counts_of(unigrams: Seq<Unigram>) -> Multiset<u32>
    decreases unigrams.len(),
{
    if unigrams.len() == 0 {
        Multiset::empty()
    } else {
        counts_of(unigrams.drop_last()).insert(unigrams.last().1)
    }
}

/// What the selector holds in the end are the largest counts that it was
/// offered: they are among the offered counts, they are as many as the
/// capacity allows, and no count that was left out is larger than one that
/// is held. The bar is therefore the smallest of the `capacity` largest
/// counts.
pub proof fn lemma_selected_are_largest(unigrams: Seq<Unigram>, capacity: nat)
    ensures
        selected(unigrams, capacity).subset_of(counts_of(unigrams)),
        counts_of(unigrams).len() == unigrams.len(),
        selected(unigrams, capacity).len() == if unigrams.len() <= capacity {
            unigrams.len()
        } else {
            capacity
        },
        unigrams.len() <= capacity ==> selected(unigrams, capacity) == counts_of(unigrams),
        forall|x: u32, y: u32|
            counts_of(unigrams).sub(selected(unigrams, capacity)).count(x) > 0 && selected(
                unigrams,
                capacity,
            ).count(y) > 0 ==> x <= y,
    decreases unigrams.len(),
{
    let held = selected(unigrams, capacity);
    let all = counts_of(unigrams);
    if unigrams.len() > 0 {
        let most = unigrams.drop_last();
        let value = unigrams.last().1;
        lemma_selected_are_largest(most, capacity);
        let before = selected(most, capacity);
        let offered = counts_of(most);
        if before.len() < capacity {
            assert(held =~= all);
            assert(all.sub(held) =~= Multiset::empty());
        } else if capacity > 0 {
            lemma_lowest(before);
            let least = choose|x: u32| is_least(before, x);
            if value > least {
                assert(held == before.remove(least).insert(value));
                assert(all.sub(held) =~= offered.sub(before).insert(least));
                assert forall|x: u32, y: u32|
                    all.sub(held).count(x) > 0 && held.count(y) > 0 implies x <= y by {
                    if x != least {
                        assert(offered.sub(before).count(x) > 0);
                    }
                    if y != value {
                        assert(before.count(y) > 0);
                    }
                }
            } else {
                assert(held == before);
                assert(all.sub(held) =~= offered.sub(before).insert(value));
                assert forall|x: u32, y: u32|
                    all.sub(held).count(x) > 0 && held.count(y) > 0 implies x <= y by {
                    if x != value {
                        assert(offered.sub(before).count(x) > 0);
                    }
                }
            }
        } else {
            assert(held == before);
        }
    }
}

/// Every unigram that reaches a bar is one of the unigrams.
pub proof fn lemma_at_least_within(unigrams: Seq<Unigram>, bar: u32, i: int)
    requires
        0 <= i < at_least(unigrams, bar).len(),
    ensures
        unigrams.contains(at_least(unigrams, bar)[i]),
        at_least(unigrams, bar)[i].1 >= bar,
    decreases unigrams.len(),
{
    if unigrams.len() > 0 {
        let before = at_least(unigrams.drop_last(), bar);
        if i < before.len() {
            lemma_at_least_within(unigrams.drop_last(), bar, i);
            let j = choose|j: int|
                0 <= j < unigrams.drop_last().len() && unigrams.drop_last()[j] == before[i];
            assert(unigrams[j] == before[i]);
        } else {
            assert(unigrams[unigrams.len() - 1] == unigrams.last());
        }
    }
}

/// Every allowed unigram is one whose word stands in the dictionary.
pub proof fn lemma_allowed_within(dictionary: Seq<Seq<char>>, unigrams: Seq<Unigram>, i: int)
    requires
        0 <= i < allowed(dictionary, unigrams).len(),
    ensures
        dictionary.contains(allowed(dictionary, unigrams)[i].0),
    decreases unigrams.len(),
{
    if unigrams.len() > 0 {
        let before = allowed(dictionary, unigrams.drop_last());
        if i < before.len() {
            lemma_allowed_within(dictionary, unigrams.drop_last(), i);
        }
    }
}

/// No kept unigram has a word that the dictionary does not allow.
pub proof fn lemma_kept_are_allowed(
    dictionary: Seq<Seq<char>>,
    unigrams: Seq<Unigram>,
    capacity: nat,
    i: int,
)
    requires
        0 <= i < kept_unigrams(dictionary, unigrams, capacity).len(),
    ensures
        dictionary.contains(kept_unigrams(dictionary, unigrams, capacity)[i].0),
        kept_unigrams(dictionary, unigrams, capacity)[i].1 >= threshold(
            allowed(dictionary, unigrams),
            capacity,
        ),
{
    let offered = allowed(dictionary, unigrams);
    let bar = threshold(offered, capacity);
    lemma_at_least_within(offered, bar, i);
    let j = choose|j: int| 0 <= j < offered.len() && offered[j] == at_least(offered, bar)[i];
    lemma_allowed_within(dictionary, unigrams, j);
}

/// Where the total of the kept counts is not zero, the log-probability of
/// a kept unigram is at most zero, since its count is part of the total
/// that it is set against; it is zero exactly where the count is the total.
pub proof fn lemma_unigram_log_probs(kept: Seq<Unigram>, i: int)
    requires
        0 < total_count(kept) <= u32::MAX,
        0 <= i < kept.len(),
    ensures
        fresh_records(kept)[i].log_prob.at_most_zero(),
        fresh_records(kept)[i].log_prob.is_zero() <==> kept[i].1 == total_count(kept),
{
    lemma_count_within_total(kept, i);
}

/// What holds of a selector that is full: a further offer does not lower
/// the smallest count it holds, and it stays full.
proof fn lemma_offer_when_full(held: Multiset<u32>, capacity: nat, value: u32)
    requires
        held.len() == capacity,
        capacity > 0,
    ensures
        offer(held, capacity, value).len() == capacity,
        lowest(held) matches Some(before) && lowest(offer(held, capacity, value)) matches Some(
            after,
        ) && before <= after,
{
    let before = choose|x: u32| is_least(held, x);
    lemma_lowest(held);
    let after_held = offer(held, capacity, value);
    if value > before {
        assert(after_held == held.remove(before).insert(value));
        assert(after_held.len() == capacity);
        lemma_lowest(after_held);
        let after = choose|x: u32| is_least(after_held, x);
        assert(after_held.count(after) > 0);
        if after != value {
            assert(held.count(after) > 0);
        }
    }
}

/// What the first pass hands on: the symbol table and the order-1 table.
pub struct Unigrams {
    /// The kept words; the position of a word is its symbol id.
    pub symbols: WordTable,
    /// One record for each kept word, at the position of the word.
    pub records: Vec<UnigramRecord>,
}

impl Unigrams {
    /// The two tables go together, and every id fits in 32 bits.
    pub open spec fn wf(&self) -> bool {
        &&& self.symbols.wf()
        &&& self.records.len() == self.symbols@.len()
        &&& self.records.len() <= u32::MAX
    }
}

/// The first pass as it runs: unigrams are fed to it one by one, and it keeps
/// those that may still be among the most frequent.
pub struct UnigramFilter {
    heap: LimitedMinHeap,
    threshold: u32,
    buffered: Vec<(String, u32)>,
    offered: Ghost<Seq<Unigram>>,
}

impl UnigramFilter {
    /// The unigrams fed so far that the dictionary allowed, in their order.
    pub closed spec fn offered(&self) -> Seq<Unigram> {
        self.offered@
    }

    /// The number of unigrams to keep, ties at the bar aside.
    pub closed spec fn capacity(&self) -> nat {
        self.heap.capacity()
    }

    /// The filter holds every unigram that reaches the bar as it stands.
    pub closed spec fn wf(&self) -> bool {
        &&& self.heap.wf()
        &&& self.heap@ == selected(self.offered@, self.heap.capacity())
        &&& self.threshold == threshold(self.offered@, self.heap.capacity())
        &&& self.heap@.len() < self.heap.capacity() ==> unigram_views(self.buffered@)
            == self.offered@
        &&& forall|bar: u32|
            bar >= self.threshold ==> #[trigger] at_least(unigram_views(self.buffered@), bar)
                == at_least(self.offered@, bar)
    }

    /// A filter that keeps the `max_no_words` most frequent unigrams. With
    /// `max_no_words == 0` no bar is ever set, and every unigram is kept.
    pub fn new(max_no_words: usize) -> (filter: Self)
        ensures
            filter.wf(),
            filter.offered() == Seq::<Unigram>::empty(),
            filter.capacity() == max_no_words,
    {
        let filter = UnigramFilter {
            heap: LimitedMinHeap::new(max_no_words),
            threshold: 0,
            buffered: Vec::new(),
            offered: Ghost(Seq::empty()),
        };
        proof {
            assert(unigram_views(filter.buffered@) =~= Seq::<Unigram>::empty());
        }
        filter
    }

    /// Feeds the next unigram of the count file. One whose word is not in
    /// the dictionary is passed over.
    pub fn feed(&mut self, dictionary: &WordTable, word: String, count: u32)
        requires
            old(self).wf(),
            dictionary.wf(),
        ensures
            final(self).wf(),
            final(self).capacity() == old(self).capacity(),
            final(self).offered() == if dictionary@.contains(word@) {
                old(self).offered().push((word@, count))
            } else {
                old(self).offered()
            },
    {
        if !dictionary.contains(&word) {
            return ;
        }
        let ghost before = *self;
        let ghost capacity = self.heap.capacity();
        let ghost now = self.offered@.push((word@, count));
        proof {
            before.heap.lemma_bounded();
            assert(now.drop_last() =~= before.offered@);
            if before.heap@.len() >= capacity && capacity > 0 {
                lemma_offer_when_full(before.heap@, capacity, count);
            }
        }
        if let Some(least) = self.heap.insert(count) {
            self.threshold = least;
        }
        self.offered = Ghost(now);
        if count >= self.threshold {
            let ghost held = unigram_views(self.buffered@);
            self.buffered.push((word, count));
            proof {
                assert(unigram_views(self.buffered@) =~= held.push((word@, count)));
                assert(unigram_views(self.buffered@).drop_last() =~= held);
            }
        }
        proof {
            let kept = unigram_views(self.buffered@);
            if before.heap@.len() < capacity {
                assert(self.heap@.count(count) > 0);
                lemma_lowest(self.heap@);
                assert(kept == now);
            } else {
                assert(self.threshold >= before.threshold);
                assert forall|bar: u32| bar >= self.threshold implies #[trigger] at_least(
                    kept,
                    bar,
                ) == at_least(now, bar) by {
                    assert(at_least(unigram_views(before.buffered@), bar) == at_least(
                        before.offered@,
                        bar,
                    ));
                }
            }
        }
    }

    /// Ends the pass: the unigrams that reach the final bar get their ids in
    /// the order in which they were fed.
    pub fn finish(self) -> (outcome: Result<Unigrams, BuildError>)
        requires
            self.wf(),
        ensures
            match outcome {
                Ok(unigrams) => unigrams.wf() && unigram_outcome(
                    at_least(self.offered(), threshold(self.offered(), self.capacity())),
                ) == Ok::<_, BuildError>((unigrams.symbols@, unigrams.records@)),
                Err(error) => unigram_outcome(
                    at_least(self.offered(), threshold(self.offered(), self.capacity())),
                ) == Err::<(Seq<Seq<char>>, Seq<UnigramRecord>), _>(error),
            },
    {
        let bar: u32 = self.threshold;
        let ghost all = unigram_views(self.buffered@);
        let ghost kept = at_least(all, bar);
        let mut symbols = WordTable::new();
        let mut counts: Vec<u32> = Vec::new();
        let mut total: u128 = 0;
        let mut i: usize = 0;
        proof {
            assert(all.take(0) =~= Seq::<Unigram>::empty());
            assert(symbols@ =~= words_of(at_least(all.take(0), bar)));
        }
        while i < self.buffered.len()
            invariant
                i <= self.buffered.len(),
                all == unigram_views(self.buffered@),
                symbols.wf(),
                symbols@ == words_of(at_least(all.take(i as int), bar)),
                counts.len() == symbols@.len(),
                counts.len() <= i,
                forall|k: int|
                    0 <= k < counts.len() ==> counts[k] == (#[trigger] at_least(
                        all.take(i as int),
                        bar,
                    )[k]).1,
                total == total_count(at_least(all.take(i as int), bar)),
                total <= i * 0xFFFF_FFFF,
            decreases self.buffered.len() - i,
        {
            let ghost before = at_least(all.take(i as int), bar);
            proof {
                assert(all.take(i + 1).drop_last() =~= all.take(i as int));
                assert(all.take(i + 1).last() == (self.buffered[i as int].0@, self.buffered[i as int].1));
            }
            if self.buffered[i].1 >= bar {
                symbols.push(self.buffered[i].0.clone());
                counts.push(self.buffered[i].1);
                total = total + self.buffered[i].1 as u128;
                proof {
                    let after = at_least(all.take(i + 1), bar);
                    assert(after == before.push(all[i as int]));
                    assert(after.drop_last() =~= before);
                    assert(symbols@ =~= words_of(after));
                }
            }
            i = i + 1;
        }
        proof {
            assert(all.take(i as int) =~= all);
            assert(kept == at_least(self.offered(), threshold(self.offered(), self.capacity())));
        }
        if total > 0xFFFF_FFFF {
            return Err(BuildError::CountOverflow);
        }
        if counts.len() > 0xFFFF_FFFF {
            return Err(BuildError::TooManyRecords);
        }
        let normalizer: u32 = total as u32;
        let mut records: Vec<UnigramRecord> = Vec::new();
        let mut k: usize = 0;
        while k < counts.len()
            invariant
                k <= counts.len(),
                counts.len() == kept.len(),
                records.len() == k,
                normalizer == total_count(kept),
                forall|j: int| 0 <= j < counts.len() ==> counts[j] == (#[trigger] kept[j]).1,
                forall|j: int| 0 <= j < k ==> #[trigger] records[j] == fresh_records(kept)[j],
            decreases counts.len() - k,
        {
            records.push(
                UnigramRecord {
                    log_prob: LogProb::Ratio { count: counts[k], normalizer },
                    count: counts[k],
                    offset: 0,
                    extent: 0,
                },
            );
            k = k + 1;
        }
        proof {
            assert(records@ =~= fresh_records(kept));
        }
        Ok(Unigrams { symbols, records })
    }
}

/// The first pass over a whole count file: the symbol table and the order-1
/// table of the unigrams that the dictionary allows and that are among the
/// `max_no_words` most frequent of them.
pub fn select_unigrams(
    dictionary: &WordTable,
    unigrams: &Vec<(String, u32)>,
    max_no_words: usize,
) -> (outcome: Result<Unigrams, BuildError>)
    requires
        dictionary.wf(),
    ensures
        match outcome {
            Ok(found) => found.wf() && unigram_outcome(
                kept_unigrams(dictionary@, unigram_views(unigrams@), max_no_words as nat),
            ) == Ok::<_, BuildError>((found.symbols@, found.records@)),
            Err(error) => unigram_outcome(
                kept_unigrams(dictionary@, unigram_views(unigrams@), max_no_words as nat),
            ) == Err::<(Seq<Seq<char>>, Seq<UnigramRecord>), _>(error),
        },
{
    let mut filter = UnigramFilter::new(max_no_words);
    let ghost all = unigram_views(unigrams@);
    let mut i: usize = 0;
    proof {
        assert(all.take(0) =~= Seq::<Unigram>::empty());
    }
    while i < unigrams.len()
        invariant
            i <= unigrams.len(),
            dictionary.wf(),
            all == unigram_views(unigrams@),
            filter.wf(),
            filter.capacity() == max_no_words,
            filter.offered() == allowed(dictionary@, all.take(i as int)),
        decreases unigrams.len() - i,
    {
        proof {
            assert(all.take(i + 1).drop_last() =~= all.take(i as int));
        }
        filter.feed(dictionary, unigrams[i].0.clone(), unigrams[i].1);
        i = i + 1;
    }
    proof {
        assert(all.take(i as int) =~= all);
    }
    filter.finish()
}

} // verus!
