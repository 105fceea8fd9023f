//! The second pass: the bigrams whose two words were kept get their dense
//! indices, and each kept unigram learns where the block of bigrams that
//! begin with it starts and how long it is.

use crate::blocks::{
    first_fault, grouping_fault, in_block, lemma_blocks_add_up, lemma_fault_persists, partitioned,
    run_length, total_extent, Block,
};
use crate::model::{BigramRecord, BuildError, LogProb, UnigramRecord};
use crate::symbols::{symbol_of, WordTable};
use crate::table::{BigramTable, Pair};
use crate::unigrams::Unigrams;
use vstd::prelude::*;

verus! {

/// A kept bigram: the symbol ids of its two words, and its count.
pub struct Bigram {
    pub prefix: u32,
    pub suffix: u32,
    pub count: u32,
}

/// A line of the order-2 count file as the contracts see it.
pub type BigramLine = (Seq<char>, Seq<char>, u32);

/// What a vector of such lines holds.
pub open spec fn bigram_views(lines: Seq<(String, String, u32)>) -> Seq<BigramLine> {
    Seq::new(lines.len(), |i: int| (lines[i].0@, lines[i].1@, lines[i].2))
}

/// The symbol id of `word`, if the word was kept.
pub open spec fn id_of(symbols: Seq<Seq<char>>, word: Seq<char>) -> Option<u32> {
    match symbol_of(symbols, word) {
        Some(id) => Some(id as u32),
        None => None,
    }
}

/// The bigram that a line stands for, if both of its words were kept.
pub open spec fn bigram_of(symbols: Seq<Seq<char>>, line: BigramLine) -> Option<Bigram> {
    match (id_of(symbols, line.0), id_of(symbols, line.1)) {
        (Some(prefix), Some(suffix)) => Some(Bigram { prefix, suffix, count: line.2 }),
        _ => None,
    }
}

/// The bigrams that the lines stand for, in their order. A line with a
/// word that was not kept leaves no trace.
pub open spec fn kept_bigrams(symbols: Seq<Seq<char>>, lines: Seq<BigramLine>) -> Seq<Bigram>
    decreases lines.len(),
{
    if lines.len() == 0 {
        Seq::empty()
    } else {
        let before = kept_bigrams(symbols, lines.drop_last());
        match bigram_of(symbols, lines.last()) {
            Some(bigram) => before.push(bigram),
            None => before,
        }
    }
}

/// The first words of the bigrams.
pub open spec fn prefixes_of(kept: Seq<Bigram>) -> Seq<int> {
    Seq::new(kept.len(), |i: int| kept[i].prefix as int)
}

/// The order-2 table of the kept bigrams before any trigram was read. The
/// dense index of a bigram is its position among the kept ones; its count
/// is set against the count of its first word. Where a pair comes again,
/// the later record takes the place of the earlier.
pub open spec fn bigram_map(kept: Seq<Bigram>, unigrams: Seq<UnigramRecord>) -> Map<
    Pair,
    BigramRecord,
>
    decreases kept.len(),
{
    if kept.len() == 0 {
        Map::empty()
    } else {
        let bigram = kept.last();
        bigram_map(kept.drop_last(), unigrams).insert(
            (bigram.prefix, bigram.suffix),
            BigramRecord {
                index: (kept.len() - 1) as u32,
                log_prob: LogProb::Ratio {
                    count: bigram.count,
                    normalizer: unigrams[bigram.prefix as int].count,
                },
                count: bigram.count,
                offset: 0,
                extent: 0,
            },
        )
    }
}

/// Whether the dense index `j` lies in the block that `record` names.
pub open spec fn within(record: UnigramRecord, j: int) -> bool {
    record.offset <= j < record.offset + record.extent
}

/// How the order-1 table stands after the pass. Counts and
/// log-probabilities are as before. The block of a unigram holds exactly
/// the dense indices of the bigrams that begin with it; a unigram that
/// begins none has an empty block and its offset as before.
pub open spec fn blocks_entered(
    before: Seq<UnigramRecord>,
    after: Seq<UnigramRecord>,
    prefixes: Seq<int>,
) -> bool {
    &&& after.len() == before.len()
    &&& forall|p: int|
        0 <= p < after.len() ==> (#[trigger] after[p]).count == before[p].count && after[p].log_prob
            == before[p].log_prob
    &&& forall|i: int|
        0 <= i < prefixes.len() ==> 0 <= #[trigger] prefixes[i] < after.len() && within(
            after[prefixes[i]],
            i,
        )
    &&& forall|p: int, j: int|
        0 <= p < after.len() && #[trigger] within(after[p], j) ==> 0 <= j < prefixes.len()
            && prefixes[j] == p
    &&& forall|p: int|
        0 <= p < after.len() && !prefixes.contains(p) ==> (#[trigger] after[p]).extent == 0
            && after[p].offset == before[p].offset
}

/// What holds of the block that is still open: it is the block of the
/// last record, it reaches to the end, and its length is yet to be entered.
spec fn open_block(records: Seq<UnigramRecord>, prefixes: Seq<int>, q: int, run: int) -> bool {
    &&& 0 <= q < records.len()
    &&& prefixes.len() > 0
    &&& prefixes.last() == q
    &&& 1 <= run
    &&& run == run_length(prefixes)
    &&& records[q].offset + run == prefixes.len()
    &&& records[q].extent == 0
    &&& forall|j: int| records[q].offset <= j < prefixes.len() ==> #[trigger] prefixes[j] == q
    &&& forall|i: int| 0 <= i < prefixes.len() && #[trigger] prefixes[i] == q ==> records[q].offset <= i
}

/// What holds of the blocks of all unigrams but `open`.
spec fn closed_blocks(
    records: Seq<UnigramRecord>,
    start: Seq<UnigramRecord>,
    prefixes: Seq<int>,
    open: int,
) -> bool {
    &&& forall|i: int|
        0 <= i < prefixes.len() && #[trigger] prefixes[i] != open ==> within(records[prefixes[i]], i)
    &&& forall|p: int, j: int|
        0 <= p < records.len() && p != open && #[trigger] within(records[p], j) ==> 0 <= j
            < prefixes.len() && prefixes[j] == p
    &&& forall|p: int|
        0 <= p < records.len() && !prefixes.contains(p) ==> (#[trigger] records[p]).extent == 0
            && records[p].offset == start[p].offset
}

/// What the second pass hands on.
pub struct Bigrams {
    /// The kept words; the position of a word is its symbol id.
    pub symbols: WordTable,
    /// The order-1 table, with the block of each unigram entered.
    pub unigrams: Vec<UnigramRecord>,
    /// The order-2 table, with no block entered yet.
    pub table: BigramTable,
    /// The number of dense indices given out.
    pub kept: u32,
}

/// The second pass as it runs: the lines of the sorted order-2 count file
/// are fed to it one by one.
pub struct BigramBuilder {
    symbols: WordTable,
    unigrams: Vec<UnigramRecord>,
    table: BigramTable,
    open: Option<u32>,
    run: u16,
    kept: u32,
    seen: Ghost<Seq<Bigram>>,
    start: Ghost<Seq<UnigramRecord>>,
}

impl BigramBuilder {
    /// The kept words.
    pub closed spec fn symbols(&self) -> Seq<Seq<char>> {
        self.symbols@
    }

    /// The order-1 table as the pass found it.
    pub closed spec fn start(&self) -> Seq<UnigramRecord> {
        self.start@
    }

    /// The bigrams kept so far, in their order.
    pub closed spec fn seen(&self) -> Seq<Bigram> {
        self.seen@
    }

    spec fn open_key(&self) -> int {
        match self.open {
            Some(q) => q as int,
            None => -1,
        }
    }

    /// The tables agree with the bigrams kept so far.
    pub closed spec fn wf(&self) -> bool {
        let prefixes = prefixes_of(self.seen@);
        &&& self.symbols.wf()
        &&& self.unigrams.len() == self.symbols@.len()
        &&& self.unigrams.len() == self.start@.len()
        &&& self.unigrams.len() <= u32::MAX
        &&& self.kept == self.seen@.len()
        &&& forall|i: int|
            0 <= i < self.seen@.len() ==> (#[trigger] self.seen@[i]).prefix < self.unigrams.len()
        &&& forall|p: int|
            0 <= p < self.unigrams.len() ==> (#[trigger] self.unigrams[p]).count
                == self.start@[p].count && self.unigrams[p].log_prob == self.start@[p].log_prob
        &&& (self.open is None) == (self.seen@.len() == 0)
        &&& self.open matches Some(q) ==> open_block(
            self.unigrams@,
            prefixes,
            q as int,
            self.run as int,
        )
        &&& closed_blocks(self.unigrams@, self.start@, prefixes, self.open_key())
        &&& self.table@ == bigram_map(self.seen@, self.start@)
    }

    /// A pass that has read nothing yet. The order-1 table comes with its
    /// blocks empty.
    pub fn new(unigrams: Unigrams) -> (builder: Self)
        requires
            unigrams.wf(),
            forall|p: int| 0 <= p < unigrams.records.len() ==> unigrams.records[p].extent == 0,
        ensures
            builder.wf(),
            builder.symbols() == unigrams.symbols@,
            builder.start() == unigrams.records@,
            builder.seen() == Seq::<Bigram>::empty(),
    {
        let builder = BigramBuilder {
            symbols: unigrams.symbols,
            unigrams: unigrams.records,
            table: BigramTable::new(),
            open: None,
            run: 0,
            kept: 0,
            seen: Ghost(Seq::empty()),
            start: Ghost(unigrams.records@),
        };
        builder
    }

    /// Feeds the next line of the count file and says whether its bigram was
    /// kept. A line with a word that was not kept is passed over. The pass
    /// stops, with nothing changed, where the bigram cannot follow those
    /// before it.
    pub fn feed(&mut self, first: &String, second: &String, count: u32) -> (outcome: Result<
        bool,
        BuildError,
    >)
        requires
            old(self).wf(),
        ensures
            final(self).wf(),
            final(self).symbols() == old(self).symbols(),
            final(self).start() == old(self).start(),
            match bigram_of(old(self).symbols(), (first@, second@, count)) {
                Some(bigram) => match grouping_fault(
                    prefixes_of(old(self).seen()),
                    bigram.prefix as int,
                ) {
                    Some(error) => outcome == Err::<bool, BuildError>(error) && final(self).seen()
                        == old(self).seen(),
                    None => outcome == Ok::<bool, BuildError>(true) && final(self).seen() == old(
                        self,
                    ).seen().push(bigram),
                },
                None => outcome == Ok::<bool, BuildError>(false) && final(self).seen() == old(
                    self,
                ).seen(),
            },
    {
        let prefix: u32 = match self.symbols.lookup(first) {
            Some(id) => id as u32,
            None => {
                return Ok(false);
            },
        };
        let suffix: u32 = match self.symbols.lookup(second) {
            Some(id) => id as u32,
            None => {
                return Ok(false);
            },
        };
        let ghost before = *self;
        let ghost bigram = Bigram { prefix, suffix, count };
        let ghost prefixes = prefixes_of(self.seen@);
        let ghost now = self.seen@.push(bigram);
        let ghost grown = prefixes_of(now);
        proof {
            assert(bigram_of(self.symbols@, (first@, second@, count)) == Some(bigram));
            assert(grown =~= prefixes.push(prefix as int));
            assert(grown.drop_last() =~= prefixes);
            assert(now.drop_last() =~= self.seen@);
        }
        if self.kept == 0xFFFF_FFFF {
            return Err(BuildError::TooManyRecords);
        }
        let same: bool = match self.open {
            Some(q) => q == prefix,
            None => false,
        };
        if same {
            if self.run == 0xFFFF {
                return Err(BuildError::BlockTooLong);
            }
            self.run = self.run + 1;
        } else {
            let mut opened: UnigramRecord = self.unigrams[prefix as usize];
            proof {
                if prefixes.contains(prefix as int) {
                    let i = choose|i: int| 0 <= i < prefixes.len() && prefixes[i] == prefix as int;
                    assert(within(self.unigrams@[prefixes[i]], i));
                }
            }
            if opened.extent != 0 {
                return Err(BuildError::PrefixRecurs);
            }
            match self.open {
                Some(q) => {
                    let mut closed: UnigramRecord = self.unigrams[q as usize];
                    closed.extent = self.run;
                    self.unigrams.set(q as usize, closed);
                },
                None => {},
            }
            opened.offset = self.kept;
            self.unigrams.set(prefix as usize, opened);
            self.open = Some(prefix);
            self.run = 1;
        }
        let normalizer: u32 = self.unigrams[prefix as usize].count;
        self.table.insert(
            prefix,
            suffix,
            BigramRecord {
                index: self.kept,
                log_prob: LogProb::Ratio { count, normalizer },
                count,
                offset: 0,
                extent: 0,
            },
        );
        self.kept = self.kept + 1;
        self.seen = Ghost(now);
        proof {
            let records = self.unigrams@;
            let was = before.unigrams@;
            let n = prefixes.len() as int;
            assert forall|i: int| 0 <= i < now.len() implies (#[trigger] now[i]).prefix
                < self.unigrams.len() by {
                if i < n {
                    assert(before.seen@[i].prefix < before.unigrams.len());
                }
            }
            if same {
                assert(open_block(records, grown, prefix as int, self.run as int));
                assert forall|p: int| 0 <= p < records.len() && !grown.contains(p) implies (
                #[trigger] records[p]).extent == 0 && records[p].offset
                    == self.start@[p].offset by {
                    if prefixes.contains(p) {
                        let i = choose|i: int| 0 <= i < prefixes.len() && prefixes[i] == p;
                        assert(grown[i] == p);
                    }
                }
                assert(closed_blocks(records, self.start@, grown, prefix as int));
            } else {
                let q = before.open_key();
                assert(!prefixes.contains(prefix as int)) by {
                    if prefixes.contains(prefix as int) {
                        let i = choose|i: int|
                            0 <= i < prefixes.len() && prefixes[i] == prefix as int;
                        assert(within(was[prefixes[i]], i));
                    }
                }
                assert forall|i: int| 0 <= i < grown.len() && #[trigger] grown[i]
                    == prefix as int implies records[prefix as int].offset <= i by {
                    if i < n {
                        assert(prefixes[i] == prefix as int);
                    }
                }
                assert(open_block(records, grown, prefix as int, 1));
                assert forall|i: int|
                    0 <= i < grown.len() && #[trigger] grown[i] != prefix as int implies within(
                    records[grown[i]],
                    i,
                ) by {
                    assert(prefixes[i] == grown[i]);
                    if grown[i] != q {
                        assert(within(was[prefixes[i]], i));
                    }
                }
                assert forall|p: int, j: int|
                    0 <= p < records.len() && p != prefix as int && #[trigger] within(
                        records[p],
                        j,
                    ) implies 0 <= j < grown.len() && grown[j] == p by {
                    if p == q {
                        assert(prefixes[j] == q);
                    } else {
                        assert(within(was[p], j));
                    }
                    assert(grown[j] == prefixes[j]);
                }
                assert forall|p: int| 0 <= p < records.len() && !grown.contains(p) implies (
                #[trigger] records[p]).extent == 0 && records[p].offset
                    == self.start@[p].offset by {
                    assert(grown[n] == prefix as int);
                    if prefixes.contains(p) {
                        let i = choose|i: int| 0 <= i < prefixes.len() && prefixes[i] == p;
                        assert(grown[i] == p);
                    }
                    if n > 0 {
                        assert(grown[n - 1] == q);
                    }
                    assert(was[p].extent == 0);
                }
                assert(closed_blocks(records, self.start@, grown, prefix as int));
            }
        }
        Ok(true)
    }

    /// Ends the pass: the block that is still open gets its length.
    pub fn finish(self) -> (bigrams: Bigrams)
        requires
            self.wf(),
        ensures
            bigrams.symbols.wf(),
            bigrams.symbols@ == self.symbols(),
            blocks_entered(self.start(), bigrams.unigrams@, prefixes_of(self.seen())),
            bigrams.table@ == bigram_map(self.seen(), self.start()),
            bigrams.kept == self.seen().len(),
    {
        let mut unigrams = self.unigrams;
        let ghost was = unigrams@;
        let ghost prefixes = prefixes_of(self.seen@);
        match self.open {
            Some(q) => {
                let mut closed: UnigramRecord = unigrams[q as usize];
                closed.extent = self.run;
                unigrams.set(q as usize, closed);
            },
            None => {},
        }
        proof {
            let q = self.open_key();
            let records = unigrams@;
            assert forall|i: int| 0 <= i < prefixes.len() implies 0 <= #[trigger] prefixes[i]
                < records.len() && within(records[prefixes[i]], i) by {
                assert(self.seen@[i].prefix < self.unigrams.len());
                if prefixes[i] != q {
                    assert(within(was[prefixes[i]], i));
                }
            }
            assert forall|p: int, j: int|
                0 <= p < records.len() && #[trigger] within(records[p], j) implies 0 <= j
                < prefixes.len() && prefixes[j] == p by {
                if p == q {
                    assert(prefixes[j] == q);
                } else {
                    assert(within(was[p], j));
                }
            }
            assert forall|p: int| 0 <= p < records.len() && !prefixes.contains(p) implies (
            #[trigger] records[p]).extent == 0 && records[p].offset == self.start@[p].offset by {
                if prefixes.len() > 0 && self.open is Some {
                    assert(prefixes[prefixes.len() - 1] == q);
                }
                assert(was[p].extent == 0);
            }
        }
        Bigrams { symbols: self.symbols, unigrams, table: self.table, kept: self.kept }
    }
}

/// The bigrams kept from the first `n` lines are the first of those kept
/// from all lines.
pub proof fn lemma_kept_bigrams_grow(symbols: Seq<Seq<char>>, lines: Seq<BigramLine>, n: int)
    requires
        0 <= n <= lines.len(),
    ensures
        kept_bigrams(symbols, lines.take(n)).len() <= kept_bigrams(symbols, lines).len(),
        kept_bigrams(symbols, lines.take(n)) == kept_bigrams(symbols, lines).take(
            kept_bigrams(symbols, lines.take(n)).len() as int,
        ),
    decreases lines.len(),
{
    if n == lines.len() {
        assert(lines.take(n) =~= lines);
        assert(kept_bigrams(symbols, lines) =~= kept_bigrams(symbols, lines).take(
            kept_bigrams(symbols, lines).len() as int,
        ));
    } else {
        assert(lines.drop_last().take(n) =~= lines.take(n));
        lemma_kept_bigrams_grow(symbols, lines.drop_last(), n);
        let part = kept_bigrams(symbols, lines.take(n));
        let most = kept_bigrams(symbols, lines.drop_last());
        assert(kept_bigrams(symbols, lines).take(part.len() as int) =~= most.take(
            part.len() as int,
        ));
    }
}

/// The blocks that the records of the order-1 table name.
pub open spec fn unigram_blocks(records: Seq<UnigramRecord>) -> Seq<Block> {
    Seq::new(records.len(), |p: int| (records[p].offset as int, records[p].extent as int))
}

/// After the second pass the block lengths of all unigrams add up to the
/// number of kept bigrams.
pub proof fn lemma_unigram_blocks_add_up(
    before: Seq<UnigramRecord>,
    after: Seq<UnigramRecord>,
    prefixes: Seq<int>,
)
    requires
        blocks_entered(before, after, prefixes),
    ensures
        total_extent(unigram_blocks(after)) == prefixes.len(),
{
    let blocks = unigram_blocks(after);
    assert forall|i: int| 0 <= i < prefixes.len() implies 0 <= #[trigger] prefixes[i]
        < blocks.len() && in_block(blocks[prefixes[i]], i) by {
        assert(within(after[prefixes[i]], i));
    }
    assert forall|p: int, j: int|
        0 <= p < blocks.len() && #[trigger] in_block(blocks[p], j) implies 0 <= j
        < prefixes.len() && prefixes[j] == p by {
        assert(within(after[p], j));
    }
    assert(partitioned(blocks, prefixes));
    lemma_blocks_add_up(blocks, prefixes);
}

/// The order-1 table after the second pass is determined by the table
/// before it and the kept bigrams.
pub proof fn lemma_blocks_entered_unique(
    before: Seq<UnigramRecord>,
    one: Seq<UnigramRecord>,
    two: Seq<UnigramRecord>,
    prefixes: Seq<int>,
)
    requires
        blocks_entered(before, one, prefixes),
        blocks_entered(before, two, prefixes),
    ensures
        one == two,
{
    assert forall|p: int| 0 <= p < one.len() implies one[p] == two[p] by {
        let a = one[p];
        let b = two[p];
        if prefixes.contains(p) {
            let i = choose|i: int| 0 <= i < prefixes.len() && prefixes[i] == p;
            assert(within(one[prefixes[i]], i));
            assert(within(two[prefixes[i]], i));
            assert(within(a, a.offset as int));
            assert(within(b, b.offset as int));
            assert(within(a, a.offset + a.extent - 1));
            assert(within(b, b.offset + b.extent - 1));
            assert(within(two[prefixes[a.offset as int]], a.offset as int));
            assert(within(one[prefixes[b.offset as int]], b.offset as int));
            assert(within(two[prefixes[a.offset + a.extent - 1]], a.offset + a.extent - 1));
            assert(within(one[prefixes[b.offset + b.extent - 1]], b.offset + b.extent - 1));
        }
    }
    assert(one =~= two);
}

/// A kept bigram names two kept words.
pub proof fn lemma_kept_bigrams_known(symbols: Seq<Seq<char>>, lines: Seq<BigramLine>, i: int)
    requires
        symbols.len() <= u32::MAX,
        0 <= i < kept_bigrams(symbols, lines).len(),
    ensures
        kept_bigrams(symbols, lines)[i].prefix < symbols.len(),
        kept_bigrams(symbols, lines)[i].suffix < symbols.len(),
    decreases lines.len(),
{
    if lines.len() > 0 {
        let before = kept_bigrams(symbols, lines.drop_last());
        if i < before.len() {
            lemma_kept_bigrams_known(symbols, lines.drop_last(), i);
        } else {
            crate::symbols::lemma_symbol_of(symbols, lines.last().0);
            crate::symbols::lemma_symbol_of(symbols, lines.last().1);
        }
    }
}

/// What the order-2 table holds under a pair comes from a kept bigram of
/// that pair: the last one.
pub proof fn lemma_bigram_map_entry(kept: Seq<Bigram>, unigrams: Seq<UnigramRecord>, pair: Pair)
    requires
        bigram_map(kept, unigrams).contains_key(pair),
        kept.len() <= u32::MAX,
    ensures
        exists|i: int|
            0 <= i < kept.len() && (#[trigger] kept[i]).prefix == pair.0 && kept[i].suffix == pair.1
                && bigram_map(kept, unigrams)[pair] == (BigramRecord {
                index: i as u32,
                log_prob: LogProb::Ratio {
                    count: kept[i].count,
                    normalizer: unigrams[kept[i].prefix as int].count,
                },
                count: kept[i].count,
                offset: 0,
                extent: 0,
            }) && forall|j: int|
                i < j < kept.len() ==> (#[trigger] kept[j]).prefix != pair.0 || kept[j].suffix
                    != pair.1,
    decreases kept.len(),
{
    if kept.len() > 0 {
        let last = kept.last();
        if (last.prefix, last.suffix) == pair {
            assert(kept[kept.len() - 1] == last);
        } else {
            lemma_bigram_map_entry(kept.drop_last(), unigrams, pair);
            let most = kept.drop_last();
            let i = choose|i: int|
                0 <= i < most.len() && (#[trigger] most[i]).prefix == pair.0 && most[i].suffix
                    == pair.1 && bigram_map(most, unigrams)[pair] == (BigramRecord {
                    index: i as u32,
                    log_prob: LogProb::Ratio {
                        count: most[i].count,
                        normalizer: unigrams[most[i].prefix as int].count,
                    },
                    count: most[i].count,
                    offset: 0,
                    extent: 0,
                }) && forall|j: int|
                    i < j < most.len() ==> (#[trigger] most[j]).prefix != pair.0 || most[j].suffix
                        != pair.1;
            assert(kept[i] == most[i]);
            assert forall|j: int| i < j < kept.len() implies (#[trigger] kept[j]).prefix != pair.0
                || kept[j].suffix != pair.1 by {
                if j < most.len() {
                    assert(kept[j] == most[j]);
                }
            }
        }
    }
}

/// The second pass leaves every block of the order-2 table empty.
pub proof fn lemma_bigram_map_unlinked(kept: Seq<Bigram>, unigrams: Seq<UnigramRecord>)
    ensures
        forall|pair: Pair| #[trigger]
            bigram_map(kept, unigrams).contains_key(pair) ==> bigram_map(kept, unigrams)[pair].extent
                == 0 && bigram_map(kept, unigrams)[pair].offset == 0,
    decreases kept.len(),
{
    if kept.len() > 0 {
        lemma_bigram_map_unlinked(kept.drop_last(), unigrams);
    }
}

/// The second pass over a whole count file.
pub fn build_bigrams(unigrams: Unigrams, lines: &Vec<(String, String, u32)>) -> (outcome: Result<
    Bigrams,
    BuildError,
>)
    requires
        unigrams.wf(),
        forall|p: int| 0 <= p < unigrams.records.len() ==> unigrams.records[p].extent == 0,
    ensures
        match outcome {
            Ok(bigrams) => {
                let kept = kept_bigrams(unigrams.symbols@, bigram_views(lines@));
                &&& first_fault(prefixes_of(kept)) is None
                &&& bigrams.symbols.wf()
                &&& bigrams.symbols@ == unigrams.symbols@
                &&& blocks_entered(unigrams.records@, bigrams.unigrams@, prefixes_of(kept))
                &&& bigrams.table@ == bigram_map(kept, unigrams.records@)
                &&& bigrams.kept == kept.len()
            },
            Err(error) => first_fault(
                prefixes_of(kept_bigrams(unigrams.symbols@, bigram_views(lines@))),
            ) == Some(error),
        },
{
    let ghost symbols = unigrams.symbols@;
    let ghost all = bigram_views(lines@);
    let mut builder = BigramBuilder::new(unigrams);
    let mut i: usize = 0;
    proof {
        assert(all.take(0) =~= Seq::<BigramLine>::empty());
    }
    while i < lines.len()
        invariant
            i <= lines.len(),
            all == bigram_views(lines@),
            builder.wf(),
            symbols == unigrams.symbols@,
            builder.symbols() == symbols,
            builder.start() == unigrams.records@,
            builder.seen() == kept_bigrams(symbols, all.take(i as int)),
            first_fault(prefixes_of(builder.seen())) is None,
        decreases lines.len() - i,
    {
        let ghost before = builder.seen();
        proof {
            assert(all.take(i + 1).drop_last() =~= all.take(i as int));
            assert(all.take(i + 1).last() == (lines[i as int].0@, lines[i as int].1@, lines[i as int].2));
        }
        match builder.feed(&lines[i].0, &lines[i].1, lines[i].2) {
            Ok(_) => {
                proof {
                    let after = builder.seen();
                    if after.len() > before.len() {
                        assert(prefixes_of(after).drop_last() =~= prefixes_of(before));
                    }
                }
            },
            Err(error) => {
                proof {
                    let part = kept_bigrams(symbols, all.take(i + 1));
                    let whole = kept_bigrams(symbols, all);
                    assert(prefixes_of(part).drop_last() =~= prefixes_of(before));
                    assert(first_fault(prefixes_of(part)) == Some(error));
                    lemma_kept_bigrams_grow(symbols, all, i + 1);
                    assert(prefixes_of(whole).take(part.len() as int) =~= prefixes_of(part));
                    lemma_fault_persists(prefixes_of(whole), part.len() as int);
                }
                return Err(error);
            },
        }
        i = i + 1;
    }
    proof {
        assert(all.take(i as int) =~= all);
    }
    Ok(builder.finish())
}

} // verus!
