//! The third pass: the trigrams whose three words were kept are listed in
//! their order, each with the bigram to fall back on, and each bigram
//! learns where the block of trigrams that begin with it starts and how
//! long it is.

use crate::bigrams::id_of;
use crate::blocks::{
    grouping_fault, in_block, lemma_blocks_add_up, partitioned, run_length, total_extent, Block,
};
use crate::model::{BigramRecord, BuildError, LogProb, TrigramRecord};
use crate::symbols::WordTable;
use crate::table::{listing, BigramTable, Pair};
use vstd::prelude::*;

verus! {

/// A kept trigram: the symbol ids of its three words, and its count.
pub struct Trigram {
    pub first: u32,
    pub second: u32,
    pub third: u32,
    pub count: u32,
}

/// A line of the order-3 count file as the contracts see it.
pub type TrigramLine = (Seq<char>, Seq<char>, Seq<char>, u32);

/// What a vector of such lines holds.
pub open spec fn trigram_views(lines: Seq<(String, String, String, u32)>) -> Seq<TrigramLine> {
    Seq::new(lines.len(), |i: int| (lines[i].0@, lines[i].1@, lines[i].2@, lines[i].3))
}

/// The trigram that a line stands for, if all of its words were kept.
pub open spec fn trigram_of(symbols: Seq<Seq<char>>, line: TrigramLine) -> Option<Trigram> {
    match (id_of(symbols, line.0), id_of(symbols, line.1), id_of(symbols, line.2)) {
        (Some(first), Some(second), Some(third)) => Some(
            Trigram { first, second, third, count: line.3 },
        ),
        _ => None,
    }
}

/// The trigrams that the lines stand for, in their order. A line with a
/// word that was not kept leaves no trace.
pub open spec fn kept_trigrams(symbols: Seq<Seq<char>>, lines: Seq<TrigramLine>) -> Seq<Trigram>
    decreases lines.len(),
{
    if lines.len() == 0 {
        Seq::empty()
    } else {
        let before = kept_trigrams(symbols, lines.drop_last());
        match trigram_of(symbols, lines.last()) {
            Some(trigram) => before.push(trigram),
            None => before,
        }
    }
}

/// The first two words of the trigrams.
pub open spec fn pairs_of(kept: Seq<Trigram>) -> Seq<Pair> {
    Seq::new(kept.len(), |i: int| (kept[i].first, kept[i].second))
}

/// The record of a pair as the second pass left it. A pair that the second
/// pass did not see has the record of an entry that was never counted.
pub open spec fn unlinked(start: Map<Pair, BigramRecord>, pair: Pair) -> BigramRecord {
    if start.contains_key(pair) {
        start[pair]
    } else {
        BigramRecord { index: 0, log_prob: LogProb::Zero, count: 0, offset: 0, extent: 0 }
    }
}

/// Why `trigram` cannot follow the trigrams `seen`: its first two words
/// cannot open or lengthen a block, or the bigram of its last two words is
/// neither in the order-2 table as the second pass left it nor the first
/// two words of a trigram up to this one.
pub open spec fn trigram_fault(
    start: Map<Pair, BigramRecord>,
    seen: Seq<Trigram>,
    trigram: Trigram,
) -> Option<BuildError> {
    let pairs = pairs_of(seen);
    match grouping_fault(pairs, (trigram.first, trigram.second)) {
        Some(error) => Some(error),
        None => if start.contains_key((trigram.second, trigram.third)) || pairs.push(
            (trigram.first, trigram.second),
        ).contains((trigram.second, trigram.third)) {
            None
        } else {
            Some(BuildError::MissingBackoff)
        },
    }
}

/// The fault of the first trigram that cannot follow those before it, if
/// there is such a trigram.
pub open spec fn first_trigram_fault(start: Map<Pair, BigramRecord>, kept: Seq<Trigram>) -> Option<
    BuildError,
>
    decreases kept.len(),
{
    if kept.len() == 0 {
        None
    } else {
        match first_trigram_fault(start, kept.drop_last()) {
            Some(error) => Some(error),
            None => trigram_fault(start, kept.drop_last(), kept.last()),
        }
    }
}

/// The order-3 table of the kept trigrams. The count of a trigram is set
/// against the count of its first two words, and the bigram to fall back
/// on is named by its dense index, both as the second pass left them.
pub open spec fn trigram_records(kept: Seq<Trigram>, start: Map<Pair, BigramRecord>) -> Seq<
    TrigramRecord,
> {
    Seq::new(
        kept.len(),
        |i: int|
            TrigramRecord {
                suffix: kept[i].third,
                log_prob: LogProb::Ratio {
                    count: kept[i].count,
                    normalizer: unlinked(start, (kept[i].first, kept[i].second)).count,
                },
                backoff: unlinked(start, (kept[i].second, kept[i].third)).index,
            },
    )
}

/// Whether the dense index `j` lies in the block that `record` names.
pub open spec fn pair_within(record: BigramRecord, j: int) -> bool {
    record.offset <= j < record.offset + record.extent
}

/// How the order-2 table stands after the pass. It holds the pairs it held
/// and the pairs with which a kept trigram begins. Index, log-probability
/// and count of a pair are as the second pass left them. The block of a
/// pair holds exactly the dense indices of the trigrams that begin with
/// it; a pair that begins none has an empty block and its offset as before.
pub open spec fn pair_blocks_entered(
    start: Map<Pair, BigramRecord>,
    after: Map<Pair, BigramRecord>,
    pairs: Seq<Pair>,
) -> bool {
    &&& forall|pair: Pair| #[trigger]
        after.contains_key(pair) <==> start.contains_key(pair) || pairs.contains(pair)
    &&& forall|pair: Pair| #[trigger]
        after.contains_key(pair) ==> after[pair].index == unlinked(start, pair).index
            && after[pair].log_prob == unlinked(start, pair).log_prob && after[pair].count
            == unlinked(start, pair).count
    &&& forall|i: int|
        0 <= i < pairs.len() ==> after.contains_key(#[trigger] pairs[i]) && pair_within(
            after[pairs[i]],
            i,
        )
    &&& forall|pair: Pair, j: int|
        after.contains_key(pair) && #[trigger] pair_within(after[pair], j) ==> 0 <= j
            < pairs.len() && pairs[j] == pair
    &&& forall|pair: Pair| #[trigger]
        after.contains_key(pair) && !pairs.contains(pair) ==> after[pair].extent == 0
            && after[pair].offset == start[pair].offset
}

/// What holds of the block that is still open.
spec fn open_block(table: Map<Pair, BigramRecord>, pairs: Seq<Pair>, q: Pair, run: int) -> bool {
    &&& table.contains_key(q)
    &&& pairs.len() > 0
    &&& pairs.last() == q
    &&& 1 <= run
    &&& run == run_length(pairs)
    &&& table[q].offset + run == pairs.len()
    &&& table[q].extent == 0
    &&& forall|j: int| table[q].offset <= j < pairs.len() ==> #[trigger] pairs[j] == q
    &&& forall|i: int| 0 <= i < pairs.len() && #[trigger] pairs[i] == q ==> table[q].offset <= i
}

/// What holds of the blocks of all pairs but the open one.
spec fn closed_blocks(
    table: Map<Pair, BigramRecord>,
    start: Map<Pair, BigramRecord>,
    pairs: Seq<Pair>,
    open: Option<Pair>,
) -> bool {
    &&& forall|i: int|
        0 <= i < pairs.len() && Some(#[trigger] pairs[i]) != open ==> table.contains_key(pairs[i])
            && pair_within(table[pairs[i]], i)
    &&& forall|pair: Pair, j: int|
        table.contains_key(pair) && Some(pair) != open && #[trigger] pair_within(table[pair], j)
            ==> 0 <= j < pairs.len() && pairs[j] == pair
    &&& forall|pair: Pair| #[trigger]
        table.contains_key(pair) && !pairs.contains(pair) ==> table[pair].extent == 0
            && table[pair].offset == start[pair].offset
}

/// What the third pass hands on.
pub struct Trigrams {
    /// The kept words; the position of a word is its symbol id.
    pub symbols: WordTable,
    /// The order-2 table, with the block of each bigram entered.
    pub table: BigramTable,
    /// The order-3 table; the position of a record is its dense index.
    pub records: Vec<TrigramRecord>,
}

/// The third pass as it runs: the lines of the sorted order-3 count file
/// are fed to it one by one.
pub struct TrigramBuilder {
    symbols: WordTable,
    table: BigramTable,
    records: Vec<TrigramRecord>,
    open: Option<Pair>,
    run: u16,
    normalizer: u32,
    kept: u32,
    seen: Ghost<Seq<Trigram>>,
    start: Ghost<Map<Pair, BigramRecord>>,
}

impl TrigramBuilder {
    /// The kept words.
    pub closed spec fn symbols(&self) -> Seq<Seq<char>> {
        self.symbols@
    }

    /// The order-2 table as the pass found it.
    pub closed spec fn start(&self) -> Map<Pair, BigramRecord> {
        self.start@
    }

    /// The trigrams kept so far, in their order.
    pub closed spec fn seen(&self) -> Seq<Trigram> {
        self.seen@
    }

    /// The tables agree with the trigrams kept so far.
    pub closed spec fn wf(&self) -> bool {
        let pairs = pairs_of(self.seen@);
        let table = self.table@;
        &&& self.symbols.wf()
        &&& self.symbols@.len() <= u32::MAX
        &&& self.kept == self.seen@.len()
        &&& self.records@ == trigram_records(self.seen@, self.start@)
        &&& forall|pair: Pair| #[trigger]
            table.contains_key(pair) <==> self.start@.contains_key(pair) || pairs.contains(pair)
        &&& forall|pair: Pair| #[trigger]
            table.contains_key(pair) ==> table[pair].index == unlinked(self.start@, pair).index
                && table[pair].log_prob == unlinked(self.start@, pair).log_prob
                && table[pair].count == unlinked(self.start@, pair).count
        &&& (self.open is None) == (self.seen@.len() == 0)
        &&& self.open matches Some(q) ==> open_block(table, pairs, q, self.run as int)
            && self.normalizer == unlinked(self.start@, q).count
        &&& closed_blocks(table, self.start@, pairs, self.open)
    }

    /// A pass that has read nothing yet. The order-2 table comes with its
    /// blocks empty.
    pub fn new(symbols: WordTable, table: BigramTable) -> (builder: Self)
        requires
            symbols.wf(),
            symbols@.len() <= u32::MAX,
            forall|pair: Pair| #[trigger] table@.contains_key(pair) ==> table@[pair].extent == 0,
        ensures
            builder.wf(),
            builder.symbols() == symbols@,
            builder.start() == table@,
            builder.seen() == Seq::<Trigram>::empty(),
    {
        let ghost start = table@;
        let builder = TrigramBuilder {
            symbols,
            table,
            records: Vec::new(),
            open: None,
            run: 0,
            normalizer: 0,
            kept: 0,
            seen: Ghost(Seq::empty()),
            start: Ghost(start),
        };
        proof {
            assert(builder.records@ =~= trigram_records(builder.seen@, builder.start@));
        }
        builder
    }

    /// Feeds the next line of the count file and says whether its trigram
    /// was kept. A line with a word that was not kept is passed over. The
    /// pass stops, with nothing changed, where the trigram cannot follow
    /// those before it.
    pub fn feed(&mut self, first: &String, second: &String, third: &String, count: u32) -> (outcome:
        Result<bool, BuildError>)
        requires
            old(self).wf(),
        ensures
            final(self).wf(),
            final(self).symbols() == old(self).symbols(),
            final(self).start() == old(self).start(),
            match trigram_of(old(self).symbols(), (first@, second@, third@, count)) {
                Some(trigram) => match trigram_fault(old(self).start(), old(self).seen(), trigram) {
                    Some(error) => outcome == Err::<bool, BuildError>(error) && final(self).seen()
                        == old(self).seen(),
                    None => outcome == Ok::<bool, BuildError>(true) && final(self).seen() == old(
                        self,
                    ).seen().push(trigram),
                },
                None => outcome == Ok::<bool, BuildError>(false) && final(self).seen() == old(
                    self,
                ).seen(),
            },
    {
        let a: u32 = match self.symbols.lookup(first) {
            Some(id) => id as u32,
            None => {
                return Ok(false);
            },
        };
        let b: u32 = match self.symbols.lookup(second) {
            Some(id) => id as u32,
            None => {
                return Ok(false);
            },
        };
        let c: u32 = match self.symbols.lookup(third) {
            Some(id) => id as u32,
            None => {
                return Ok(false);
            },
        };
        let ghost before = *self;
        let ghost trigram = Trigram { first: a, second: b, third: c, count };
        let ghost pairs = pairs_of(self.seen@);
        let ghost now = self.seen@.push(trigram);
        let ghost grown = pairs_of(now);
        let ghost start = self.start@;
        proof {
            assert(trigram_of(self.symbols@, (first@, second@, third@, count)) == Some(trigram));
            assert(grown =~= pairs.push((a, b)));
            assert(grown.drop_last() =~= pairs);
            assert(now.drop_last() =~= self.seen@);
            assert(grown[pairs.len() as int] == (a, b));
            assert forall|pair: Pair| pairs.contains(pair) implies grown.contains(pair) by {
                let i = choose|i: int| 0 <= i < pairs.len() && pairs[i] == pair;
                assert(grown[i] == pair);
            }
        }
        if self.kept == 0xFFFF_FFFF {
            return Err(BuildError::TooManyRecords);
        }
        let same: bool = match self.open {
            Some(q) => q.0 == a && q.1 == b,
            None => false,
        };
        let found: Option<BigramRecord> = self.table.get(a, b);
        let mut opened: BigramRecord = match found {
            Some(record) => record,
            None => BigramRecord {
                index: 0,
                log_prob: LogProb::Zero,
                count: 0,
                offset: 0,
                extent: 0,
            },
        };
        if same {
            if self.run == 0xFFFF {
                return Err(BuildError::BlockTooLong);
            }
        } else {
            proof {
                if pairs.contains((a, b)) {
                    let i = choose|i: int| 0 <= i < pairs.len() && pairs[i] == (a, b);
                    assert(pair_within(self.table@[pairs[i]], i));
                }
            }
            if opened.extent != 0 {
                return Err(BuildError::PrefixRecurs);
            }
        }
        let fallback: Option<BigramRecord> = if a == b && b == c {
            Some(opened)
        } else {
            self.table.get(b, c)
        };
        let backoff: u32 = match fallback {
            Some(record) => record.index,
            None => {
                proof {
                    if grown.contains((b, c)) {
                        let i = choose|i: int| 0 <= i < grown.len() && grown[i] == (b, c);
                        assert(pairs[i] == (b, c));
                    }
                }
                return Err(BuildError::MissingBackoff);
            },
        };
        proof {
            if a == b && b == c {
                assert(grown.contains((b, c)));
            } else if !start.contains_key((b, c)) {
                assert(pairs.contains((b, c)));
            }
            assert(trigram_fault(start, before.seen@, trigram) is None);
            assert(backoff == unlinked(start, (b, c)).index);
        }
        if same {
            self.run = self.run + 1;
        } else {
            match self.open {
                Some(q) => {
                    match self.table.get(q.0, q.1) {
                        Some(record) => {
                            let mut closed: BigramRecord = record;
                            closed.extent = self.run;
                            self.table.insert(q.0, q.1, closed);
                        },
                        None => {},
                    }
                },
                None => {},
            }
            opened.offset = self.kept;
            self.table.insert(a, b, opened);
            self.open = Some((a, b));
            self.run = 1;
            self.normalizer = opened.count;
        }
        self.records.push(
            TrigramRecord {
                suffix: c,
                log_prob: LogProb::Ratio { count, normalizer: self.normalizer },
                backoff,
            },
        );
        self.kept = self.kept + 1;
        self.seen = Ghost(now);
        proof {
            let table = self.table@;
            let was = before.table@;
            let n = pairs.len() as int;
            let p = (a, b);
            assert(self.records@ =~= trigram_records(now, start));
            assert forall|pair: Pair| #[trigger]
                table.contains_key(pair) <==> start.contains_key(pair) || grown.contains(
                    pair,
                ) by {
                if grown.contains(pair) && pair != p {
                    let i = choose|i: int| 0 <= i < grown.len() && grown[i] == pair;
                    assert(pairs[i] == pair);
                }
                if was.contains_key(pair) {
                    assert(start.contains_key(pair) || pairs.contains(pair));
                }
            }
            assert forall|pair: Pair| #[trigger] table.contains_key(pair) implies table[pair].index
                == unlinked(start, pair).index && table[pair].log_prob == unlinked(
                start,
                pair,
            ).log_prob && table[pair].count == unlinked(start, pair).count by {
                if was.contains_key(pair) {
                    assert(was[pair].index == unlinked(start, pair).index);
                }
            }
            if same {
                assert(table == was);
                assert(open_block(table, grown, p, self.run as int));
                assert forall|pair: Pair| #[trigger]
                    table.contains_key(pair) && !grown.contains(pair) implies table[pair].extent
                    == 0 && table[pair].offset == start[pair].offset by {
                    assert(!pairs.contains(pair));
                }
                assert(closed_blocks(table, start, grown, Some(p)));
            } else {
                assert(!pairs.contains(p)) by {
                    if pairs.contains(p) {
                        let i = choose|i: int| 0 <= i < pairs.len() && pairs[i] == p;
                        assert(pair_within(was[pairs[i]], i));
                    }
                }
                assert forall|i: int| 0 <= i < grown.len() && #[trigger] grown[i]
                    == p implies table[p].offset <= i by {
                    if i < n {
                        assert(pairs[i] == p);
                    }
                }
                assert(open_block(table, grown, p, 1));
                assert forall|i: int| 0 <= i < grown.len() && Some(#[trigger] grown[i]) != Some(
                    p,
                ) implies table.contains_key(grown[i]) && pair_within(table[grown[i]], i) by {
                    assert(pairs[i] == grown[i]);
                    if Some(grown[i]) != before.open {
                        assert(pair_within(was[pairs[i]], i));
                    }
                }
                assert forall|pair: Pair, j: int|
                    table.contains_key(pair) && Some(pair) != Some(p) && #[trigger] pair_within(
                        table[pair],
                        j,
                    ) implies 0 <= j < grown.len() && grown[j] == pair by {
                    if Some(pair) == before.open {
                        assert(pairs[j] == pair);
                    } else {
                        assert(pair_within(was[pair], j));
                    }
                    assert(grown[j] == pairs[j]);
                }
                assert forall|pair: Pair| #[trigger]
                    table.contains_key(pair) && !grown.contains(pair) implies table[pair].extent
                    == 0 && table[pair].offset == start[pair].offset by {
                    assert(!pairs.contains(pair));
                    if n > 0 {
                        assert(grown[n - 1] == before.open->0);
                    }
                    assert(was.contains_key(pair));
                }
                assert(closed_blocks(table, start, grown, Some(p)));
            }
        }
        Ok(true)
    }

    /// Ends the pass: the block that is still open gets its length.
    pub fn finish(self) -> (trigrams: Trigrams)
        requires
            self.wf(),
        ensures
            trigrams.symbols.wf(),
            trigrams.symbols@ == self.symbols(),
            pair_blocks_entered(self.start(), trigrams.table@, pairs_of(self.seen())),
            trigrams.records@ == trigram_records(self.seen(), self.start()),
    {
        let mut table = self.table;
        let ghost was = table@;
        let ghost pairs = pairs_of(self.seen@);
        match self.open {
            Some(q) => {
                match table.get(q.0, q.1) {
                    Some(record) => {
                        let mut closed: BigramRecord = record;
                        closed.extent = self.run;
                        table.insert(q.0, q.1, closed);
                    },
                    None => {},
                }
            },
            None => {},
        }
        proof {
            let after = table@;
            let start = self.start@;
            assert forall|pair: Pair| #[trigger]
                after.contains_key(pair) <==> start.contains_key(pair) || pairs.contains(pair) by {
                assert(was.contains_key(pair) <==> start.contains_key(pair) || pairs.contains(
                    pair,
                ));
            }
            assert forall|pair: Pair| #[trigger] after.contains_key(pair) implies after[pair].index
                == unlinked(start, pair).index && after[pair].log_prob == unlinked(
                start,
                pair,
            ).log_prob && after[pair].count == unlinked(start, pair).count by {
                assert(was.contains_key(pair));
            }
            assert forall|i: int| 0 <= i < pairs.len() implies after.contains_key(
                #[trigger] pairs[i],
            ) && pair_within(after[pairs[i]], i) by {
                if Some(pairs[i]) != self.open {
                    assert(pair_within(was[pairs[i]], i));
                }
            }
            assert forall|pair: Pair, j: int|
                after.contains_key(pair) && #[trigger] pair_within(after[pair], j) implies 0 <= j
                < pairs.len() && pairs[j] == pair by {
                if Some(pair) == self.open {
                    assert(pairs[j] == pair);
                } else {
                    assert(pair_within(was[pair], j));
                }
            }
            assert forall|pair: Pair| #[trigger]
                after.contains_key(pair) && !pairs.contains(pair) implies after[pair].extent == 0
                && after[pair].offset == start[pair].offset by {
                if pairs.len() > 0 && self.open is Some {
                    assert(pairs[pairs.len() - 1] == self.open->0);
                }
                assert(was.contains_key(pair));
            }
        }
        Trigrams { symbols: self.symbols, table, records: self.records }
    }
}

/// The blocks that the rows of the order-2 table name.
pub open spec fn pair_blocks(rows: Seq<(Pair, BigramRecord)>) -> Seq<Block> {
    Seq::new(rows.len(), |r: int| (rows[r].1.offset as int, rows[r].1.extent as int))
}

/// After the third pass the block lengths of all rows of the order-2 table
/// add up to the number of kept trigrams.
pub proof fn lemma_pair_blocks_add_up(
    start: Map<Pair, BigramRecord>,
    after: Map<Pair, BigramRecord>,
    pairs: Seq<Pair>,
    rows: Seq<(Pair, BigramRecord)>,
)
    requires
        pair_blocks_entered(start, after, pairs),
        listing(after, rows),
    ensures
        total_extent(pair_blocks(rows)) == pairs.len(),
{
    let blocks = pair_blocks(rows);
    let owner = Seq::new(
        pairs.len(),
        |i: int| choose|r: int| 0 <= r < rows.len() && (#[trigger] rows[r]).0 == pairs[i],
    );
    assert forall|i: int| 0 <= i < owner.len() implies 0 <= #[trigger] owner[i] < blocks.len()
        && in_block(blocks[owner[i]], i) by {
        assert(after.contains_key(pairs[i]));
        assert(pair_within(after[pairs[i]], i));
        assert(rows[owner[i]].0 == pairs[i]);
    }
    assert forall|s: int, j: int|
        0 <= s < blocks.len() && #[trigger] in_block(blocks[s], j) implies 0 <= j < owner.len()
        && owner[j] == s by {
        let pair = rows[s].0;
        assert(after.contains_key(pair));
        assert(pair_within(after[pair], j));
        assert(pairs[j] == pair);
        assert(after.contains_key(pairs[j]));
        let r = owner[j];
        assert(rows[r].0 == pair);
        if r < s {
            assert(crate::table::pair_before(rows[r].0, rows[s].0));
        }
        if s < r {
            assert(crate::table::pair_before(rows[s].0, rows[r].0));
        }
    }
    assert(partitioned(blocks, owner));
    lemma_blocks_add_up(blocks, owner);
}

/// The order-2 table after the third pass is determined by the table
/// before it and the kept trigrams.
pub proof fn lemma_pair_blocks_unique(
    start: Map<Pair, BigramRecord>,
    one: Map<Pair, BigramRecord>,
    two: Map<Pair, BigramRecord>,
    pairs: Seq<Pair>,
)
    requires
        pair_blocks_entered(start, one, pairs),
        pair_blocks_entered(start, two, pairs),
    ensures
        one == two,
{
    assert forall|pair: Pair| one.contains_key(pair) == two.contains_key(pair) by {
        assert(one.contains_key(pair) <==> start.contains_key(pair) || pairs.contains(pair));
        assert(two.contains_key(pair) <==> start.contains_key(pair) || pairs.contains(pair));
    }
    assert forall|pair: Pair| one.contains_key(pair) implies one[pair] == two[pair] by {
        assert(two.contains_key(pair));
        let a = one[pair];
        let b = two[pair];
        if pairs.contains(pair) {
            let i = choose|i: int| 0 <= i < pairs.len() && pairs[i] == pair;
            assert(pair_within(one[pairs[i]], i));
            assert(pair_within(two[pairs[i]], i));
            assert(pair_within(a, a.offset as int));
            assert(pair_within(b, b.offset as int));
            assert(pair_within(a, a.offset + a.extent - 1));
            assert(pair_within(b, b.offset + b.extent - 1));
            assert(pair_within(two[pairs[a.offset as int]], a.offset as int));
            assert(pair_within(one[pairs[b.offset as int]], b.offset as int));
            assert(pair_within(two[pairs[a.offset + a.extent - 1]], a.offset + a.extent - 1));
            assert(pair_within(one[pairs[b.offset + b.extent - 1]], b.offset + b.extent - 1));
        }
    }
    assert(one =~= two);
}

/// A kept trigram names three kept words.
pub proof fn lemma_kept_trigrams_known(symbols: Seq<Seq<char>>, lines: Seq<TrigramLine>, i: int)
    requires
        symbols.len() <= u32::MAX,
        0 <= i < kept_trigrams(symbols, lines).len(),
    ensures
        kept_trigrams(symbols, lines)[i].first < symbols.len(),
        kept_trigrams(symbols, lines)[i].second < symbols.len(),
        kept_trigrams(symbols, lines)[i].third < symbols.len(),
    decreases lines.len(),
{
    if lines.len() > 0 {
        let before = kept_trigrams(symbols, lines.drop_last());
        if i < before.len() {
            lemma_kept_trigrams_known(symbols, lines.drop_last(), i);
        } else {
            crate::symbols::lemma_symbol_of(symbols, lines.last().0);
            crate::symbols::lemma_symbol_of(symbols, lines.last().1);
            crate::symbols::lemma_symbol_of(symbols, lines.last().2);
        }
    }
}

/// The trigrams kept from the first `n` lines are the first of those kept
/// from all lines.
pub proof fn lemma_kept_trigrams_grow(symbols: Seq<Seq<char>>, lines: Seq<TrigramLine>, n: int)
    requires
        0 <= n <= lines.len(),
    ensures
        kept_trigrams(symbols, lines.take(n)).len() <= kept_trigrams(symbols, lines).len(),
        kept_trigrams(symbols, lines.take(n)) == kept_trigrams(symbols, lines).take(
            kept_trigrams(symbols, lines.take(n)).len() as int,
        ),
    decreases lines.len(),
{
    if n == lines.len() {
        assert(lines.take(n) =~= lines);
        assert(kept_trigrams(symbols, lines) =~= kept_trigrams(symbols, lines).take(
            kept_trigrams(symbols, lines).len() as int,
        ));
    } else {
        assert(lines.drop_last().take(n) =~= lines.take(n));
        lemma_kept_trigrams_grow(symbols, lines.drop_last(), n);
        let part = kept_trigrams(symbols, lines.take(n));
        let most = kept_trigrams(symbols, lines.drop_last());
        assert(kept_trigrams(symbols, lines).take(part.len() as int) =~= most.take(
            part.len() as int,
        ));
    }
}

/// A fault among the first `n` trigrams is the fault of all of them.
pub proof fn lemma_trigram_fault_persists(
    start: Map<Pair, BigramRecord>,
    kept: Seq<Trigram>,
    n: int,
)
    requires
        0 <= n <= kept.len(),
        first_trigram_fault(start, kept.take(n)) is Some,
    ensures
        first_trigram_fault(start, kept) == first_trigram_fault(start, kept.take(n)),
    decreases kept.len(),
{
    if n == kept.len() {
        assert(kept.take(n) =~= kept);
    } else {
        assert(kept.drop_last().take(n) =~= kept.take(n));
        lemma_trigram_fault_persists(start, kept.drop_last(), n);
    }
}

/// The third pass over a whole count file.
pub fn build_trigrams(
    symbols: WordTable,
    table: BigramTable,
    lines: &Vec<(String, String, String, u32)>,
) -> (outcome: Result<Trigrams, BuildError>)
    requires
        symbols.wf(),
        symbols@.len() <= u32::MAX,
        forall|pair: Pair| #[trigger] table@.contains_key(pair) ==> table@[pair].extent == 0,
    ensures
        match outcome {
            Ok(trigrams) => {
                let kept = kept_trigrams(symbols@, trigram_views(lines@));
                &&& first_trigram_fault(table@, kept) is None
                &&& trigrams.symbols.wf()
                &&& trigrams.symbols@ == symbols@
                &&& pair_blocks_entered(table@, trigrams.table@, pairs_of(kept))
                &&& trigrams.records@ == trigram_records(kept, table@)
            },
            Err(error) => first_trigram_fault(
                table@,
                kept_trigrams(symbols@, trigram_views(lines@)),
            ) == Some(error),
        },
{
    let ghost words = symbols@;
    let ghost start = table@;
    let ghost all = trigram_views(lines@);
    let mut builder = TrigramBuilder::new(symbols, table);
    let mut i: usize = 0;
    proof {
        assert(all.take(0) =~= Seq::<TrigramLine>::empty());
    }
    while i < lines.len()
        invariant
            i <= lines.len(),
            all == trigram_views(lines@),
            words == symbols@,
            start == table@,
            builder.wf(),
            builder.symbols() == words,
            builder.start() == start,
            builder.seen() == kept_trigrams(words, all.take(i as int)),
            first_trigram_fault(start, builder.seen()) is None,
        decreases lines.len() - i,
    {
        let ghost before = builder.seen();
        proof {
            assert(all.take(i + 1).drop_last() =~= all.take(i as int));
            assert(all.take(i + 1).last() == (
                lines[i as int].0@,
                lines[i as int].1@,
                lines[i as int].2@,
                lines[i as int].3,
            ));
        }
        match builder.feed(&lines[i].0, &lines[i].1, &lines[i].2, lines[i].3) {
            Ok(_) => {
                proof {
                    let after = builder.seen();
                    if after.len() > before.len() {
                        assert(after.drop_last() =~= before);
                    }
                }
            },
            Err(error) => {
                proof {
                    let part = kept_trigrams(words, all.take(i + 1));
                    let whole = kept_trigrams(words, all);
                    assert(part.drop_last() =~= before);
                    assert(first_trigram_fault(start, part) == Some(error));
                    lemma_kept_trigrams_grow(words, all, i + 1);
                    lemma_trigram_fault_persists(start, whole, part.len() as int);
                }
                return Err(error);
            },
        }
        i = i + 1;
    }
    proof {
        assert(all.take(i as int) =~= all);
    }
    Ok(builder.finish())
}

} // verus!
