//! The order-2 table: the kept bigrams, found by their two symbol ids and
//! walked in the order of those ids.

use crate::model::BigramRecord;
use std::collections::BTreeMap;
use vstd::prelude::*;
use vstd::std_specs::cmp::OrdSpec;
use vstd::std_specs::iter::IteratorSpec;

verus! {

/// The two symbol ids of a bigram: its first and its second word.
pub type Pair = (u32, u32);

/// The one number under which a pair is filed. Numbers ascend as pairs do.
pub open spec fn pair_key(pair: Pair) -> u64 {
    (pair.0 as u64 * 0x1_0000_0000 + pair.1 as u64) as u64
}

/// Whether `a` comes before `b`: by the first word, then by the second.
pub open spec fn pair_before(a: Pair, b: Pair) -> bool {
    a.0 < b.0 || (a.0 == b.0 && a.1 < b.1)
}

/// Whether `rows` lists the table: each pair of the table once, with its
/// record, ascending by the first word and then by the second.
pub open spec fn listing(table: Map<Pair, BigramRecord>, rows: Seq<(Pair, BigramRecord)>) -> bool {
    &&& table.dom().finite()
    &&& rows.len() == table.dom().len()
    &&& forall|i: int|
        0 <= i < rows.len() ==> table.contains_key((#[trigger] rows[i]).0) && table[rows[i].0]
            == rows[i].1
    &&& forall|i: int, j: int|
        0 <= i < j < rows.len() ==> pair_before((#[trigger] rows[i]).0, (#[trigger] rows[j]).0)
    &&& forall|pair: Pair| #[trigger]
        table.contains_key(pair) ==> exists|i: int|
            0 <= i < rows.len() && (#[trigger] rows[i]).0 == pair
}

/// A table has one listing only.
pub proof fn lemma_listing_unique(
    table: Map<Pair, BigramRecord>,
    one: Seq<(Pair, BigramRecord)>,
    two: Seq<(Pair, BigramRecord)>,
)
    requires
        listing(table, one),
        listing(table, two),
    ensures
        one == two,
{
    assert forall|i: int| 0 <= i < one.len() implies one[i] == two[i] by {
        lemma_listings_agree(table, one, two, i);
    }
    assert(one =~= two);
}

proof fn lemma_listings_agree(
    table: Map<Pair, BigramRecord>,
    one: Seq<(Pair, BigramRecord)>,
    two: Seq<(Pair, BigramRecord)>,
    i: int,
)
    requires
        listing(table, one),
        listing(table, two),
        0 <= i < one.len(),
    ensures
        one[i] == two[i],
    decreases i,
{
    assert forall|k: int| 0 <= k < i implies one[k] == two[k] by {
        lemma_listings_agree(table, one, two, k);
    }
    let a = one[i].0;
    let b = two[i].0;
    assert(table.contains_key(a));
    assert(table.contains_key(b));
    let j = choose|j: int| 0 <= j < two.len() && (#[trigger] two[j]).0 == a;
    let h = choose|h: int| 0 <= h < one.len() && (#[trigger] one[h]).0 == b;
    if j < i {
        assert(one[j] == two[j]);
        assert(pair_before(one[j].0, one[i].0));
    }
    if h < i {
        assert(one[h] == two[h]);
        assert(pair_before(two[h].0, two[i].0));
    }
    if j > i {
        assert(pair_before(two[i].0, two[j].0));
    }
    if h > i {
        assert(pair_before(one[i].0, one[h].0));
    }
    assert(a == b);
}

fn key_of(prefix: u32, suffix: u32) -> (key: u64)
    ensures
        key == pair_key((prefix, suffix)),
{
    prefix as u64 * 0x1_0000_0000 + suffix as u64
}

fn pair_of(key: u64) -> (pair: Pair)
    ensures
        pair_key(pair) == key,
{
    ((key / 0x1_0000_0000) as u32, (key % 0x1_0000_0000) as u32)
}

/// The kept bigrams with what is known of each.
pub struct BigramTable {
    entries: BTreeMap<u64, BigramRecord>,
}

impl View for BigramTable {
    type V = Map<Pair, BigramRecord>;

    /// The record of each pair that the table holds.
    closed spec fn view(&self) -> Map<Pair, BigramRecord> {
        Map::new(
            |pair: Pair| self.entries@.contains_key(pair_key(pair)),
            |pair: Pair| self.entries@[pair_key(pair)],
        )
    }
}

impl BigramTable {
    /// A table without bigrams.
    pub fn new() -> (table: Self)
        ensures
            table@ == Map::<Pair, BigramRecord>::empty(),
    {
        let table = BigramTable { entries: BTreeMap::new() };
        proof {
            assert(table@ =~= Map::<Pair, BigramRecord>::empty());
        }
        table
    }

    /// The record of the bigram `prefix suffix`, if the table holds one.
    pub fn get(&self, prefix: u32, suffix: u32) -> (record: Option<BigramRecord>)
        ensures
            record == if self@.contains_key((prefix, suffix)) {
                Some(self@[(prefix, suffix)])
            } else {
                None
            },
    {
        let key = key_of(prefix, suffix);
        match self.entries.get(&key) {
            Some(record) => Some(*record),
            None => None,
        }
    }

    /// Files `record` under the bigram `prefix suffix`, in place of what
    /// was filed there.
    pub fn insert(&mut self, prefix: u32, suffix: u32, record: BigramRecord)
        ensures
            final(self)@ == old(self)@.insert((prefix, suffix), record),
    {
        let key = key_of(prefix, suffix);
        self.entries.insert(key, record);
        proof {
            assert(self@ =~= old(self)@.insert((prefix, suffix), record));
        }
    }

    /// The number of bigrams in the table.
    pub fn len(&self) -> (n: usize)
        ensures
            self@.dom().finite(),
            n == self@.dom().len(),
    {
        proof {
            self.lemma_same_size();
        }
        self.entries.len()
    }

    /// The table holds as many pairs as it files numbers.
    proof fn lemma_same_size(&self)
        ensures
            self@.dom().finite(),
            self@.dom().len() == self.entries@.dom().len(),
    {
        let keys = self.entries@.dom();
        let pairs = self@.dom();
        let decode = |key: u64| ((key / 0x1_0000_0000) as u32, (key % 0x1_0000_0000) as u32);
        assert forall|a: u64, b: u64| #[trigger] decode(a) == #[trigger] decode(b) implies a
            == b by {
            assert(pair_key(decode(a)) == a);
            assert(pair_key(decode(b)) == b);
        }
        assert(vstd::relations::injective_on(decode, keys));
        assert forall|pair: Pair| keys.map(decode).contains(pair) == pairs.contains(pair) by {
            if pairs.contains(pair) {
                assert(keys.contains(pair_key(pair)));
                assert(decode(pair_key(pair)) == pair);
            }
            if keys.map(decode).contains(pair) {
                let key = choose|key: u64| keys.contains(key) && decode(key) == pair;
                assert(pair_key(decode(key)) == key);
            }
        }
        assert(keys.map(decode) =~= pairs);
        vstd::set_lib::lemma_map_size(keys, pairs, decode);
    }

    /// The bigrams of the table with their records, ascending by the
    /// first word and then by the second: the order in which the order-2
    /// table is written out.
    pub fn rows(&self) -> (rows: Vec<(Pair, BigramRecord)>)
        ensures
            listing(self@, rows@),
    {
        proof {
            self.lemma_same_size();
        }
        let mut rows: Vec<(Pair, BigramRecord)> = Vec::new();
        let walk = self.entries.iter();
        let ghost all = walk.remaining();
        let ghost keys = all.map_values(|kv: (&u64, &BigramRecord)| *kv.0);
        proof {
            vstd::std_specs::btree::axiom_increasing_seq_meaning(keys);
            assert forall|i: int, j: int| 0 <= i < j < keys.len() implies keys[i] < keys[j] by {
                assert(keys[i].cmp_spec(&keys[j]) is Less);
            }
        }
        for item in it: walk
            invariant
                it.seq() == all,
                rows.len() == it.index(),
                forall|i: int|
                    0 <= i < rows.len() ==> pair_key((#[trigger] rows[i]).0) == *all[i].0
                        && rows[i].1 == *all[i].1,
        {
            let pair = pair_of(*item.0);
            rows.push((pair, *item.1));
        }
        proof {
            assert forall|i: int, j: int| 0 <= i < j < rows.len() implies pair_before(
                (#[trigger] rows[i]).0,
                (#[trigger] rows[j]).0,
            ) by {
                assert(keys[i] == pair_key(rows[i].0));
                assert(keys[j] == pair_key(rows[j].0));
                assert(keys[i] < keys[j]);
            }
            assert forall|pair: Pair| #[trigger] self@.contains_key(pair) implies exists|i: int|
                0 <= i < rows.len() && (#[trigger] rows[i]).0 == pair by {
                let key = pair_key(pair);
                assert(self.entries@.contains_key(key));
                assert(all.contains((&key, &self.entries@[key])));
                let i = choose|i: int| 0 <= i < all.len() && all[i] == (&key, &self.entries@[key]);
                assert(pair_key(rows[i].0) == key);
            }
        }
        rows
    }
}

} // verus!
