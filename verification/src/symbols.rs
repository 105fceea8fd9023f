//! Tables of words: the dictionary of allowed words and the symbol table,
//! which gives each kept word its dense id.

use crate::text::word_views;
use std::collections::HashMap;
use vstd::prelude::*;
use vstd::string::*;
use vstd::utf8::encode_utf8;

verus! {

/// The id under which `word` is found in a list of words: the position of
/// its last occurrence.
pub open spec fn symbol_of(words: Seq<Seq<char>>, word: Seq<char>) -> Option<nat>
    decreases words.len(),
{
    if words.len() == 0 {
        None
    } else if words.last() == word {
        Some((words.len() - 1) as nat)
    } else {
        symbol_of(words.drop_last(), word)
    }
}

/// `symbol_of` finds a word exactly where it occurs, and then at the
/// position after which it occurs no more.
pub proof fn lemma_symbol_of(words: Seq<Seq<char>>, word: Seq<char>)
    ensures
        match symbol_of(words, word) {
            Some(id) => id < words.len() && words[id as int] == word && forall|j: int|
                id < j < words.len() ==> words[j] != word,
            None => forall|j: int| 0 <= j < words.len() ==> words[j] != word,
        },
    decreases words.len(),
{
    if words.len() > 0 && words.last() != word {
        lemma_symbol_of(words.drop_last(), word);
        match symbol_of(words, word) {
            Some(id) => {
                assert forall|j: int| id < j < words.len() implies words[j] != word by {
                    if j < words.len() - 1 {
                        assert(words.drop_last()[j] == words[j]);
                    }
                }
            },
            None => {
                assert forall|j: int| 0 <= j < words.len() implies words[j] != word by {
                    if j < words.len() - 1 {
                        assert(words.drop_last()[j] == words[j]);
                    }
                }
            },
        }
    }
}

/// The word at `id` is found at `id` where it does not occur again after
/// it.
pub proof fn lemma_symbol_found(words: Seq<Seq<char>>, id: int)
    requires
        0 <= id < words.len(),
        forall|j: int| id < j < words.len() ==> words[j] != words[id],
    ensures
        symbol_of(words, words[id]) == Some(id as nat),
{
    lemma_symbol_of(words, words[id]);
}

spec fn bytes_code(bytes: Seq<u8>) -> u64
    decreases bytes.len(),
{
    if bytes.len() == 0 {
        0
    } else {
        ((bytes_code(bytes.drop_last()) * 1099511628211 + bytes.last())
            % 2305843009213693951) as u64
    }
}

/// The number by which a word is filed: words of different numbers differ.
spec fn word_code(word: Seq<char>) -> u64 {
    bytes_code(encode_utf8(word))
}

fn code_of(word: &String) -> (code: u64)
    ensures
        code == word_code(word@),
{
    let bytes = word.as_str().as_bytes();
    let mut code: u64 = 0;
    let mut i: usize = 0;
    while i < bytes.len()
        invariant
            i <= bytes.len(),
            bytes@ == encode_utf8(word@),
            code == bytes_code(bytes@.take(i as int)),
            code < 2305843009213693951,
        decreases bytes.len() - i,
    {
        proof {
            assert(bytes@.take(i + 1).drop_last() =~= bytes@.take(i as int));
        }
        let wide: u128 = (code as u128) * 1099511628211 + (bytes[i] as u128);
        code = (wide % 2305843009213693951) as u64;
        i = i + 1;
    }
    proof {
        assert(bytes@.take(i as int) =~= bytes@);
    }
    code
}

/// The ids filed under `code`: each is the position of a word of that
/// number, and they ascend.
spec fn filed(words: Seq<String>, code: u64, ids: Seq<usize>) -> bool {
    &&& forall|k: int|
        0 <= k < ids.len() ==> (#[trigger] ids[k]) < words.len() && word_code(
            words[ids[k] as int]@,
        ) == code
    &&& forall|a: int, b: int| 0 <= a < b < ids.len() ==> ids[a] < ids[b]
}

/// A list of words that can be searched by word. A word may stand in it
/// more than once; it is then found at its last position.
pub struct WordTable {
    words: Vec<String>,
    files: HashMap<u64, Vec<usize>>,
}

impl View for WordTable {
    type V = Seq<Seq<char>>;

    /// The words, in the order in which they were added.
    closed spec fn view(&self) -> Seq<Seq<char>> {
        word_views(self.words@)
    }
}

impl WordTable {
    /// Every word is filed where a search will look for it.
    pub closed spec fn wf(&self) -> bool {
        &&& forall|code: u64| #[trigger]
            self.files@.contains_key(code) ==> filed(self.words@, code, self.files@[code]@)
        &&& forall|i: int|
            0 <= i < self.words.len() ==> self.files@.contains_key(
                word_code(#[trigger] self.words[i]@),
            ) && self.files@[word_code(self.words[i]@)]@.contains(i as usize)
    }

    /// A table without words.
    pub fn new() -> (table: Self)
        ensures
            table.wf(),
            table@ == Seq::<Seq<char>>::empty(),
    {
        let table = WordTable { words: Vec::new(), files: HashMap::new() };
        proof {
            assert(table@ =~= Seq::<Seq<char>>::empty());
        }
        table
    }

    /// The number of words in the table.
    pub fn len(&self) -> (n: usize)
        ensures
            n == self@.len(),
    {
        self.words.len()
    }

    /// The word at position `id`.
    pub fn word(&self, id: usize) -> (word: &String)
        requires
            id < self@.len(),
        ensures
            word@ == self@[id as int],
    {
        &self.words[id]
    }

    /// The words in the order of their positions.
    pub fn words(&self) -> (words: &Vec<String>)
        ensures
            word_views(words@) == self@,
    {
        &self.words
    }

    /// Adds `word` at the end of the table and returns its position.
    pub fn push(&mut self, word: String) -> (id: usize)
        requires
            old(self).wf(),
        ensures
            final(self).wf(),
            final(self)@ == old(self)@.push(word@),
            id == old(self)@.len(),
    {
        let id: usize = self.words.len();
        let code = code_of(&word);
        let ghost before = *self;
        let mut ids: Vec<usize> = match self.files.remove(&code) {
            Some(ids) => ids,
            None => Vec::new(),
        };
        ids.push(id);
        self.files.insert(code, ids);
        self.words.push(word);
        proof {
            assert(self@ =~= before@.push(word@));
            assert forall|c: u64| #[trigger] self.files@.contains_key(c) implies filed(
                self.words@,
                c,
                self.files@[c]@,
            ) by {
                if c != code {
                    assert(before.files@.contains_key(c));
                    assert(filed(before.words@, c, before.files@[c]@));
                } else if before.files@.contains_key(code) {
                    assert(filed(before.words@, code, before.files@[code]@));
                }
            }
            assert forall|i: int| 0 <= i < self.words.len() implies self.files@.contains_key(
                word_code(#[trigger] self.words[i]@),
            ) && self.files@[word_code(self.words[i]@)]@.contains(i as usize) by {
                if i == id {
                    assert(self.files@[code]@[self.files@[code]@.len() - 1] == id);
                } else {
                    assert(before.words[i]@ == self.words[i]@);
                    let c = word_code(before.words[i]@);
                    assert(before.files@[c]@.contains(i as usize));
                    if c == code {
                        let k = choose|k: int|
                            0 <= k < before.files@[c]@.len() && before.files@[c]@[k] == i as usize;
                        assert(self.files@[c]@[k] == i as usize);
                    }
                }
            }
        }
        id
    }

    /// The position at which `word` is found, if it stands in the table.
    pub fn lookup(&self, word: &String) -> (id: Option<usize>)
        requires
            self.wf(),
        ensures
            match id {
                Some(id) => id < self@.len() && symbol_of(self@, word@) == Some(id as nat),
                None => symbol_of(self@, word@) is None,
            },
    {
        let code = code_of(word);
        proof {
            lemma_symbol_of(self@, word@);
        }
        match self.files.get(&code) {
            Some(ids) => {
                assert(filed(self.words@, code, ids@));
                let mut k: usize = ids.len();
                while k > 0
                    invariant
                        self.wf(),
                        k <= ids.len(),
                        self.files@.contains_key(code),
                        self.files@[code] == *ids,
                        filed(self.words@, code, ids@),
                        code == word_code(word@),
                        forall|h: int| k <= h < ids.len() ==> self.words[ids[h] as int]@ != word@,
                    decreases k,
                {
                    k = k - 1;
                    let at: usize = ids[k];
                    if self.words[at] == *word {
                        proof {
                            assert forall|j: int| at < j < self@.len() implies self@[j]
                                != word@ by {
                                if self@[j] == word@ {
                                    assert(self.words[j]@ == word@);
                                    assert(ids@.contains(j as usize));
                                    let h = choose|h: int|
                                        0 <= h < ids.len() && ids[h] == j as usize;
                                    assert(h > k);
                                }
                            }
                            assert(self@[at as int] == word@);
                            lemma_symbol_found(self@, at as int);
                        }
                        return Some(at);
                    }
                }
                proof {
                    assert forall|j: int| 0 <= j < self@.len() implies self@[j] != word@ by {
                        if self@[j] == word@ {
                            assert(self.words[j]@ == word@);
                            assert(ids@.contains(j as usize));
                        }
                    }
                }
                None
            },
            None => {
                proof {
                    assert forall|j: int| 0 <= j < self@.len() implies self@[j] != word@ by {
                        if self@[j] == word@ {
                            assert(self.words[j]@ == word@);
                        }
                    }
                }
                None
            },
        }
    }

    /// Whether `word` stands in the table.
    pub fn contains(&self, word: &String) -> (found: bool)
        requires
            self.wf(),
        ensures
            found == self@.contains(word@),
    {
        proof {
            lemma_symbol_of(self@, word@);
        }
        self.lookup(word).is_some()
    }

    /// The table of the given words, in their order.
    pub fn from_words(words: Vec<String>) -> (table: Self)
        ensures
            table.wf(),
            table@ == word_views(words@),
    {
        let mut table = WordTable::new();
        let mut i: usize = 0;
        while i < words.len()
            invariant
                i <= words.len(),
                table.wf(),
                table@ == word_views(words@).take(i as int),
            decreases words.len() - i,
        {
            proof {
                assert(word_views(words@).take(i + 1) =~= word_views(words@).take(i as int).push(
                    words[i as int]@,
                ));
            }
            table.push(words[i].clone());
            i = i + 1;
        }
        proof {
            assert(word_views(words@).take(i as int) =~= word_views(words@));
        }
        table
    }
}

} // verus!
