//! Reading the records of the count files: fields separated by white space,
//! counts in decimal.

use vstd::prelude::*;

verus! {

/// The texts that a vector of strings holds, in order.
pub open spec fn word_views(words: Seq<String>) -> Seq<Seq<char>> {
    Seq::new(words.len(), |i: int| words[i]@)
}

/// Whether `c` is white space as Unicode defines it.
pub open spec fn is_space(c: char) -> bool {
    let n = c as u32;
    ||| 0x09 <= n <= 0x0D
    ||| n == 0x20
    ||| n == 0x85
    ||| n == 0xA0
    ||| n == 0x1680
    ||| 0x2000 <= n <= 0x200A
    ||| n == 0x2028
    ||| n == 0x2029
    ||| n == 0x202F
    ||| n == 0x205F
    ||| n == 0x3000
}

/// The fields of a line: its longest runs of characters that are not white
/// space, from left to right. Reading the line up to its last character and
/// then that character, the character is skipped if it is white space,
/// lengthens the last field if the character before it belongs to a field,
/// and starts a new field otherwise.
pub open spec fn fields(line: Seq<char>) -> Seq<Seq<char>>
    decreases line.len(),
{
    if line.len() == 0 {
        Seq::empty()
    } else {
        let before = fields(line.drop_last());
        let c = line.last();
        if is_space(c) {
            before
        } else if line.len() >= 2 && !is_space(line[line.len() - 2]) {
            before.drop_last().push(before.last().push(c))
        } else {
            before.push(seq![c])
        }
    }
}

/// A line that ends in a character that is not white space has a field.
proof fn lemma_fields_after_word(line: Seq<char>)
    requires
        line.len() > 0,
        !is_space(line.last()),
    ensures
        fields(line).len() > 0,
    decreases line.len(),
{
    if line.len() >= 2 && !is_space(line[line.len() - 2]) {
        assert(line.drop_last().last() == line[line.len() - 2]);
        lemma_fields_after_word(line.drop_last());
    }
}

/// No field is empty, and none holds white space.
pub proof fn lemma_fields_hold_no_space(line: Seq<char>, i: int)
    requires
        0 <= i < fields(line).len(),
    ensures
        fields(line)[i].len() > 0,
        forall|k: int| 0 <= k < fields(line)[i].len() ==> !is_space(#[trigger] fields(line)[i][k]),
    decreases line.len(),
{
    if line.len() > 0 {
        let before = fields(line.drop_last());
        let c = line.last();
        if is_space(c) {
            lemma_fields_hold_no_space(line.drop_last(), i);
        } else if line.len() >= 2 && !is_space(line[line.len() - 2]) {
            assert(line.drop_last().last() == line[line.len() - 2]);
            lemma_fields_after_word(line.drop_last());
            if i < before.len() - 1 {
                lemma_fields_hold_no_space(line.drop_last(), i);
            } else {
                lemma_fields_hold_no_space(line.drop_last(), before.len() - 1);
            }
        } else if i < before.len() {
            lemma_fields_hold_no_space(line.drop_last(), i);
        }
    }
}

/// What is left of a line after trimming neither begins nor ends with
/// white space.
pub proof fn lemma_trimmed_ends(line: Seq<char>)
    ensures
        trimmed(line).len() > 0 ==> !is_space(trimmed(line).first()) && !is_space(
            trimmed(line).last(),
        ),
    decreases line.len(),
{
    if line.len() > 0 {
        if is_space(line.last()) {
            lemma_trimmed_ends(line.drop_last());
        } else if is_space(line.first()) {
            lemma_trimmed_ends(line.drop_first());
        }
    }
}

/// The line without the white space at its two ends.
pub open spec fn trimmed(line: Seq<char>) -> Seq<char>
    decreases line.len(),
{
    if line.len() == 0 {
        line
    } else if is_space(line.last()) {
        trimmed(line.drop_last())
    } else if is_space(line.first()) {
        trimmed(line.drop_first())
    } else {
        line
    }
}

/// The value of a decimal digit.
pub open spec fn digit_value(c: char) -> Option<nat> {
    let n = c as u32;
    if 0x30 <= n <= 0x39 {
        Some((n - 0x30) as nat)
    } else {
        None
    }
}

/// The number that a non-empty run of decimal digits writes; `None` for
/// the empty text and for one that holds anything but digits.
pub open spec fn digits_value(text: Seq<char>) -> Option<nat>
    decreases text.len(),
{
    if text.len() == 0 {
        None
    } else if text.len() == 1 {
        digit_value(text[0])
    } else {
        match (digits_value(text.drop_last()), digit_value(text.last())) {
            (Some(high), Some(low)) => Some(10 * high + low),
            _ => None,
        }
    }
}

/// The number that `text` writes if it fits under `limit`: decimal digits
/// after at most one leading `+`.
pub open spec fn number_value(text: Seq<char>, limit: nat) -> Option<nat> {
    let digits = if text.len() > 0 && text[0] == '+' {
        text.drop_first()
    } else {
        text
    };
    match digits_value(digits) {
        Some(value) => if value <= limit {
            Some(value)
        } else {
            None
        },
        None => None,
    }
}

/// The numbers that the texts write, in order, if each of them writes one
/// that fits under `limit`.
pub open spec fn number_values(texts: Seq<Seq<char>>, limit: nat) -> Option<Seq<nat>>
    decreases texts.len(),
{
    if texts.len() == 0 {
        Some(Seq::empty())
    } else {
        match (number_values(texts.drop_last(), limit), number_value(texts.last(), limit)) {
            (Some(values), Some(value)) => Some(values.push(value)),
            _ => None,
        }
    }
}

/// What a line of an order-`n` count file says: it holds `n + 1` fields, the
/// first `n` of them the words and the last one the count. `None` where the
/// line holds fewer or more fields, or the count is no number that fits in
/// 32 bits.
pub open spec fn ngram_record(line: Seq<char>, n: nat) -> Option<(Seq<Seq<char>>, u32)> {
    let parts = fields(line);
    if parts.len() == n + 1 {
        match number_value(parts[n as int], u32::MAX as nat) {
            Some(count) => Some((parts.take(n as int), count as u32)),
            None => None,
        }
    } else {
        None
    }
}

/// What a line of a processed order-`n` file says. Unless the file holds
/// the longest n-grams, the first field is a state id. For `n == 1` the one
/// label is the state id less one; otherwise the next `n` fields are the
/// labels. The field after them is the count. `None` where a field is
/// missing or writes no number that fits, and where the label of an order-1
/// line cannot be formed.
pub open spec fn processed_record(line: Seq<char>, n: nat, is_longest_ngram: bool) -> Option<
    (Option<usize>, Seq<usize>, usize),
> {
    let parts = fields(line);
    let lead: nat = if is_longest_ngram {
        0
    } else {
        1
    };
    let width: nat = if n == 1 {
        0
    } else {
        n
    };
    if parts.len() <= lead + width {
        None
    } else {
        let state = if is_longest_ngram {
            None
        } else {
            number_value(parts[0], usize::MAX as nat)
        };
        let labels = if n == 1 {
            match state {
                Some(id) => if id >= 1 {
                    Some(seq![(id - 1) as nat])
                } else {
                    None
                },
                None => None,
            }
        } else {
            number_values(parts.subrange(lead as int, (lead + width) as int), usize::MAX as nat)
        };
        let count = number_value(parts[(lead + width) as int], usize::MAX as nat);
        if !is_longest_ngram && state is None {
            None
        } else {
            match (labels, count) {
                (Some(labels), Some(count)) => Some(
                    (
                        match state {
                            Some(id) => Some(id as usize),
                            None => None,
                        },
                        Seq::new(labels.len(), |i: int| labels[i] as usize),
                        count as usize,
                    ),
                ),
                _ => None,
            }
        }
    }
}

/// A run of digits writes a number only if each run that it begins with
/// writes one, and that one is no larger.
proof fn lemma_digits_prefix(text: Seq<char>, k: int)
    requires
        0 < k <= text.len(),
    ensures
        digits_value(text) matches Some(whole) ==> (digits_value(text.take(k)) matches Some(part)
            && part <= whole),
    decreases text.len(),
{
    if k == text.len() {
        assert(text.take(k) =~= text);
    } else {
        assert(text.drop_last().take(k) =~= text.take(k));
        lemma_digits_prefix(text.drop_last(), k);
    }
}

/// Whether `c` is white space.
pub fn is_whitespace(c: char) -> (space: bool)
    ensures
        space == is_space(c),
{
    let n: u32 = c as u32;
    (0x09 <= n && n <= 0x0D) || n == 0x20 || n == 0x85 || n == 0xA0 || n == 0x1680 || (0x2000 <= n
        && n <= 0x200A) || n == 0x2028 || n == 0x2029 || n == 0x202F || n == 0x205F || n == 0x3000
}

/// The characters of `line`, one by one.
fn chars_of(line: &str) -> (chars: Vec<char>)
    ensures
        chars@ == line@,
{
    let mut chars: Vec<char> = Vec::new();
    let source = line.chars();
    for c in it: source
        invariant
            it.seq() == line@,
            chars@ == it.seq().take(it.index()),
    {
        chars.push(c);
    }
    chars
}

/// Splits `line` into its fields.
pub fn split_whitespace(line: &str) -> (parts: Vec<String>)
    ensures
        word_views(parts@) == fields(line@),
{
    let chars = chars_of(line);
    let mut parts: Vec<String> = Vec::new();
    let mut start: usize = 0;
    let mut i: usize = 0;
    proof {
        assert(line@.take(0) =~= Seq::<char>::empty());
        assert(word_views(parts@) =~= fields(line@.take(0)));
    }
    while i < chars.len()
        invariant
            chars@ == line@,
            start <= i <= chars.len(),
            i > 0 && !is_space(chars@[i - 1]) ==> start < i && fields(line@.take(i as int))
                == word_views(parts@).push(line@.subrange(start as int, i as int)),
            i == 0 || is_space(chars@[i - 1]) ==> fields(line@.take(i as int)) == word_views(
                parts@,
            ),
        decreases chars.len() - i,
    {
        let space = is_whitespace(chars[i]);
        let inside = i > 0 && !is_whitespace(chars[i - 1]);
        proof {
            assert(line@.take(i + 1).drop_last() =~= line@.take(i as int));
            if !space && inside {
                assert(line@.subrange(start as int, i as int).push(line@[i as int])
                    =~= line@.subrange(start as int, i + 1));
                assert(word_views(parts@).push(line@.subrange(start as int, i as int)).drop_last()
                    =~= word_views(parts@));
            }
            if !space && !inside {
                assert(seq![line@[i as int]] =~= line@.subrange(i as int, i + 1));
            }
        }
        if space && inside {
            let part = line.substring_char(start, i).to_owned();
            proof {
                assert(word_views(parts@.push(part)) =~= word_views(parts@).push(part@));
            }
            parts.push(part);
        }
        if !space && !inside {
            start = i;
        }
        i = i + 1;
    }
    if i > 0 && !is_whitespace(chars[i - 1]) {
        let part = line.substring_char(start, i).to_owned();
        proof {
            assert(word_views(parts@.push(part)) =~= word_views(parts@).push(part@));
        }
        parts.push(part);
    }
    proof {
        assert(line@.take(i as int) =~= line@);
    }
    parts
}

/// Reads the number that `text` writes in decimal, where it is at most
/// `limit`.
pub fn parse_number(text: &str, limit: u64) -> (value: Option<u64>)
    ensures
        match value {
            Some(v) => number_value(text@, limit as nat) == Some(v as nat),
            None => number_value(text@, limit as nat) is None,
        },
{
    let chars = chars_of(text);
    let len: usize = chars.len();
    let first: usize = if len > 0 && chars[0] == '+' {
        1
    } else {
        0
    };
    let ghost digits = text@.subrange(first as int, len as int);
    proof {
        if first == 1 {
            assert(text@.drop_first() =~= digits);
        } else {
            assert(text@ =~= digits);
        }
    }
    if first >= len {
        return None;
    }
    let mut value: u64 = 0;
    let mut i: usize = first;
    while i < len
        invariant
            chars@ == text@,
            len == chars.len(),
            first <= i <= len,
            first < len,
            digits == text@.subrange(first as int, len as int),
            digits == if text@.len() > 0 && text@[0] == '+' {
                text@.drop_first()
            } else {
                text@
            },
            i == first ==> value == 0,
            i > first ==> digits_value(digits.take(i - first)) == Some(value as nat),
            value <= limit,
        decreases len - i,
    {
        let n: u32 = chars[i] as u32;
        proof {
            let read = digits.take(i - first + 1);
            lemma_digits_prefix(digits, i - first + 1);
            assert(read.drop_last() =~= digits.take(i - first));
            assert(read.last() == text@[i as int]);
            assert(read.len() == 1 ==> read[0] == text@[i as int]);
            assert(digit_value(text@[i as int]) == if 0x30 <= n <= 0x39 {
                Some((n - 0x30) as nat)
            } else {
                None
            });
        }
        if n < 0x30 || n > 0x39 {
            return None;
        }
        let next: u128 = 10 * (value as u128) + ((n - 0x30) as u128);
        if next > limit as u128 {
            return None;
        }
        value = next as u64;
        i = i + 1;
    }
    proof {
        assert(digits.take(len - first) =~= digits);
    }
    Some(value)
}

/// Reads a line of a word list: the word is the line without the white
/// space at its ends.
pub fn parse_word_line(line: &str) -> (word: String)
    ensures
        word@ == trimmed(line@),
{
    let chars = chars_of(line);
    let mut end: usize = chars.len();
    proof {
        assert(line@.take(end as int) =~= line@);
    }
    while end > 0 && is_whitespace(chars[end - 1])
        invariant
            chars@ == line@,
            end <= chars.len(),
            trimmed(line@) == trimmed(line@.take(end as int)),
        decreases end,
    {
        proof {
            assert(line@.take(end as int).drop_last() =~= line@.take(end - 1));
        }
        end = end - 1;
    }
    let mut start: usize = 0;
    proof {
        assert(line@.take(end as int) =~= line@.subrange(0, end as int));
    }
    while start < end && is_whitespace(chars[start])
        invariant
            chars@ == line@,
            start <= end <= chars.len(),
            end > 0 ==> !is_space(line@[end - 1]),
            trimmed(line@) == trimmed(line@.subrange(start as int, end as int)),
        decreases end - start,
    {
        proof {
            assert(line@.subrange(start as int, end as int).drop_first() =~= line@.subrange(
                start + 1,
                end as int,
            ));
        }
        start = start + 1;
    }
    line.substring_char(start, end).to_owned()
}

/// Reads a line of an order-`n` count file: `n` words and their count.
/// Returns `None` where the line does not hold exactly `n + 1` fields or
/// the field after the words is no count.
pub fn parse_ngram_line(line: &str, n: usize) -> (record: Option<(Vec<String>, u32)>)
    ensures
        match record {
            Some((words, count)) => ngram_record(line@, n as nat) == Some(
                (word_views(words@), count),
            ),
            None => ngram_record(line@, n as nat) is None,
        },
{
    let mut parts = split_whitespace(line);
    if parts.len() <= n || parts.len() - 1 != n {
        return None;
    }
    let ghost all = parts@;
    proof {
        assert(word_views(all)[n as int] == all[n as int]@);
    }
    match parse_number(parts[n].as_str(), 0xFFFF_FFFF) {
        Some(count) => {
            parts.truncate(n);
            proof {
                assert(word_views(parts@) =~= word_views(all).take(n as int));
            }
            Some((parts, count as u32))
        },
        None => None,
    }
}

/// Number of a state in a processed count file.
pub type StateId = usize;

/// Number of a word in a processed count file.
pub type Label = usize;

/// How often an n-gram was seen.
pub type Count = usize;

/// Reads `texts[from..to]` as numbers of machine word size.
fn parse_labels(texts: &Vec<String>, from: usize, to: usize) -> (labels: Option<Vec<Label>>)
    requires
        from <= to <= texts.len(),
    ensures
        match labels {
            Some(labels) => number_values(
                word_views(texts@).subrange(from as int, to as int),
                usize::MAX as nat,
            ) == Some(Seq::new(labels.len() as nat, |i: int| labels[i] as nat)),
            None => number_values(
                word_views(texts@).subrange(from as int, to as int),
                usize::MAX as nat,
            ) is None,
        },
{
    let mut labels: Vec<Label> = Vec::new();
    let mut i: usize = from;
    let ghost all = word_views(texts@);
    proof {
        assert(all.subrange(from as int, from as int) =~= Seq::<Seq<char>>::empty());
        assert(Seq::new(0, |i: int| labels[i] as nat) =~= Seq::<nat>::empty());
    }
    while i < to
        invariant
            from <= i <= to <= texts.len(),
            all == word_views(texts@),
            number_values(all.subrange(from as int, i as int), usize::MAX as nat) == Some(
                Seq::new(labels.len() as nat, |k: int| labels[k] as nat),
            ),
        decreases to - i,
    {
        proof {
            assert(all.subrange(from as int, i + 1).drop_last() =~= all.subrange(
                from as int,
                i as int,
            ));
            assert(all.subrange(from as int, i + 1).last() == texts[i as int]@);
        }
        match parse_number(texts[i].as_str(), usize::MAX as u64) {
            Some(value) => {
                let ghost before = labels@;
                labels.push(value as usize);
                proof {
                    assert(Seq::new(labels.len() as nat, |k: int| labels[k] as nat) =~= Seq::new(
                        before.len(),
                        |k: int| before[k] as nat,
                    ).push(value as nat));
                }
            },
            None => {
                proof {
                    lemma_numbers_prefix(all.subrange(from as int, to as int), i + 1 - from);
                    assert(all.subrange(from as int, to as int).take(i + 1 - from)
                        =~= all.subrange(from as int, i + 1));
                }
                return None;
            },
        }
        i = i + 1;
    }
    Some(labels)
}

/// A run of texts writes numbers only if each run that it begins with does.
proof fn lemma_numbers_prefix(texts: Seq<Seq<char>>, k: int)
    requires
        0 <= k <= texts.len(),
    ensures
        number_values(texts, usize::MAX as nat) is Some ==> number_values(
            texts.take(k),
            usize::MAX as nat,
        ) is Some,
    decreases texts.len(),
{
    if k == texts.len() {
        assert(texts.take(k) =~= texts);
    } else {
        assert(texts.drop_last().take(k) =~= texts.take(k));
        lemma_numbers_prefix(texts.drop_last(), k);
    }
}

/// Reads a line of a processed order-`n` count file: the state id, unless
/// the file holds the longest n-grams, then the labels and the count.
/// Returns `None` where the line does not hold such a record.
pub fn parse_processed_line(line: &str, n: usize, is_longest_ngram: bool) -> (record: Option<
    (Option<StateId>, Vec<Label>, Count),
>)
    ensures
        match record {
            Some((state, labels, count)) => processed_record(line@, n as nat, is_longest_ngram)
                == Some((state, labels@, count)),
            None => processed_record(line@, n as nat, is_longest_ngram) is None,
        },
{
    let parts = split_whitespace(line);
    let lead: usize = if is_longest_ngram {
        0
    } else {
        1
    };
    let width: usize = if n == 1 {
        0
    } else {
        n
    };
    if width >= parts.len() || lead >= parts.len() - width {
        return None;
    }
    let ghost texts = word_views(parts@);
    proof {
        assert(texts[0] == parts[0]@);
        assert(texts[lead + width] == parts[lead + width]@);
    }
    let state: Option<StateId> = if is_longest_ngram {
        None
    } else {
        match parse_number(parts[0].as_str(), usize::MAX as u64) {
            Some(id) => Some(id as usize),
            None => {
                return None;
            },
        }
    };
    let labels: Vec<Label> = if n == 1 {
        match state {
            Some(id) => {
                if id == 0 {
                    return None;
                }
                let mut one: Vec<Label> = Vec::new();
                one.push(id - 1);
                one
            },
            None => {
                return None;
            },
        }
    } else {
        match parse_labels(&parts, lead, lead + width) {
            Some(labels) => labels,
            None => {
                return None;
            },
        }
    };
    match parse_number(parts[lead + width].as_str(), usize::MAX as u64) {
        Some(count) => {
            proof {
                let found = processed_record(line@, n as nat, is_longest_ngram);
                assert(found matches Some(r) && r.1 =~= labels@);
            }
            Some((state, labels, count as usize))
        },
        None => None,
    }
}

} // verus!
