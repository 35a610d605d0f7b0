//! The digit model: what it means for a digit to be written in a line,
//! and the two tables of spelled-out digit words used by the scans.
use vstd::prelude::*;

verus! {

/// Length of the probe window that tells the digit words apart.
pub const PROBE_LEN: usize = 3;

/// The spelling of digit `d` (one to nine) as lowercase ASCII bytes.
pub open spec fn word(d: nat) -> Seq<u8> {
    if d == 1 {
        seq!['o' as u8, 'n' as u8, 'e' as u8]
    } else if d == 2 {
        seq!['t' as u8, 'w' as u8, 'o' as u8]
    } else if d == 3 {
        seq!['t' as u8, 'h' as u8, 'r' as u8, 'e' as u8, 'e' as u8]
    } else if d == 4 {
        seq!['f' as u8, 'o' as u8, 'u' as u8, 'r' as u8]
    } else if d == 5 {
        seq!['f' as u8, 'i' as u8, 'v' as u8, 'e' as u8]
    } else if d == 6 {
        seq!['s' as u8, 'i' as u8, 'x' as u8]
    } else if d == 7 {
        seq!['s' as u8, 'e' as u8, 'v' as u8, 'e' as u8, 'n' as u8]
    } else if d == 8 {
        seq!['e' as u8, 'i' as u8, 'g' as u8, 'h' as u8, 't' as u8]
    } else if d == 9 {
        seq!['n' as u8, 'i' as u8, 'n' as u8, 'e' as u8]
    } else {
        Seq::empty()
    }
}

pub open spec fn is_spelled(d: nat) -> bool {
    1 <= d <= 9
}

/// The forward probe of a word: its first three bytes.
pub open spec fn head(d: nat) -> Seq<u8> {
    word(d).subrange(0, PROBE_LEN as int)
}

/// The backward probe of a word: its last three bytes.
pub open spec fn tail(d: nat) -> Seq<u8> {
    word(d).subrange(word(d).len() - PROBE_LEN, word(d).len() as int)
}

pub open spec fn is_ascii_digit(b: u8) -> bool {
    '0' as u8 <= b <= '9' as u8
}

pub open spec fn is_digit_char(c: char) -> bool {
    '0' <= c <= '9'
}

/// The value of a digit character.
pub open spec fn char_value(c: char) -> nat {
    (c as u32 - '0' as u32) as nat
}

/// The word of digit `d` stands in `s` from position `i` on.
pub open spec fn word_at(s: Seq<u8>, i: int, d: nat) -> bool {
    &&& is_spelled(d)
    &&& 0 <= i
    &&& i + word(d).len() <= s.len()
    &&& s.subrange(i, i + word(d).len()) == word(d)
}

/// Digit `d` is written in `s` over the positions `i..j`: either as one
/// ASCII digit byte or as its spelled-out word.
pub open spec fn written_at(s: Seq<u8>, i: int, j: int, d: nat) -> bool {
    ||| (0 <= i < s.len() && j == i + 1 && is_ascii_digit(s[i]) && d == (s[i] - '0' as u8) as nat)
    ||| (word_at(s, i, d) && j == i + word(d).len())
}

/// Some digit is written in `s` starting at position `i`.
pub open spec fn starts_digit(s: Seq<u8>, i: int) -> bool {
    exists|j: int, d: nat| written_at(s, i, j, d)
}

/// Some digit is written in `s` ending just before position `j`.
pub open spec fn ends_digit(s: Seq<u8>, j: int) -> bool {
    exists|i: int, d: nat| written_at(s, i, j, d)
}

/// `s` holds at least one digit, literal or spelled.
pub open spec fn has_digit(s: Seq<u8>) -> bool {
    exists|i: int| starts_digit(s, i)
}

/// `i` is where the leftmost digit of `s` starts.
pub open spec fn is_first_start(s: Seq<u8>, i: int) -> bool {
    &&& starts_digit(s, i)
    &&& forall|k: int| 0 <= k < i ==> !starts_digit(s, k)
}

/// `j` is where the rightmost digit of `s` ends.
pub open spec fn is_last_end(s: Seq<u8>, j: int) -> bool {
    &&& ends_digit(s, j)
    &&& forall|k: int| j < k <= s.len() ==> !ends_digit(s, k)
}

/// Digit `d` is written in `s` starting at position `i`.
pub open spec fn digit_starts(s: Seq<u8>, i: int, d: nat) -> bool {
    exists|j: int| written_at(s, i, j, d)
}

/// Digit `d` is written in `s` ending just before position `j`.
pub open spec fn digit_ends(s: Seq<u8>, j: int, d: nat) -> bool {
    exists|i: int| written_at(s, i, j, d)
}

/// The digit that starts leftmost in `s`.
pub open spec fn first_digit(s: Seq<u8>) -> nat {
    let i = choose|i: int| is_first_start(s, i);
    choose|d: nat| digit_starts(s, i, d)
}

/// The digit that ends rightmost in `s`.
pub open spec fn last_digit(s: Seq<u8>) -> nat {
    let j = choose|j: int| is_last_end(s, j);
    choose|d: nat| digit_ends(s, j, d)
}

/// The calibration value of a line: ten times its first digit plus its
/// last digit, or nothing for a line without digits.
pub open spec fn calibration_value(s: Seq<u8>) -> Option<u32> {
    if has_digit(s) {
        Some((10 * first_digit(s) + last_digit(s)) as u32)
    } else {
        None
    }
}

/// Every digit word is three to five bytes long, and begins and ends
/// with a letter.
pub proof fn lemma_word_facts(d: nat)
    requires
        is_spelled(d),
    ensures
        word(d).len() >= PROBE_LEN,
        word(d).len() <= 5,
        !is_ascii_digit(word(d)[0]),
        !is_ascii_digit(word(d)[word(d).len() - 1]),
{
}

/// Every digit word is at least as long as a probe.
pub proof fn lemma_words_long()
    ensures
        forall|d: nat| is_spelled(d) ==> #[trigger] word(d).len() >= PROBE_LEN,
{
    assert forall|d: nat| is_spelled(d) implies #[trigger] word(d).len() >= PROBE_LEN by {
        lemma_word_facts(d);
    }
}

/// No two digit words share their first three bytes, nor their last three.
pub proof fn lemma_probes_distinct(d1: nat, d2: nat)
    requires
        is_spelled(d1),
        is_spelled(d2),
        d1 != d2,
    ensures
        head(d1) != head(d2),
        tail(d1) != tail(d2),
{
    let w1 = word(d1);
    let w2 = word(d2);
    let n1 = w1.len() as int;
    let n2 = w2.len() as int;
    if head(d1) == head(d2) {
        assert(head(d1)[0] == head(d2)[0] && head(d1)[1] == head(d2)[1] && head(d1)[2] == head(d2)[2]);
        assert(w1[0] == w2[0] && w1[1] == w2[1] && w1[2] == w2[2]);
    }
    if tail(d1) == tail(d2) {
        assert(tail(d1)[0] == tail(d2)[0] && tail(d1)[1] == tail(d2)[1] && tail(d1)[2] == tail(d2)[2]);
        assert(w1[n1 - 3] == w2[n2 - 3] && w1[n1 - 2] == w2[n2 - 2] && w1[n1 - 1] == w2[n2 - 1]);
    }
}

/// At one start position at most one digit is written, with one extent.
pub proof fn lemma_start_unique(s: Seq<u8>, i: int, j1: int, d1: nat, j2: int, d2: nat)
    requires
        written_at(s, i, j1, d1),
        written_at(s, i, j2, d2),
    ensures
        j1 == j2,
        d1 == d2,
{
    if word_at(s, i, d1) && j1 == i + word(d1).len() {
        lemma_word_facts(d1);
        assert(s[i] == s.subrange(i, j1)[0]);
    }
    if word_at(s, i, d2) && j2 == i + word(d2).len() {
        lemma_word_facts(d2);
        assert(s[i] == s.subrange(i, j2)[0]);
    }
    if word_at(s, i, d1) && j1 == i + word(d1).len() && word_at(s, i, d2) && j2 == i
        + word(d2).len() && d1 != d2 {
        lemma_probes_distinct(d1, d2);
        assert(head(d1) =~= s.subrange(i, i + PROBE_LEN as int));
        assert(head(d2) =~= s.subrange(i, i + PROBE_LEN as int));
    }
}

/// At one end position at most one digit is written, with one extent.
pub proof fn lemma_end_unique(s: Seq<u8>, j: int, i1: int, d1: nat, i2: int, d2: nat)
    requires
        written_at(s, i1, j, d1),
        written_at(s, i2, j, d2),
    ensures
        i1 == i2,
        d1 == d2,
{
    if word_at(s, i1, d1) && j == i1 + word(d1).len() {
        lemma_word_facts(d1);
        assert(s[j - 1] == s.subrange(i1, j)[word(d1).len() - 1]);
    }
    if word_at(s, i2, d2) && j == i2 + word(d2).len() {
        lemma_word_facts(d2);
        assert(s[j - 1] == s.subrange(i2, j)[word(d2).len() - 1]);
    }
    if word_at(s, i1, d1) && j == i1 + word(d1).len() && word_at(s, i2, d2) && j == i2
        + word(d2).len() && d1 != d2 {
        lemma_probes_distinct(d1, d2);
        assert(tail(d1) =~= s.subrange(j - PROBE_LEN, j));
        assert(tail(d2) =~= s.subrange(j - PROBE_LEN, j));
    }
}

/// One entry of a digit table: a probe, the full word and the digit.
pub struct DigitWord {
    pub probe: Vec<u8>,
    pub word: Vec<u8>,
    pub digit: char,
}

/// The entry spells a digit from one to nine, and its probe is the
/// word's first three bytes.
pub open spec fn is_head_entry(e: DigitWord) -> bool {
    &&& is_digit_char(e.digit)
    &&& is_spelled(char_value(e.digit))
    &&& e.word@ == word(char_value(e.digit))
    &&& e.probe@ == head(char_value(e.digit))
}

/// The entry spells a digit from one to nine, and its probe is the
/// word's last three bytes.
pub open spec fn is_tail_entry(e: DigitWord) -> bool {
    &&& is_digit_char(e.digit)
    &&& is_spelled(char_value(e.digit))
    &&& e.word@ == word(char_value(e.digit))
    &&& e.probe@ == tail(char_value(e.digit))
}

/// Every digit from one to nine has an entry in the table.
pub open spec fn covers_all_words(t: Seq<DigitWord>) -> bool {
    forall|d: nat| is_spelled(d) ==> exists|k: int| 0 <= k < t.len() && char_value(#[trigger] t[k].digit) == d
}

pub open spec fn is_head_table(t: Seq<DigitWord>) -> bool {
    &&& t.len() == 9
    &&& forall|k: int| 0 <= k < t.len() ==> is_head_entry(#[trigger] t[k])
    &&& covers_all_words(t)
}

pub open spec fn is_tail_table(t: Seq<DigitWord>) -> bool {
    &&& t.len() == 9
    &&& forall|k: int| 0 <= k < t.len() ==> is_tail_entry(#[trigger] t[k])
    &&& covers_all_words(t)
}

/// The character of a digit value.
pub fn digit_char(d: u8) -> (c: char)
    requires
        d <= 9,
    ensures
        is_digit_char(c),
        char_value(c) == d,
{
    ('0' as u8 + d) as char
}

/// The spelling of digit `d`.
pub fn spelled(d: u8) -> (w: Vec<u8>)
    requires
        is_spelled(d as nat),
    ensures
        w@ == word(d as nat),
{
    let w = if d == 1 {
        vec!['o' as u8, 'n' as u8, 'e' as u8]
    } else if d == 2 {
        vec!['t' as u8, 'w' as u8, 'o' as u8]
    } else if d == 3 {
        vec!['t' as u8, 'h' as u8, 'r' as u8, 'e' as u8, 'e' as u8]
    } else if d == 4 {
        vec!['f' as u8, 'o' as u8, 'u' as u8, 'r' as u8]
    } else if d == 5 {
        vec!['f' as u8, 'i' as u8, 'v' as u8, 'e' as u8]
    } else if d == 6 {
        vec!['s' as u8, 'i' as u8, 'x' as u8]
    } else if d == 7 {
        vec!['s' as u8, 'e' as u8, 'v' as u8, 'e' as u8, 'n' as u8]
    } else if d == 8 {
        vec!['e' as u8, 'i' as u8, 'g' as u8, 'h' as u8, 't' as u8]
    } else {
        vec!['n' as u8, 'i' as u8, 'n' as u8, 'e' as u8]
    };
    assert(w@ =~= word(d as nat));
    w
}

fn head_entry(d: u8) -> (e: DigitWord)
    requires
        is_spelled(d as nat),
    ensures
        is_head_entry(e),
        char_value(e.digit) == d,
{
    let word = spelled(d);
    proof {
        lemma_word_facts(d as nat);
    }
    let probe = vec![word[0], word[1], word[2]];
    assert(probe@ =~= head(d as nat));
    DigitWord { probe, word, digit: digit_char(d) }
}

fn tail_entry(d: u8) -> (e: DigitWord)
    requires
        is_spelled(d as nat),
    ensures
        is_tail_entry(e),
        char_value(e.digit) == d,
{
    let word = spelled(d);
    proof {
        lemma_word_facts(d as nat);
    }
    let n = word.len();
    let probe = vec![word[n - 3], word[n - 2], word[n - 1]];
    assert(probe@ =~= tail(d as nat));
    DigitWord { probe, word, digit: digit_char(d) }
}

/// The table probed by the forward scan, keyed by the words' first three bytes.
pub fn head_table() -> (t: Vec<DigitWord>)
    ensures
        is_head_table(t@),
{
    let t = vec![
        head_entry(1),
        head_entry(2),
        head_entry(6),
        head_entry(4),
        head_entry(5),
        head_entry(9),
        head_entry(7),
        head_entry(8),
        head_entry(3),
    ];
    assert(forall|k: int| 0 <= k < 9 ==> is_head_entry(#[trigger] t@[k]));
    assert(covers_all_words(t@)) by {
        assert forall|d: nat| is_spelled(d) implies exists|k: int| 0 <= k < t@.len() && char_value(#[trigger] t@[k].digit) == d by {
            if d == 1 { assert(char_value(t@[0].digit) == d); }
            else if d == 2 { assert(char_value(t@[1].digit) == d); }
            else if d == 6 { assert(char_value(t@[2].digit) == d); }
            else if d == 4 { assert(char_value(t@[3].digit) == d); }
            else if d == 5 { assert(char_value(t@[4].digit) == d); }
            else if d == 9 { assert(char_value(t@[5].digit) == d); }
            else if d == 7 { assert(char_value(t@[6].digit) == d); }
            else if d == 8 { assert(char_value(t@[7].digit) == d); }
            else { assert(char_value(t@[8].digit) == d); }
        }
    }
    t
}

/// The table probed by the backward scan, keyed by the words' last three bytes.
pub fn tail_table() -> (t: Vec<DigitWord>)
    ensures
        is_tail_table(t@),
{
    let t = vec![
        tail_entry(1),
        tail_entry(2),
        tail_entry(6),
        tail_entry(4),
        tail_entry(5),
        tail_entry(9),
        tail_entry(7),
        tail_entry(8),
        tail_entry(3),
    ];
    assert(forall|k: int| 0 <= k < 9 ==> is_tail_entry(#[trigger] t@[k]));
    assert(covers_all_words(t@)) by {
        assert forall|d: nat| is_spelled(d) implies exists|k: int| 0 <= k < t@.len() && char_value(#[trigger] t@[k].digit) == d by {
            if d == 1 { assert(char_value(t@[0].digit) == d); }
            else if d == 2 { assert(char_value(t@[1].digit) == d); }
            else if d == 6 { assert(char_value(t@[2].digit) == d); }
            else if d == 4 { assert(char_value(t@[3].digit) == d); }
            else if d == 5 { assert(char_value(t@[4].digit) == d); }
            else if d == 9 { assert(char_value(t@[5].digit) == d); }
            else if d == 7 { assert(char_value(t@[6].digit) == d); }
            else if d == 8 { assert(char_value(t@[7].digit) == d); }
            else { assert(char_value(t@[8].digit) == d); }
        }
    }
    t
}

/// A digit written at the leftmost start is the first digit.
pub proof fn lemma_first_digit_is(s: Seq<u8>, i: int, j: int, d: nat)
    requires
        is_first_start(s, i),
        written_at(s, i, j, d),
    ensures
        first_digit(s) == d,
{
    let i0 = choose|i0: int| is_first_start(s, i0);
    assert(is_first_start(s, i0));
    if i0 < i {
        assert(!starts_digit(s, i0));
    }
    if i < i0 {
        assert(!starts_digit(s, i));
    }
    assert(digit_starts(s, i0, d));
    let d0 = choose|d0: nat| digit_starts(s, i0, d0);
    let j0 = choose|j0: int| written_at(s, i0, j0, d0);
    lemma_start_unique(s, i, j, d, j0, d0);
}

/// A digit written at the rightmost end is the last digit.
pub proof fn lemma_last_digit_is(s: Seq<u8>, i: int, j: int, d: nat)
    requires
        is_last_end(s, j),
        written_at(s, i, j, d),
    ensures
        last_digit(s) == d,
{
    let j0 = choose|j0: int| is_last_end(s, j0);
    assert(is_last_end(s, j0));
    lemma_words_long();
    if j0 < j {
        assert(!ends_digit(s, j));
    }
    if j < j0 {
        assert(!ends_digit(s, j0));
    }
    assert(digit_ends(s, j0, d));
    let d0 = choose|d0: nat| digit_ends(s, j0, d0);
    let i0 = choose|i0: int| written_at(s, i0, j0, d0);
    lemma_end_unique(s, j, i, d, i0, d0);
}

proof fn lemma_first_below(s: Seq<u8>, i: int)
    requires
        starts_digit(s, i),
    ensures
        exists|f: int| is_first_start(s, f),
    decreases i,
{
    let (j, d) = choose|j: int, d: nat| written_at(s, i, j, d);
    assert(i >= 0);
    if exists|k: int| 0 <= k < i && starts_digit(s, k) {
        let k = choose|k: int| 0 <= k < i && starts_digit(s, k);
        lemma_first_below(s, k);
    } else {
        assert(is_first_start(s, i));
    }
}

proof fn lemma_last_above(s: Seq<u8>, j: int)
    requires
        ends_digit(s, j),
    ensures
        exists|l: int| is_last_end(s, l),
    decreases s.len() - j,
{
    let (i, d) = choose|i: int, d: nat| written_at(s, i, j, d);
    assert(j <= s.len());
    if exists|k: int| j < k <= s.len() && ends_digit(s, k) {
        let k = choose|k: int| j < k <= s.len() && ends_digit(s, k);
        lemma_last_above(s, k);
    } else {
        assert(is_last_end(s, j));
    }
}

/// A line with a digit has a leftmost one and a rightmost one, so its
/// first and last digits, and its calibration value, are well defined.
pub proof fn lemma_first_and_last_exist(s: Seq<u8>)
    requires
        has_digit(s),
    ensures
        exists|i: int| is_first_start(s, i),
        exists|j: int| is_last_end(s, j),
{
    let i = choose|i: int| starts_digit(s, i);
    lemma_first_below(s, i);
    let (j, d) = choose|j: int, d: nat| written_at(s, i, j, d);
    assert(ends_digit(s, j));
    lemma_last_above(s, j);
}

} // verus!
