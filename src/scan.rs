//! The forward and backward scans over a line, and the calibration value
//! that combines them.
use vstd::prelude::*;
use vstd::string::StringSliceAdditionalSpecFns;

use crate::digits::{
    calibration_value, char_value, digit_char, ends_digit, has_digit, head, head_table,
    is_digit_char, is_first_start, is_head_table, is_last_end, is_tail_table, last_digit,
    lemma_end_unique, lemma_first_digit_is, lemma_last_digit_is, lemma_probes_distinct,
    lemma_start_unique, lemma_word_facts, lemma_words_long, starts_digit, tail, tail_table, word,
    word_at, written_at, DigitWord, PROBE_LEN,
};

verus! {

/// The outcome of one directional scan: the digit found, if any, and the
/// position at which the scan stopped.
#[derive(Debug, PartialEq, Eq, Structural)]
pub struct SearchResult {
    pub number: Option<char>,
    pub last_parsed_position: usize,
}

/// `r` is what the forward scan of `s` gives: the leftmost digit and the
/// position where it starts, or no digit and the length of `s`.
pub open spec fn forward_scan(s: Seq<u8>, r: SearchResult) -> bool {
    let p = r.last_parsed_position as int;
    match r.number {
        Some(c) => {
            &&& is_digit_char(c)
            &&& is_first_start(s, p)
            &&& exists|j: int| written_at(s, p, j, char_value(c))
        },
        None => !has_digit(s) && p == s.len(),
    }
}

/// The lowest position the backward scan may reach.
pub open spec fn backward_floor(s: Seq<u8>, found_pos: usize) -> int {
    if found_pos < s.len() {
        found_pos as int
    } else {
        s.len() as int
    }
}

/// `r` is what the backward scan of `s` above `found_pos` gives: the digit
/// that ends rightmost, if it ends above the floor, with the position after
/// it for a literal digit and the start of the word for a spelled one; or
/// no digit and the floor.
pub open spec fn backward_scan(s: Seq<u8>, found_pos: usize, r: SearchResult) -> bool {
    let lo = backward_floor(s, found_pos);
    let p = r.last_parsed_position as int;
    match r.number {
        Some(c) => {
            &&& is_digit_char(c)
            &&& exists|i: int, j: int|
                {
                    &&& lo < j
                    &&& is_last_end(s, j)
                    &&& written_at(s, i, j, char_value(c))
                    &&& p == if j == i + 1 {
                        j
                    } else {
                        i
                    }
                }
        },
        None => p == lo && forall|k: int| lo < k <= s.len() ==> !ends_digit(s, k),
    }
}

/// A digit found at the leftmost start is a forward scan result.
proof fn lemma_forward_hit(s: Seq<u8>, p: usize, j: int, c: char)
    requires
        is_digit_char(c),
        is_first_start(s, p as int),
        written_at(s, p as int, j, char_value(c)),
    ensures
        forward_scan(s, SearchResult { number: Some(c), last_parsed_position: p }),
{
    let r = SearchResult { number: Some(c), last_parsed_position: p };
    assert(r.number is Some);
    assert(!(r.number is None));
    assert(is_digit_char(r.number->0));
    assert(is_first_start(s, r.last_parsed_position as int));
    assert(exists|jj: int| written_at(s, r.last_parsed_position as int, jj, char_value(r.number->0)));
    assert(forward_scan(s, r));
}

/// A digit found at the rightmost end above the floor is a backward scan
/// result.
proof fn lemma_backward_hit(s: Seq<u8>, found_pos: usize, i: int, j: int, p: usize, c: char)
    requires
        is_digit_char(c),
        backward_floor(s, found_pos) < j,
        is_last_end(s, j),
        written_at(s, i, j, char_value(c)),
        p == if j == i + 1 {
            j
        } else {
            i
        },
    ensures
        backward_scan(s, found_pos, SearchResult { number: Some(c), last_parsed_position: p }),
{
    let r = SearchResult { number: Some(c), last_parsed_position: p };
    assert(r.number is Some);
    assert(!(r.number is None));
    assert(is_digit_char(r.number->0));
    assert(written_at(s, i, j, char_value(r.number->0)));
    assert(backward_scan(s, found_pos, r));
}

/// Whether `w` stands in `s` from position `at` on.
fn bytes_match(s: &[u8], at: usize, w: &Vec<u8>) -> (r: bool)
    requires
        at + w@.len() <= s@.len(),
    ensures
        r == (s@.subrange(at as int, at + w@.len()) == w@),
{
    let n = s.len();
    let mut k: usize = 0;
    while k < w.len()
        invariant
            n == s@.len(),
            k <= w@.len(),
            at + w@.len() <= s@.len(),
            forall|m: int| 0 <= m < k ==> s@[at + m] == w@[m],
        decreases w@.len() - k,
    {
        if s[at + k] != w[k] {
            assert(s@.subrange(at as int, at + w@.len())[k as int] != w@[k as int]);
            return false;
        }
        k += 1;
    }
    assert(s@.subrange(at as int, at + w@.len()) =~= w@);
    true
}

/// The digit word that starts at `pos`, found through the head table: the
/// first entry whose probe matches decides, as no two probes are equal.
fn word_starting_at(table: &Vec<DigitWord>, s: &[u8], pos: usize) -> (r: Option<char>)
    requires
        is_head_table(table@),
        pos + PROBE_LEN <= s@.len(),
    ensures
        match r {
            Some(c) => is_digit_char(c) && word_at(s@, pos as int, char_value(c)),
            None => forall|d: nat| !word_at(s@, pos as int, d),
        },
{
    let mut k: usize = 0;
    while k < table.len()
        invariant
            is_head_table(table@),
            pos + PROBE_LEN <= s@.len(),
            k <= table@.len(),
            forall|m: int| 0 <= m < k ==> table@[m].probe@ != s@.subrange(pos as int, pos + PROBE_LEN),
        decreases table@.len() - k,
    {
        let entry = &table[k];
        assert(entry.probe@.len() == PROBE_LEN);
        if bytes_match(s, pos, &entry.probe) {
            if s.len() - pos >= entry.word.len() && bytes_match(s, pos, &entry.word) {
                return Some(entry.digit);
            }
            proof {
                let e = char_value(entry.digit);
                assert forall|d: nat| !word_at(s@, pos as int, d) by {
                    if word_at(s@, pos as int, d) {
                        lemma_word_facts(d);
                        assert(head(d) =~= s@.subrange(pos as int, pos + PROBE_LEN));
                        if d != e {
                            lemma_probes_distinct(d, e);
                        }
                    }
                }
            }
            return None;
        }
        k += 1;
    }
    proof {
        assert forall|d: nat| !word_at(s@, pos as int, d) by {
            if word_at(s@, pos as int, d) {
                lemma_word_facts(d);
                let m = choose|m: int| 0 <= m < table@.len() && char_value(#[trigger] table@[m].digit) == d;
                assert(head(d) =~= s@.subrange(pos as int, pos + PROBE_LEN));
            }
        }
    }
    None
}

/// The digit word that ends just before `pos`, found through the tail
/// table, with the position where it starts.
fn word_ending_at(table: &Vec<DigitWord>, s: &[u8], pos: usize) -> (r: Option<(char, usize)>)
    requires
        is_tail_table(table@),
        PROBE_LEN <= pos <= s@.len(),
    ensures
        match r {
            Some((c, start)) => {
                &&& is_digit_char(c)
                &&& word_at(s@, start as int, char_value(c))
                &&& start + word(char_value(c)).len() == pos
            },
            None => forall|i: int, d: nat| !(word_at(s@, i, d) && i + word(d).len() == pos),
        },
{
    let mut k: usize = 0;
    while k < table.len()
        invariant
            is_tail_table(table@),
            PROBE_LEN <= pos <= s@.len(),
            k <= table@.len(),
            forall|m: int| 0 <= m < k ==> table@[m].probe@ != s@.subrange(pos - PROBE_LEN, pos as int),
        decreases table@.len() - k,
    {
        let entry = &table[k];
        assert(entry.probe@.len() == PROBE_LEN);
        if bytes_match(s, pos - PROBE_LEN, &entry.probe) {
            let n = entry.word.len();
            if pos >= n && bytes_match(s, pos - n, &entry.word) {
                return Some((entry.digit, pos - n));
            }
            proof {
                let e = char_value(entry.digit);
                assert forall|i: int, d: nat| !(word_at(s@, i, d) && i + word(d).len() == pos) by {
                    if word_at(s@, i, d) && i + word(d).len() == pos {
                        lemma_word_facts(d);
                        assert(tail(d) =~= s@.subrange(pos - PROBE_LEN, pos as int));
                        if d != e {
                            lemma_probes_distinct(d, e);
                        }
                    }
                }
            }
            return None;
        }
        k += 1;
    }
    proof {
        assert forall|i: int, d: nat| !(word_at(s@, i, d) && i + word(d).len() == pos) by {
            if word_at(s@, i, d) && i + word(d).len() == pos {
                lemma_word_facts(d);
                let m = choose|m: int| 0 <= m < table@.len() && char_value(#[trigger] table@[m].digit) == d;
                assert(tail(d) =~= s@.subrange(pos - PROBE_LEN, pos as int));
            }
        }
    }
    None
}

/// Scans `line` left to right for its first digit, literal or spelled.
pub fn find(line: &str) -> (r: SearchResult)
    ensures
        forward_scan(line.spec_bytes(), r),
{
    let s = line.as_bytes();
    let n = s.len();
    let table = head_table();
    let mut pos: usize = 0;
    proof {
        lemma_words_long();
    }
    while pos < n
        invariant
            n == s@.len(),
            s@ == line.spec_bytes(),
            is_head_table(table@),
            pos <= n,
            forall|k: int| 0 <= k < pos ==> !starts_digit(s@, k),
        decreases n - pos,
    {
        let b = s[pos];
        if '0' as u8 <= b && b <= '9' as u8 {
            let v = b - '0' as u8;
            let c = digit_char(v);
            assert(written_at(s@, pos as int, pos + 1, char_value(c)));
            proof {
                lemma_forward_hit(s@, pos, pos + 1, c);
            }
            return SearchResult { number: Some(c), last_parsed_position: pos };
        }
        if n - pos >= PROBE_LEN {
            if let Some(c) = word_starting_at(&table, s, pos) {
                assert(written_at(s@, pos as int, pos + word(char_value(c)).len(), char_value(c)));
                return SearchResult { number: Some(c), last_parsed_position: pos };
            }
        }
        assert(!starts_digit(s@, pos as int));
        pos += 1;
    }
    SearchResult { number: None, last_parsed_position: n }
}

/// Scans `line` right to left for its last digit, literal or spelled,
/// stopping once it comes down to `found_pos`.
pub fn r_find(line: &str, found_pos: usize) -> (r: SearchResult)
    ensures
        backward_scan(line.spec_bytes(), found_pos, r),
{
    let s = line.as_bytes();
    let n = s.len();
    let table = tail_table();
    let mut pos: usize = n;
    proof {
        lemma_words_long();
    }
    while pos > found_pos
        invariant
            n == s@.len(),
            s@ == line.spec_bytes(),
            is_tail_table(table@),
            pos <= n,
            found_pos <= pos || pos == n,
            forall|k: int| pos < k <= n ==> !ends_digit(s@, k),
        decreases pos,
    {
        let b = s[pos - 1];
        if '0' as u8 <= b && b <= '9' as u8 {
            let v = b - '0' as u8;
            let c = digit_char(v);
            assert(written_at(s@, pos - 1, pos as int, char_value(c)));
            proof {
                lemma_backward_hit(s@, found_pos, pos - 1, pos as int, pos, c);
            }
            return SearchResult { number: Some(c), last_parsed_position: pos };
        }
        if pos >= PROBE_LEN {
            if let Some((c, start)) = word_ending_at(&table, s, pos) {
                assert(written_at(s@, start as int, pos as int, char_value(c)));
                proof {
                    lemma_word_facts(char_value(c));
                    lemma_backward_hit(s@, found_pos, start as int, pos as int, start, c);
                }
                return SearchResult { number: Some(c), last_parsed_position: start };
            }
        }
        assert(!ends_digit(s@, pos as int));
        pos -= 1;
    }
    SearchResult { number: None, last_parsed_position: pos }
}

/// The value of a digit character.
fn value_of(c: char) -> (v: u32)
    requires
        is_digit_char(c),
    ensures
        v == char_value(c),
        v <= 9,
{
    c as u32 - '0' as u32
}

/// The calibration value of `line`: its first and its last digit, literal
/// or spelled, read together as a two-digit number.
pub fn extract_number(line: &str) -> (r: Option<u32>)
    ensures
        r == calibration_value(line.spec_bytes()),
        r is Some <==> has_digit(line.spec_bytes()),
        r matches Some(v) ==> v <= 99,
{
    let ghost s = line.spec_bytes();
    let res = find(line);
    let r_res = r_find(line, res.last_parsed_position);
    proof {
        lemma_words_long();
    }
    match (res.number, r_res.number) {
        (Some(fst), Some(lst)) => {
            proof {
                let p = res.last_parsed_position as int;
                let jf = choose|jf: int| written_at(s, p, jf, char_value(fst));
                lemma_first_digit_is(s, p, jf, char_value(fst));
                let (il, jl) = choose|il: int, jl: int|
                    {
                        &&& backward_floor(s, res.last_parsed_position) < jl
                        &&& is_last_end(s, jl)
                        &&& written_at(s, il, jl, char_value(lst))
                        &&& r_res.last_parsed_position == if jl == il + 1 {
                            jl
                        } else {
                            il
                        }
                    };
                lemma_last_digit_is(s, il, jl, char_value(lst));
                assert(starts_digit(s, p));
            }
            Some(10 * value_of(fst) + value_of(lst))
        },
        (Some(fst), None) => {
            proof {
                let p = res.last_parsed_position as int;
                let jf = choose|jf: int| written_at(s, p, jf, char_value(fst));
                assert(ends_digit(s, jf));
            }
            None
        },
        _ => None,
    }
}

/// The forward scan is a function of the line: any two results that meet
/// its contract on the same line are equal.
pub proof fn lemma_forward_scan_unique(s: Seq<u8>, a: SearchResult, b: SearchResult)
    requires
        forward_scan(s, a),
        forward_scan(s, b),
    ensures
        a == b,
{
    let pa = a.last_parsed_position as int;
    let pb = b.last_parsed_position as int;
    match (a.number, b.number) {
        (Some(ca), Some(cb)) => {
            assert(starts_digit(s, pa));
            assert(starts_digit(s, pb));
            let ja = choose|ja: int| written_at(s, pa, ja, char_value(ca));
            let jb = choose|jb: int| written_at(s, pb, jb, char_value(cb));
            lemma_start_unique(s, pa, ja, char_value(ca), jb, char_value(cb));
            assert(ca as u32 == cb as u32);
        },
        (Some(ca), None) => {
            assert(starts_digit(s, pa));
        },
        (None, Some(cb)) => {
            assert(starts_digit(s, pb));
        },
        (None, None) => {},
    }
}

/// The backward scan is a function of the line and of its floor: any two
/// results that meet its contract on the same arguments are equal.
pub proof fn lemma_backward_scan_unique(s: Seq<u8>, found_pos: usize, a: SearchResult, b: SearchResult)
    requires
        backward_scan(s, found_pos, a),
        backward_scan(s, found_pos, b),
    ensures
        a == b,
{
    let lo = backward_floor(s, found_pos);
    lemma_words_long();
    match (a.number, b.number) {
        (Some(ca), Some(cb)) => {
            let (ia, ja) = choose|ia: int, ja: int|
                {
                    &&& lo < ja
                    &&& is_last_end(s, ja)
                    &&& written_at(s, ia, ja, char_value(ca))
                    &&& a.last_parsed_position == if ja == ia + 1 {
                        ja
                    } else {
                        ia
                    }
                };
            let (ib, jb) = choose|ib: int, jb: int|
                {
                    &&& lo < jb
                    &&& is_last_end(s, jb)
                    &&& written_at(s, ib, jb, char_value(cb))
                    &&& b.last_parsed_position == if jb == ib + 1 {
                        jb
                    } else {
                        ib
                    }
                };
            if ja < jb {
                assert(ends_digit(s, jb));
            }
            if jb < ja {
                assert(ends_digit(s, ja));
            }
            lemma_end_unique(s, ja, ia, char_value(ca), ib, char_value(cb));
            assert(ca as u32 == cb as u32);
        },
        (Some(ca), None) => {
            let (ia, ja) = choose|ia: int, ja: int|
                {
                    &&& lo < ja
                    &&& is_last_end(s, ja)
                    &&& written_at(s, ia, ja, char_value(ca))
                    &&& a.last_parsed_position == if ja == ia + 1 {
                        ja
                    } else {
                        ia
                    }
                };
            assert(ends_digit(s, ja));
        },
        (None, Some(cb)) => {
            let (ib, jb) = choose|ib: int, jb: int|
                {
                    &&& lo < jb
                    &&& is_last_end(s, jb)
                    &&& written_at(s, ib, jb, char_value(cb))
                    &&& b.last_parsed_position == if jb == ib + 1 {
                        jb
                    } else {
                        ib
                    }
                };
            assert(ends_digit(s, jb));
        },
        (None, None) => {},
    }
}

/// Run from where the forward scan stopped, the backward scan finds a
/// digit exactly when the forward scan did, and then it finds the last
/// digit of the line; a line with one digit gives that digit both ways.
pub proof fn lemma_backward_meets_forward(s: Seq<u8>, a: SearchResult, b: SearchResult)
    requires
        forward_scan(s, a),
        backward_scan(s, a.last_parsed_position, b),
    ensures
        b.number is Some <==> a.number is Some,
        b.number matches Some(c) ==> char_value(c) == last_digit(s),
{
    lemma_words_long();
    let lo = backward_floor(s, a.last_parsed_position);
    if let Some(ca) = a.number {
        let p = a.last_parsed_position as int;
        let jf = choose|jf: int| written_at(s, p, jf, char_value(ca));
        assert(ends_digit(s, jf));
        if let Some(cb) = b.number {
            let (il, jl) = choose|il: int, jl: int|
                {
                    &&& lo < jl
                    &&& is_last_end(s, jl)
                    &&& written_at(s, il, jl, char_value(cb))
                    &&& b.last_parsed_position == if jl == il + 1 {
                        jl
                    } else {
                        il
                    }
                };
            lemma_last_digit_is(s, il, jl, char_value(cb));
        }
    }
}

} // verus!
