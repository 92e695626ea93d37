//! The block-count table: its line-oriented text form, and the cumulative
//! counts derived from it.

use vstd::prelude::*;
use vstd::slice::slice_subrange;
use crate::error::PrimeError;
use crate::primality::as_ints;

verus! {

/// `b` is an ASCII decimal digit.
pub open spec fn is_digit(b: u8) -> bool {
    48 <= b <= 57
}

/// Every byte of `s` is a decimal digit.
pub open spec fn all_digits(s: Seq<u8>) -> bool {
    forall|i: int| 0 <= i < s.len() ==> is_digit(#[trigger] s[i])
}

/// The number that a run of decimal digits denotes, most significant first.
pub open spec fn digits_value(s: Seq<u8>) -> nat
    decreases s.len(),
{
    if s.len() == 0 {
        0
    } else {
        digits_value(s.drop_last()) * 10 + (s.last() - 48) as nat
    }
}

/// The digits of a numeral: the text without its optional leading `+`.
pub open spec fn numeral_digits(s: Seq<u8>) -> Seq<u8> {
    if s.len() > 0 && s[0] == 43 {
        s.skip(1)
    } else {
        s
    }
}

/// What a decimal numeral denotes: an optional `+`, then one or more digits
/// and nothing else, with a value that fits the machine word. Any other text
/// denotes nothing.
pub open spec fn decimal_value(s: Seq<u8>) -> Option<usize> {
    let digits = numeral_digits(s);
    if digits.len() > 0 && all_digits(digits) && digits_value(digits) <= usize::MAX {
        Some(digits_value(digits) as usize)
    } else {
        None
    }
}

/// A line without the carriage return that may end it.
pub open spec fn strip_cr(line: Seq<u8>) -> Seq<u8> {
    if line.len() > 0 && line.last() == 13 {
        line.drop_last()
    } else {
        line
    }
}

/// The lines of `s` from the line that starts at `start`, scanned from
/// `pos` on. A line ends at a line feed, which is dropped together with a
/// carriage return before it; text after the last line feed is a line of its
/// own, taken as it stands.
pub open spec fn lines_scan(s: Seq<u8>, start: int, pos: int) -> Seq<Seq<u8>>
    decreases s.len() - pos,
{
    if pos >= s.len() {
        if start < s.len() {
            seq![s.subrange(start, s.len() as int)]
        } else {
            Seq::empty()
        }
    } else if s[pos] == 10 {
        seq![strip_cr(s.subrange(start, pos))] + lines_scan(s, pos + 1, pos + 1)
    } else {
        lines_scan(s, start, pos + 1)
    }
}

/// The lines of a table source.
pub open spec fn table_lines(s: Seq<u8>) -> Seq<Seq<u8>> {
    lines_scan(s, 0, 0)
}

/// Every line is a decimal numeral.
pub open spec fn all_numerals(lines: Seq<Seq<u8>>) -> bool {
    forall|i: int| 0 <= i < lines.len() ==> decimal_value(#[trigger] lines[i]).is_some()
}

/// The value of each line.
pub open spec fn numeral_values(lines: Seq<Seq<u8>>) -> Seq<usize> {
    lines.map_values(|line: Seq<u8>| decimal_value(line).unwrap())
}

/// The block counts that a table source holds, one per line, if every line
/// is a decimal numeral.
pub open spec fn table_entries(s: Seq<u8>) -> Option<Seq<usize>> {
    if all_numerals(table_lines(s)) {
        Some(numeral_values(table_lines(s)))
    } else {
        None
    }
}

/// The sum of the first `k` entries of `c`.
pub open spec fn sum_to(c: Seq<usize>, k: int) -> int
    decreases k,
{
    if k <= 0 {
        0
    } else {
        sum_to(c, k - 1) + c[k - 1]
    }
}

/// The cumulative counts of `c`: one entry more than `c`, entry `i` being
/// the sum of the first `i` entries of `c`.
pub open spec fn prefix_sums(c: Seq<usize>) -> Seq<int> {
    Seq::new(c.len() + 1, |i: int| sum_to(c, i))
}

/// A run of digits denotes at least what any of its prefixes denotes.
pub proof fn lemma_digits_value_prefix(s: Seq<u8>, k: int)
    requires
        all_digits(s),
        0 <= k <= s.len(),
    ensures
        digits_value(s.take(k)) <= digits_value(s),
    decreases s.len(),
{
    if k == s.len() {
        assert(s.take(k) =~= s);
    } else {
        let front = s.drop_last();
        assert(is_digit(s.last()));
        lemma_digits_value_prefix(front, k);
        assert(front.take(k) =~= s.take(k));
    }
}

/// Cumulative counts never decrease.
pub proof fn lemma_sum_to_monotone(c: Seq<usize>, i: int, j: int)
    requires
        0 <= i <= j <= c.len(),
    ensures
        0 <= sum_to(c, i) <= sum_to(c, j),
    decreases j,
{
    if i < j {
        lemma_sum_to_monotone(c, i, j - 1);
    } else if i > 0 {
        lemma_sum_to_monotone(c, 0, i - 1);
    }
}

/// Reads a decimal numeral: an optional `+` followed by one or more digits.
///
/// Returns the number denoted, and `None` for any other text and for a
/// number that does not fit the machine word.
pub fn parse_decimal(text: &[u8]) -> (value: Option<usize>)
    ensures
        value == decimal_value(text@),
{
    let n: usize = text.len();
    let start: usize = if n > 0 && text[0] == 43 {
        1
    } else {
        0
    };
    if start == n {
        return None;
    }
    let ghost digits = numeral_digits(text@);
    let mut acc: usize = 0;
    let mut i: usize = start;
    assert(digits =~= text@.skip(start as int));
    assert(digits.take(0) =~= Seq::<u8>::empty());
    while i < n
        invariant
            start <= i <= n,
            n == text.len(),
            digits == numeral_digits(text@),
            digits == text@.skip(start as int),
            all_digits(digits.take(i - start)),
            acc == digits_value(digits.take(i - start)),
        decreases n - i,
    {
        let b: u8 = text[i];
        let ghost seen = digits.take(i - start + 1);
        proof {
            assert(seen.drop_last() =~= digits.take(i - start));
            assert(seen.last() == b);
            assert(digits[i - start] == b);
        }
        if b < 48 || b > 57 {
            return None;
        }
        let d: usize = (b - 48) as usize;
        let next: Option<usize> = match acc.checked_mul(10) {
            Some(m) => m.checked_add(d),
            None => None,
        };
        match next {
            Some(v) => {
                acc = v;
            },
            None => {
                proof {
                    assert(digits_value(seen) > usize::MAX);
                    if all_digits(digits) {
                        lemma_digits_value_prefix(digits, i - start + 1);
                    }
                }
                return None;
            },
        }
        proof {
            assert forall|t: int| 0 <= t < seen.len() implies is_digit(#[trigger] seen[t]) by {
                if t < seen.len() - 1 {
                    assert(seen[t] == digits.take(i - start)[t]);
                }
            }
        }
        i += 1;
    }
    proof {
        assert(digits.take(n - start) =~= digits);
    }
    Some(acc)
}

/// Reads the numeral on the line that spans `from..to` of `source`, without
/// the carriage return that ends it if `terminated` says that a line feed
/// followed.
fn parse_line(source: &[u8], from: usize, to: usize, terminated: bool) -> (value: Option<usize>)
    requires
        from <= to <= source.len(),
    ensures
        terminated ==> value == decimal_value(strip_cr(source@.subrange(from as int, to as int))),
        !terminated ==> value == decimal_value(source@.subrange(from as int, to as int)),
{
    let stop: usize = if terminated && from < to && source[to - 1] == 13 {
        to - 1
    } else {
        to
    };
    proof {
        let line = source@.subrange(from as int, to as int);
        if terminated {
            assert(strip_cr(line) =~= source@.subrange(from as int, stop as int));
        }
    }
    parse_decimal(slice_subrange(source, from, stop))
}

/// Reads a table source: one decimal block count per line.
///
/// Succeeds exactly when every line is a decimal numeral that fits the
/// machine word, and then returns the counts in the order of the lines.
/// Otherwise the table is rejected as malformed.
pub fn parse_table(source: &[u8]) -> (table: Result<Vec<usize>, PrimeError>)
    ensures
        match table {
            Ok(counts) => table_entries(source@) == Some(counts@),
            Err(e) => e == PrimeError::MalformedTableEntry && table_entries(source@).is_none(),
        },
{
    let n: usize = source.len();
    let mut counts: Vec<usize> = Vec::new();
    let mut start: usize = 0;
    let mut pos: usize = 0;
    let ghost mut done: Seq<Seq<u8>> = Seq::empty();
    assert(numeral_values(done) =~= counts@);
    assert(done + lines_scan(source@, 0, 0) =~= lines_scan(source@, 0, 0));
    while pos < n
        invariant
            start <= pos <= n,
            n == source.len(),
            table_lines(source@) == done + lines_scan(source@, start as int, pos as int),
            all_numerals(done),
            counts@ == numeral_values(done),
        decreases n - pos,
    {
        if source[pos] == 10 {
            let ghost line = strip_cr(source@.subrange(start as int, pos as int));
            let ghost rest = lines_scan(source@, pos + 1, pos + 1);
            proof {
                assert(done + (seq![line] + rest) =~= done.push(line) + rest);
                assert(table_lines(source@)[done.len() as int] == line);
            }
            match parse_line(source, start, pos, true) {
                Some(count) => {
                    counts.push(count);
                    proof {
                        assert(numeral_values(done.push(line)) =~= numeral_values(done).push(count));
                        done = done.push(line);
                    }
                },
                None => {
                    return Err(PrimeError::MalformedTableEntry);
                },
            }
            start = pos + 1;
        }
        pos += 1;
    }
    if start < n {
        let ghost line = source@.subrange(start as int, n as int);
        proof {
            assert(done + seq![line] =~= done.push(line));
            assert(table_lines(source@)[done.len() as int] == line);
        }
        match parse_line(source, start, n, false) {
            Some(count) => {
                counts.push(count);
                proof {
                    assert(numeral_values(done.push(line)) =~= numeral_values(done).push(count));
                    done = done.push(line);
                }
            },
            None => {
                return Err(PrimeError::MalformedTableEntry);
            },
        }
    } else {
        assert(done + Seq::<Seq<u8>>::empty() =~= done);
    }
    Ok(counts)
}

/// Loads the table from what was read of its source, `None` standing for a
/// source that is missing or cannot be read.
///
/// Fails with `ResourceUnavailable` exactly when there is no source, and
/// with `MalformedTableEntry` exactly when there is one and some line of it
/// is not a decimal numeral; otherwise returns the counts, line by line.
pub fn load_table(source: Option<&[u8]>) -> (table: Result<Vec<usize>, PrimeError>)
    ensures
        match source {
            None => table == Err::<Vec<usize>, PrimeError>(PrimeError::ResourceUnavailable),
            Some(text) => match table {
                Ok(counts) => table_entries(text@) == Some(counts@),
                Err(e) => e == PrimeError::MalformedTableEntry && table_entries(text@).is_none(),
            },
        },
{
    match source {
        None => Err(PrimeError::ResourceUnavailable),
        Some(text) => parse_table(text),
    }
}

/// The cumulative counts of a table: a leading zero, then the running sum
/// after each block.
///
/// Returns `None` exactly when the sum of all counts does not fit the
/// machine word.
pub fn build_prefix_sum(counts: &Vec<usize>) -> (sums: Option<Vec<usize>>)
    ensures
        match sums {
            Some(p) => {
                &&& as_ints(p@) == prefix_sums(counts@)
                &&& p.len() == counts.len() + 1
                &&& p[0] == 0
                &&& forall|i: int| 0 <= i < counts.len() ==> p[i + 1] == p[i] + #[trigger] counts[i]
                &&& forall|i: int, j: int|
                    0 <= i <= j < p.len() ==> #[trigger] p[i] <= #[trigger] p[j]
            },
            None => sum_to(counts@, counts.len() as int) > usize::MAX,
        },
{
    let m: usize = counts.len();
    let mut sums: Vec<usize> = Vec::new();
    sums.push(0);
    let mut i: usize = 0;
    while i < m
        invariant
            i <= m,
            m == counts.len(),
            sums.len() == i + 1,
            forall|k: int| 0 <= k <= i ==> #[trigger] sums[k] == sum_to(counts@, k),
        decreases m - i,
    {
        match sums[i].checked_add(counts[i]) {
            Some(next) => {
                sums.push(next);
            },
            None => {
                proof {
                    lemma_sum_to_monotone(counts@, i + 1, m as int);
                }
                return None;
            },
        }
        i += 1;
    }
    proof {
        assert(as_ints(sums@) =~= prefix_sums(counts@));
        assert forall|a: int, b: int| 0 <= a <= b < sums.len() implies #[trigger] sums[a]
            <= #[trigger] sums[b] by {
            lemma_sum_to_monotone(counts@, a, b);
        }
        assert forall|k: int| 0 <= k < counts.len() implies sums[k + 1] == sums[k]
            + #[trigger] counts[k] by {
            assert(sums[k + 1] == sum_to(counts@, k + 1));
        }
    }
    Some(sums)
}

} // verus!
