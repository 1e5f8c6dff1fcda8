//! Lines of input: a key, how often it occurs, and the id it had before,
//! with a tab between them.

use vstd::prelude::*;

verus! {

/// The byte between the fields of a line.
pub const TAB: u8 = 9;

/// The byte that ends every key.
pub const SENTINEL: u8 = 0;

/// Where the field ends that starts at `from`: at the next tab, or at the
/// end of the line.
pub open spec fn field_end(line: Seq<u8>, from: nat) -> nat
    decreases line.len() - from,
{
    if from < line.len() && line[from as int] != TAB {
        field_end(line, from + 1)
    } else {
        from
    }
}

/// Whether `c` is a decimal digit.
pub open spec fn is_digit(c: u8) -> bool {
    48 <= c <= 57
}

/// The number that the decimal digits `digits` spell.
pub open spec fn digits_value(digits: Seq<u8>) -> nat
    decreases digits.len(),
{
    if digits.len() == 0 {
        0
    } else {
        10 * digits_value(digits.drop_last()) + (digits.last() - 48) as nat
    }
}

/// All of `digits` are decimal digits.
pub open spec fn all_digits(digits: Seq<u8>) -> bool {
    forall|i: int| 0 <= i < digits.len() ==> is_digit(#[trigger] digits[i])
}

/// The number that `digits` spell: decimal digits, at least one, that spell
/// a number of 32 bits.
pub open spec fn number_of(digits: Seq<u8>) -> Option<u32> {
    if digits.len() > 0 && all_digits(digits) && digits_value(digits) <= u32::MAX {
        Some(digits_value(digits) as u32)
    } else {
        None
    }
}

/// The number that `text` spells: decimal digits, at least one, behind a
/// plus sign or none, that spell a number of 32 bits.
pub open spec fn decimal(text: Seq<u8>) -> Option<u32> {
    if text.len() > 0 && text[0] == 43 {
        number_of(text.skip(1))
    } else {
        number_of(text)
    }
}

/// What a line says: the key, which is the first field with the sentinel
/// behind it, and the numbers of the second and the third field. A line says
/// nothing where it has fewer than three fields or where one of the two is no
/// number.
pub open spec fn line_fields(line: Seq<u8>) -> Option<(Seq<u8>, u32, u32)> {
    let first = field_end(line, 0);
    let second = field_end(line, first + 1);
    let third = field_end(line, second + 1);
    if first >= line.len() || second >= line.len() {
        None
    } else {
        match (
            decimal(line.subrange((first + 1) as int, second as int)),
            decimal(line.subrange((second + 1) as int, third as int)),
        ) {
            (Some(frequency), Some(id)) => Some(
                (line.subrange(0, first as int).push(SENTINEL), frequency, id),
            ),
            _ => None,
        }
    }
}

/// The digits at the start of a number spell no more than all its digits.
proof fn lemma_digits_value_grows(digits: Seq<u8>, k: int)
    requires
        0 <= k <= digits.len(),
        all_digits(digits),
    ensures
        digits_value(digits.take(k)) <= digits_value(digits),
    decreases digits.len() - k,
{
    if k == digits.len() {
        assert(digits.take(k) =~= digits);
    } else {
        lemma_digits_value_grows(digits, k + 1);
        assert(digits.take(k + 1).drop_last() =~= digits.take(k));
        assert(is_digit(digits[k]));
    }
}

/// Where the field ends that starts at `from`.
fn find_tab(line: &[u8], from: usize) -> (end: usize)
    requires
        from <= line@.len(),
    ensures
        end == field_end(line@, from as nat),
        from <= end <= line@.len(),
{
    let mut i = from;
    while i < line.len() && line[i] != TAB
        invariant
            from <= i <= line@.len(),
            field_end(line@, i as nat) == field_end(line@, from as nat),
        decreases line@.len() - i,
    {
        i = i + 1;
    }
    i
}

/// The number that the bytes of `line` from `from` to `to` spell.
fn parse_number(line: &[u8], from: usize, to: usize) -> (res: Option<u32>)
    requires
        from <= to <= line@.len(),
    ensures
        res == decimal(line@.subrange(from as int, to as int)),
{
    let ghost text = line@.subrange(from as int, to as int);
    let start = if from < to && line[from] == 43 {
        from + 1
    } else {
        from
    };
    let ghost digits = line@.subrange(start as int, to as int);
    proof {
        if start == from {
            assert(digits =~= text);
        } else {
            assert(digits =~= text.skip(1));
        }
        assert(decimal(text) == number_of(digits));
    }
    if start == to {
        return None;
    }
    let mut value: u32 = 0;
    let mut i = start;
    proof {
        assert(digits.take(0) =~= Seq::<u8>::empty());
    }
    while i < to
        invariant
            start <= i <= to <= line@.len(),
            digits == line@.subrange(start as int, to as int),
            decimal(line@.subrange(from as int, to as int)) == number_of(digits),
            forall|k: int| 0 <= k < i - start ==> is_digit(#[trigger] digits[k]),
            value == digits_value(digits.take(i - start)),
        decreases to - i,
    {
        let c = line[i];
        if c < 48 || c > 57 {
            proof {
                assert(!is_digit(digits[i - start]));
            }
            return None;
        }
        proof {
            assert(digits.take(i - start + 1).drop_last() =~= digits.take(i - start));
            assert(digits.take(i - start + 1).last() == c);
        }
        let next = match value.checked_mul(10) {
            Some(tenfold) => tenfold.checked_add((c - 48) as u32),
            None => None,
        };
        match next {
            Some(v) => {
                value = v;
            },
            None => {
                proof {
                    assert(number_of(digits) is None) by {
                        if all_digits(digits) {
                            lemma_digits_value_grows(digits, i - start + 1);
                        }
                    }
                }
                return None;
            },
        }
        i = i + 1;
    }
    proof {
        assert(digits.take(i - start) =~= digits);
    }
    Some(value)
}

/// Reads a line: the key, with the sentinel behind it; how often it occurs;
/// and the id it had before. Gives nothing where the line has fewer than three
/// fields or where the second or the third is no number of 32 bits.
pub fn parse_line(line: &[u8]) -> (res: Option<(Vec<u8>, u32, u32)>)
    ensures
        match res {
            Some((word, frequency, id)) => line_fields(line@) == Some((word@, frequency, id)),
            None => line_fields(line@) is None,
        },
{
    let first = find_tab(line, 0);
    if first >= line.len() {
        return None;
    }
    let second = find_tab(line, first + 1);
    if second >= line.len() {
        return None;
    }
    let third = find_tab(line, second + 1);
    let frequency = match parse_number(line, first + 1, second) {
        Some(n) => n,
        None => {
            return None;
        },
    };
    let id = match parse_number(line, second + 1, third) {
        Some(n) => n,
        None => {
            return None;
        },
    };
    let mut word = vstd::slice::slice_to_vec(vstd::slice::slice_subrange(line, 0, first));
    word.push(SENTINEL);
    Some((word, frequency, id))
}

} // verus!
