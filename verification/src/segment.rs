//! On-disk log segments as the engine sees them: a generation number and
//! the segment's bytes.  Reading segment files into memory, mirroring
//! appends back, and deleting retired files belong to the surrounding
//! program; the naming scheme for segment files is defined here so that
//! both sides agree on it.

use vstd::prelude::*;
use vstd::string::{StrSliceExecFns, StringExecFns};

verus! {

/// The decimal digit character for a value below ten.
pub open spec fn spec_digit(d: int) -> char {
    ((48 + d) as u8) as char
}

/// Is this character a decimal digit?
pub open spec fn char_is_digit(c: char) -> bool {
    48 <= c as int <= 57
}

/// The numeric value of a digit character.
pub open spec fn digit_val(c: char) -> int {
    c as int - 48
}

/// The usual decimal rendering of a number: no sign, no leading zeros
/// (except for the number zero itself).
pub open spec fn spec_decimal(n: nat) -> Seq<char>
    decreases n,
{
    if n < 10 {
        seq![spec_digit(n as int)]
    } else {
        spec_decimal(n / 10).push(spec_digit((n % 10) as int))
    }
}

/// The value named by a digit string, most significant digit first.
pub open spec fn digits_value(s: Seq<char>) -> int
    decreases s.len(),
{
    if s.len() == 0 {
        0
    } else {
        digits_value(s.drop_last()) * 10 + digit_val(s.last())
    }
}

/// Every character is a decimal digit.
pub open spec fn all_digits(s: Seq<char>) -> bool {
    forall|i: int| 0 <= i < s.len() ==> char_is_digit(s[i])
}

/// What a segment file name starts with.
pub open spec fn name_prefix() -> Seq<char> {
    seq!['k', 'v', 's', '-']
}

/// What a segment file name ends with.
pub open spec fn name_suffix() -> Seq<char> {
    seq!['.', 'l', 'o', 'g']
}

/// The file name under which a generation's segment is kept.
pub open spec fn spec_file_name(gen: u64) -> Seq<char> {
    name_prefix() + spec_decimal(gen as nat) + name_suffix()
}

/// Which generation, if any, a file name denotes: the prefix, a
/// non-empty run of digits whose value fits the generation type
/// (leading zeros allowed), and the suffix.
pub open spec fn spec_parse_name(s: Seq<char>) -> Option<u64> {
    if s.len() >= 9 && s.take(4) == name_prefix() && s.skip(s.len() - 4) == name_suffix()
        && all_digits(s.subrange(4, s.len() - 4)) && digits_value(s.subrange(4, s.len() - 4))
        <= u64::MAX {
        Some(digits_value(s.subrange(4, s.len() - 4)) as u64)
    } else {
        None
    }
}

/// A digit string names a non-negative value.
proof fn lemma_digits_value_nonneg(s: Seq<char>)
    requires
        all_digits(s),
    ensures
        digits_value(s) >= 0,
    decreases s.len(),
{
    if s.len() > 0 {
        assert(all_digits(s.drop_last())) by {
            assert(forall|i: int| 0 <= i < s.len() - 1 ==> s.drop_last()[i] == s[i]);
        }
        lemma_digits_value_nonneg(s.drop_last());
    }
}

/// Reading more digits never shrinks the value.
proof fn lemma_digits_value_monotone(s: Seq<char>, j: int)
    requires
        all_digits(s),
        0 <= j <= s.len(),
    ensures
        digits_value(s) >= digits_value(s.take(j)),
    decreases s.len() - j,
{
    if j < s.len() {
        assert(s.take(j + 1).drop_last() =~= s.take(j));
        assert(s.take(j + 1).last() == s[j]);
        assert(all_digits(s.take(j))) by {
            assert(forall|i: int| 0 <= i < j ==> s.take(j)[i] == s[i]);
        }
        lemma_digits_value_nonneg(s.take(j));
        assert(digits_value(s.take(j + 1)) >= digits_value(s.take(j)));
        lemma_digits_value_monotone(s, j + 1);
    } else {
        assert(s.take(j) =~= s);
    }
}

/// The decimal rendering is made of digits and names the number back.
proof fn lemma_decimal_value(n: nat)
    ensures
        all_digits(spec_decimal(n)),
        digits_value(spec_decimal(n)) == n,
        spec_decimal(n).len() >= 1,
    decreases n,
{
    if n < 10 {
        assert(spec_decimal(n).drop_last() =~= Seq::<char>::empty());
        assert(digits_value(Seq::<char>::empty()) == 0);
        assert(spec_decimal(n).last() == spec_digit(n as int));
        assert(digits_value(spec_decimal(n)) == digit_val(spec_digit(n as int)));
    } else {
        lemma_decimal_value(n / 10);
        assert(spec_decimal(n).drop_last() =~= spec_decimal(n / 10));
        assert(spec_decimal(n).last() == spec_digit((n % 10) as int));
        assert(digit_val(spec_digit((n % 10) as int)) == n % 10);
    }
}

/// The naming scheme round-trips: the name written for a generation
/// parses back to exactly that generation.
pub proof fn lemma_name_round_trip(gen: u64)
    ensures
        spec_parse_name(spec_file_name(gen)) == Some(gen),
{
    let s = spec_file_name(gen);
    lemma_decimal_value(gen as nat);
    assert(s.take(4) =~= name_prefix());
    assert(s.skip(s.len() - 4) =~= name_suffix());
    assert(s.subrange(4, s.len() - 4) =~= spec_decimal(gen as nat));
}

/// The characters of a digit's decimal rendering, least significant
/// digit first in `ds`, read back most significant first.
pub open spec fn rev_digits(ds: Seq<u8>) -> Seq<char> {
    Seq::new(ds.len(), |j: int| spec_digit(ds[ds.len() - 1 - j] as int))
}

/// One digit as text.
fn digit_str(d: u8) -> (r: &'static str)
    requires
        d < 10,
    ensures
        r@ == seq![spec_digit(d as int)],
{
    let r: &'static str = match d {
        0 => "0",
        1 => "1",
        2 => "2",
        3 => "3",
        4 => "4",
        5 => "5",
        6 => "6",
        7 => "7",
        8 => "8",
        _ => "9",
    };
    proof {
        reveal_strlit("0");
        reveal_strlit("1");
        reveal_strlit("2");
        reveal_strlit("3");
        reveal_strlit("4");
        reveal_strlit("5");
        reveal_strlit("6");
        reveal_strlit("7");
        reveal_strlit("8");
        reveal_strlit("9");
        assert(r@ =~= seq![spec_digit(d as int)]);
    }
    r
}

/// Render the file name under which a generation's segment is kept.
pub fn segment_file_name(generation: u64) -> (r: String)
    ensures
        r@ == spec_file_name(generation),
{
    let mut s: String = "kvs-".to_owned();
    proof {
        reveal_strlit("kvs-");
        assert(s@ =~= name_prefix());
    }
    let mut digits: Vec<u8> = Vec::new();
    if generation == 0 {
        digits.push(0u8);
        proof {
            assert(rev_digits(digits@) =~= spec_decimal(generation as nat));
        }
    } else {
        let mut x = generation;
        while x > 0
            invariant
                forall|j: int| 0 <= j < digits@.len() ==> digits@[j] < 10,
                x > 0 ==> spec_decimal(generation as nat) =~= spec_decimal(x as nat) + rev_digits(
                    digits@,
                ),
                x == 0 ==> spec_decimal(generation as nat) =~= rev_digits(digits@),
            decreases x,
        {
            let ghost ds0 = digits@;
            let ghost x0 = x;
            let d = (x % 10) as u8;
            digits.push(d);
            x = x / 10;
            proof {
                assert(rev_digits(ds0.push(d)) =~= seq![spec_digit(d as int)] + rev_digits(ds0));
                if x0 >= 10 {
                    assert(spec_decimal(x0 as nat) == spec_decimal((x0 as nat) / 10).push(
                        spec_digit(((x0 as nat) % 10) as int),
                    ));
                    assert(spec_decimal((x0 as nat) / 10) + (seq![spec_digit(d as int)]
                        + rev_digits(ds0)) =~= spec_decimal(x0 as nat) + rev_digits(ds0));
                } else {
                    assert(spec_decimal(x0 as nat) =~= seq![spec_digit(d as int)]);
                }
            }
        }
    }
    let n = digits.len();
    let mut i: usize = n;
    while i > 0
        invariant
            i <= n,
            n == digits@.len(),
            forall|j: int| 0 <= j < digits@.len() ==> digits@[j] < 10,
            spec_decimal(generation as nat) =~= rev_digits(digits@),
            s@ == name_prefix() + rev_digits(digits@).take(n - i),
        decreases i,
    {
        i = i - 1;
        s.append(digit_str(digits[i]));
        proof {
            assert(rev_digits(digits@).take(n - i) =~= rev_digits(digits@).take(n - i - 1).push(
                spec_digit(digits@[i as int] as int),
            ));
        }
    }
    proof {
        assert(rev_digits(digits@).take(n as int) =~= rev_digits(digits@));
    }
    s.append(".log");
    proof {
        reveal_strlit(".log");
        assert(".log"@ =~= name_suffix());
        assert(s@ =~= spec_file_name(generation));
    }
    s
}

/// Read the generation out of a segment file name; anything that does
/// not fit the scheme — or whose number does not fit the generation
/// type — is not a segment file.
pub fn parse_segment_name(name: &str) -> (r: Option<u64>)
    ensures
        r == spec_parse_name(name@),
{
    let n = name.unicode_len();
    if n < 9 {
        return None;
    }
    if name.get_char(0) != 'k' || name.get_char(1) != 'v' || name.get_char(2) != 's'
        || name.get_char(3) != '-' {
        proof {
            assert(name@.take(4) != name_prefix());
        }
        return None;
    }
    if name.get_char(n - 4) != '.' || name.get_char(n - 3) != 'l' || name.get_char(n - 2) != 'o'
        || name.get_char(n - 1) != 'g' {
        proof {
            assert(name@.skip(n - 4) != name_suffix());
        }
        return None;
    }
    let ghost digits = name@.subrange(4, n - 4);
    let mut g: u64 = 0;
    let mut i: usize = 4;
    while i < n - 4
        invariant
            4 <= i <= n - 4,
            n == name@.len(),
            n >= 9,
            digits == name@.subrange(4, n - 4),
            all_digits(digits.take(i - 4)),
            g == digits_value(digits.take(i - 4)),
        decreases n - i,
    {
        let c = name.get_char(i);
        let cu = c as u32;
        proof {
            assert(digits[i - 4] == name@[i as int]);
        }
        if cu < 48 || cu > 57 {
            proof {
                assert(!char_is_digit(digits[i - 4]));
                assert(!all_digits(digits));
            }
            return None;
        }
        let d = (cu - 48) as u64;
        let overflowed: bool = match g.checked_mul(10) {
            Some(g10) => match g10.checked_add(d) {
                Some(g2) => {
                    g = g2;
                    false
                },
                None => true,
            },
            None => true,
        };
        proof {
            assert(digits.take(i - 4 + 1).drop_last() =~= digits.take(i - 4));
            assert(digits.take(i - 4 + 1).last() == digits[i - 4]);
        }
        if overflowed {
            proof {
                lemma_digits_value_nonneg(digits.take(i - 4));
                assert(digits_value(digits.take(i - 4 + 1)) > u64::MAX);
                if all_digits(digits) {
                    lemma_digits_value_monotone(digits, i - 4 + 1);
                }
            }
            return None;
        }
        i = i + 1;
    }
    proof {
        assert(digits.take(n - 4 - 4) =~= digits);
        assert(name@.take(4) =~= name_prefix());
        assert(name@.skip(n - 4) =~= name_suffix());
    }
    Some(g)
}

/// One log segment: an append-only run of encoded records, identified
/// by a monotonically increasing generation number.
#[derive(Debug)]
pub struct Segment {
    pub generation: u64,
    pub data: Vec<u8>,
}

impl Segment {
    /// A fresh, empty segment of the given generation.
    pub fn new(generation: u64) -> (r: Segment)
        ensures
            r.generation == generation,
            r.data@ == Seq::<u8>::empty(),
    {
        Segment { generation, data: Vec::new() }
    }
}

} // verus!
