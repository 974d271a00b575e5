//! Parsing of the text mesh format's integer fields: a decimal `u32` (the
//! vertex and triangle counts) and a triangle line of three vertex indices
//! separated by spaces.
//!
//! A triangle line is split on single spaces; fields that do not parse as a
//! `u32` are dropped, and the line is accepted exactly when three parsed
//! numbers remain.
use vstd::prelude::*;
use vstd::seq_lib::*;

verus! {

/// A line of the mesh file that does not have the expected shape.
#[derive(Debug, Clone, Copy, PartialEq, Eq, Structural)]
pub struct ParseError;

/// Three vertex indices of one mesh triangle.
#[derive(Debug, Clone, Copy, PartialEq, Eq)]
pub struct Triangle(pub [u32; 3]);

/// `c` is a decimal digit.
pub open spec fn is_digit(c: char) -> bool {
    '0' as u32 <= c as u32 <= '9' as u32
}

/// Numeric value of a decimal digit.
pub open spec fn digit_val(c: char) -> int {
    c as u32 - '0' as u32
}

/// Every character of `s` is a decimal digit.
pub open spec fn all_digits(s: Seq<char>) -> bool {
    forall|i: int| 0 <= i < s.len() ==> is_digit(#[trigger] s[i])
}

/// Value of a digit string read as a decimal numeral.
pub open spec fn digits_val(s: Seq<char>) -> int
    decreases s.len(),
{
    if s.len() == 0 {
        0
    } else {
        10 * digits_val(s.drop_last()) + digit_val(s.last())
    }
}

/// The digit part of a `u32` literal: everything after an optional `+`.
pub open spec fn u32_digits(s: Seq<char>) -> Seq<char> {
    if s.len() >= 1 && s[0] == '+' {
        s.skip(1)
    } else {
        s
    }
}

/// `s` is a `u32` literal: an optional `+`, then at least one digit, with a
/// value that fits.
pub open spec fn parses_as_u32(s: Seq<char>) -> bool {
    let d = u32_digits(s);
    d.len() >= 1 && all_digits(d) && digits_val(d) <= u32::MAX
}

/// The value of a `u32` literal.
pub open spec fn parsed_u32(s: Seq<char>) -> int {
    digits_val(u32_digits(s))
}

/// A digit string's value is non-negative.
pub proof fn lemma_digits_val_nonneg(s: Seq<char>)
    requires
        all_digits(s),
    ensures
        digits_val(s) >= 0,
    decreases s.len(),
{
    if s.len() == 0 {
    } else {
        lemma_digits_val_nonneg(s.drop_last());
    }
}

/// Dropping digits from the right never increases the value.
pub proof fn lemma_digits_prefix_le(s: Seq<char>, j: int)
    requires
        all_digits(s),
        0 <= j <= s.len(),
    ensures
        digits_val(s.take(j)) <= digits_val(s),
    decreases s.len() - j,
{
    if j == s.len() {
        assert(s.take(j) =~= s);
    } else {
        lemma_digits_prefix_le(s, j + 1);
        assert(s.take(j + 1).drop_last() =~= s.take(j));
        assert(all_digits(s.take(j))) by {
            assert(forall|i: int| 0 <= i < j ==> s.take(j)[i] == #[trigger] s[i]);
        }
        lemma_digits_val_nonneg(s.take(j));
        assert(s.take(j + 1).last() == s[j]);
    }
}

/// Parses a decimal `u32` as `str::parse::<u32>` does: an optional leading
/// `+`, then one or more digits, rejecting anything else and values that do
/// not fit.
pub fn parse_u32(string: &str) -> (r: Result<u32, ParseError>)
    ensures
        match r {
            Ok(n) => parses_as_u32(string@) && n == parsed_u32(string@),
            Err(_) => !parses_as_u32(string@),
        },
{
    let ghost s = string@;
    let len = string.unicode_len();
    let start: usize = if len > 0 && string.get_char(0) == '+' {
        1
    } else {
        0
    };
    proof {
        assert(u32_digits(s) =~= s.skip(start as int));
    }
    if start >= len {
        return Err(ParseError);
    }
    let mut acc: u32 = 0;
    let mut i: usize = start;
    while i < len
        invariant
            start <= i <= len,
            len == s.len(),
            s == string@,
            u32_digits(s) =~= s.skip(start as int),
            all_digits(s.subrange(start as int, i as int)),
            acc == digits_val(s.subrange(start as int, i as int)),
        decreases len - i,
    {
        let c = string.get_char(i);
        let cv = c as u32;
        if cv < 48 || cv > 57 {
            proof {
                assert(s.skip(start as int)[i - start as int] == c);
                assert(!all_digits(s.skip(start as int)));
            }
            return Err(ParseError);
        }
        let dv: u32 = cv - 48;
        let t: u64 = (acc as u64) * 10 + (dv as u64);
        proof {
            assert(s.subrange(start as int, i + 1 as int).drop_last() =~= s.subrange(
                start as int,
                i as int,
            ));
            assert(s.subrange(start as int, i + 1 as int).last() == s[i as int]);
        }
        if t > 0xffff_ffff {
            proof {
                let d = s.skip(start as int);
                if all_digits(d) {
                    assert(d.take(i + 1 - start as int) =~= s.subrange(start as int, i + 1 as int));
                    lemma_digits_prefix_le(d, i + 1 - start as int);
                }
            }
            return Err(ParseError);
        }
        acc = t as u32;
        i = i + 1;
    }
    proof {
        assert(s.subrange(start as int, len as int) =~= s.skip(start as int));
    }
    Ok(acc)
}

/// Index of the first space of `s`, or its length when there is none.
pub open spec fn first_space(s: Seq<char>) -> int
    decreases s.len(),
{
    if s.len() == 0 {
        0
    } else if s[0] == ' ' {
        0
    } else {
        1 + first_space(s.skip(1))
    }
}

/// The fields of `s` split on single spaces, empty fields kept, as
/// `str::split(' ')` yields them.
pub open spec fn split_fields(s: Seq<char>) -> Seq<Seq<char>>
    decreases s.len(),
{
    let i = first_space(s);
    if 0 <= i < s.len() {
        seq![s.take(i)] + split_fields(s.skip(i + 1))
    } else {
        seq![s]
    }
}

/// The numbers of the fields that parse as a `u32`, in order; unparsable
/// fields are dropped.
pub open spec fn nums_of(fields: Seq<Seq<char>>) -> Seq<u32> {
    fields.filter(|f: Seq<char>| parses_as_u32(f)).map_values(
        |f: Seq<char>| parsed_u32(f) as u32,
    )
}

/// The numbers of the fields of `s` that parse as a `u32`.
pub open spec fn parsed_fields(s: Seq<char>) -> Seq<u32> {
    nums_of(split_fields(s))
}

/// `first_space` is the first space: no space strictly before `k`, and a
/// space (or the end) at `k`, pin it to `k`.
proof fn lemma_first_space_at(t: Seq<char>, k: int)
    requires
        0 <= k <= t.len(),
        forall|j: int| 0 <= j < k ==> t[j] != ' ',
        k < t.len() ==> t[k] == ' ',
    ensures
        first_space(t) == k,
    decreases t.len(),
{
    if t.len() == 0 {
    } else if k == 0 {
    } else {
        assert(forall|j: int| 0 <= j < k - 1 ==> t.skip(1)[j] == #[trigger] t[j + 1]);
        lemma_first_space_at(t.skip(1), k - 1);
    }
}

/// Splitting after a clean prefix: with no space in `[fs, i)` and a space at
/// `i`, the fields of the tail starting at `fs` are the field `[fs, i)`
/// followed by the fields of the tail starting past the space.
proof fn lemma_split_at_space(s: Seq<char>, fs: int, i: int)
    requires
        0 <= fs <= i < s.len(),
        s[i] == ' ',
        forall|j: int| fs <= j < i ==> s[j] != ' ',
    ensures
        split_fields(s.skip(fs)) == seq![s.subrange(fs, i)] + split_fields(s.skip(i + 1)),
{
    let t = s.skip(fs);
    assert(forall|j: int| 0 <= j < t.len() ==> t[j] == #[trigger] s[j + fs]);
    lemma_first_space_at(t, i - fs);
    assert(t.take(i - fs) =~= s.subrange(fs, i));
    assert(t.skip(i - fs + 1) =~= s.skip(i + 1));
}

/// With no space from `fs` to the end, the tail is one single field.
proof fn lemma_split_last(s: Seq<char>, fs: int)
    requires
        0 <= fs <= s.len(),
        forall|j: int| fs <= j < s.len() ==> s[j] != ' ',
    ensures
        split_fields(s.skip(fs)) == seq![s.subrange(fs, s.len() as int)],
{
    let t = s.skip(fs);
    assert(forall|j: int| 0 <= j < t.len() ==> t[j] == #[trigger] s[j + fs]);
    lemma_first_space_at(t, t.len() as int);
    assert(t =~= s.subrange(fs, s.len() as int));
}

/// One field's contribution to the parsed numbers: a parsable head
/// contributes its value, any other head contributes nothing.
proof fn lemma_nums_of_cons(f: Seq<char>, rest: Seq<Seq<char>>)
    ensures
        parses_as_u32(f) ==> nums_of(seq![f] + rest) == seq![parsed_u32(f) as u32] + nums_of(rest),
        !parses_as_u32(f) ==> nums_of(seq![f] + rest) == nums_of(rest),
{
    broadcast use Seq::filter_distributes_over_add;

    reveal_with_fuel(Seq::filter, 2);
    assert((seq![f] + rest).filter(|f: Seq<char>| parses_as_u32(f)) == seq![f].filter(
        |f: Seq<char>| parses_as_u32(f),
    ) + rest.filter(|f: Seq<char>| parses_as_u32(f)));
    assert(seq![f].drop_last() =~= Seq::<Seq<char>>::empty());
    if parses_as_u32(f) {
        assert(seq![f].filter(|f: Seq<char>| parses_as_u32(f)) =~= seq![f]);
        assert(nums_of(seq![f] + rest) =~= seq![parsed_u32(f) as u32] + nums_of(rest));
    } else {
        assert(seq![f].filter(|f: Seq<char>| parses_as_u32(f)) =~= Seq::<Seq<char>>::empty());
        assert(nums_of(seq![f] + rest) =~= nums_of(rest));
    }
}

/// Parses a triangle line as the mesh loader does: split on spaces, keep the
/// fields that read as a `u32`, and accept exactly three of them.
pub fn parse_triangle(string: &str) -> (r: Result<Triangle, ParseError>)
    ensures
        match r {
            Ok(t) => parsed_fields(string@).len() == 3 && t.0@ == parsed_fields(string@),
            Err(_) => parsed_fields(string@).len() != 3,
        },
{
    let ghost s = string@;
    let len = string.unicode_len();
    let mut nums: Vec<u32> = Vec::new();
    let mut fs: usize = 0;
    let mut i: usize = 0;
    proof {
        assert(s.skip(0) =~= s);
        assert(Seq::<u32>::empty() + parsed_fields(s) =~= parsed_fields(s));
    }
    while i < len
        invariant
            fs <= i <= len,
            len == s.len(),
            s == string@,
            forall|j: int| fs <= j < i ==> s[j] != ' ',
            parsed_fields(s) == nums@ + parsed_fields(s.skip(fs as int)),
        decreases len - i,
    {
        let c = string.get_char(i);
        if c == ' ' {
            let field = string.substring_char(fs, i);
            proof {
                lemma_split_at_space(s, fs as int, i as int);
                lemma_nums_of_cons(s.subrange(fs as int, i as int), split_fields(s.skip(i + 1)));
                if parses_as_u32(field@) {
                    lemma_digits_val_nonneg(u32_digits(field@));
                }
            }
            match parse_u32(field) {
                Ok(n) => {
                    nums.push(n);
                    proof {
                        assert(nums@ =~= nums@.drop_last() + seq![parsed_u32(field@) as u32]);
                    }
                },
                Err(_) => {},
            }
            fs = i + 1;
        }
        i = i + 1;
    }
    let field = string.substring_char(fs, len);
    proof {
        lemma_split_last(s, fs as int);
        lemma_nums_of_empty();
        lemma_nums_of_cons(s.subrange(fs as int, len as int), Seq::<Seq<char>>::empty());
        assert(seq![s.subrange(fs as int, len as int)] + Seq::<Seq<char>>::empty() =~= seq![
            s.subrange(fs as int, len as int),
        ]);
        if parses_as_u32(field@) {
            lemma_digits_val_nonneg(u32_digits(field@));
        }
    }
    match parse_u32(field) {
        Ok(n) => {
            nums.push(n);
            proof {
                assert(nums@ =~= nums@.drop_last() + seq![parsed_u32(field@) as u32]);
            }
        },
        Err(_) => {},
    }
    proof {
        assert(parsed_fields(s) =~= nums@);
    }
    if nums.len() != 3 {
        return Err(ParseError);
    }
    let t = Triangle([nums[0], nums[1], nums[2]]);
    proof {
        assert(t.0@ =~= nums@);
    }
    Ok(t)
}

/// No fields, no numbers.
proof fn lemma_nums_of_empty()
    ensures
        nums_of(Seq::<Seq<char>>::empty()) == Seq::<u32>::empty(),
{
    reveal_with_fuel(Seq::filter, 1);
    assert(nums_of(Seq::<Seq<char>>::empty()) =~= Seq::<u32>::empty());
}

} // verus!
