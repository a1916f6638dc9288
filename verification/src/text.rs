//! Decimal text and comma/line splitting for the persisted statistics
//! format: the little language every table is written in and read from.

use vstd::prelude::*;
use vstd::string::StringExecFns;
use vstd::string::StrSliceExecFns;

verus! {

/// The digit character for a value below ten.
pub open spec fn spec_digit_char(d: int) -> char {
    if d == 0 {
        '0'
    } else if d == 1 {
        '1'
    } else if d == 2 {
        '2'
    } else if d == 3 {
        '3'
    } else if d == 4 {
        '4'
    } else if d == 5 {
        '5'
    } else if d == 6 {
        '6'
    } else if d == 7 {
        '7'
    } else if d == 8 {
        '8'
    } else {
        '9'
    }
}

/// The decimal text of a number, most significant digit first.
pub open spec fn spec_digits(n: nat) -> Seq<char>
    decreases n,
{
    if n < 10 {
        seq![spec_digit_char(n as int)]
    } else {
        spec_digits(n / 10).push(spec_digit_char((n % 10) as int))
    }
}

/// The numeric value of a digit character; ten stands for any character
/// that is no digit.
pub open spec fn spec_char_val(c: char) -> int {
    if c == '0' {
        0
    } else if c == '1' {
        1
    } else if c == '2' {
        2
    } else if c == '3' {
        3
    } else if c == '4' {
        4
    } else if c == '5' {
        5
    } else if c == '6' {
        6
    } else if c == '7' {
        7
    } else if c == '8' {
        8
    } else if c == '9' {
        9
    } else {
        10
    }
}

/// Non-empty text made of decimal digits only.
pub open spec fn spec_is_digits(s: Seq<char>) -> bool {
    s.len() > 0 && forall|i: int| 0 <= i < s.len() ==> spec_char_val(#[trigger] s[i]) < 10
}

/// The number a digit text denotes.
pub open spec fn spec_digits_val(s: Seq<char>) -> int
    decreases s.len(),
{
    if s.len() == 0 {
        0
    } else {
        spec_digits_val(s.drop_last()) * 10 + spec_char_val(s.last())
    }
}

/// What parsing a decimal field yields: the value when the text is all
/// digits and fits in a `u64`, nothing otherwise.
pub open spec fn spec_parse_u64(s: Seq<char>) -> Option<u64> {
    if spec_is_digits(s) && spec_digits_val(s) <= u64::MAX {
        Some(spec_digits_val(s) as u64)
    } else {
        None
    }
}

/// The text split at every occurrence of `sep`: always one field more than
/// there are separators, so the result is never empty.
pub open spec fn spec_split(s: Seq<char>, sep: char) -> Seq<Seq<char>>
    decreases s.len(),
{
    if s.len() == 0 {
        seq![Seq::<char>::empty()]
    } else if s[0] == sep {
        seq![Seq::<char>::empty()].add(spec_split(s.drop_first(), sep))
    } else {
        let rest = spec_split(s.drop_first(), sep);
        seq![seq![s[0]].add(rest[0])].add(rest.drop_first())
    }
}

/// A split has one field per separator, plus one.
pub proof fn lemma_split_len(s: Seq<char>, sep: char)
    ensures
        spec_split(s, sep).len() >= 1,
    decreases s.len(),
{
    if s.len() > 0 {
        lemma_split_len(s.drop_first(), sep);
    }
}

/// The digit character of a single digit.
fn digit_str(d: u8) -> (s: &'static str)
    requires
        d < 10,
    ensures
        s@ == seq![spec_digit_char(d as int)],
{
    let s: &'static str = match d {
        0 => "0",
        1 => "1",
        2 => "2",
        3 => "3",
        4 => "4",
        5 => "5",
        6 => "6",
        7 => "7",
        8 => "8",
        _ => "9",
    };
    proof {
        reveal_strlit("0");
        reveal_strlit("1");
        reveal_strlit("2");
        reveal_strlit("3");
        reveal_strlit("4");
        reveal_strlit("5");
        reveal_strlit("6");
        reveal_strlit("7");
        reveal_strlit("8");
        reveal_strlit("9");
        assert(s@ =~= seq![spec_digit_char(d as int)]);
    }
    s
}

/// Renders a number as decimal text.
pub fn u64_to_string(n: u64) -> (s: String)
    ensures
        s@ == spec_digits(n as nat),
    decreases n,
{
    if n < 10 {
        let s = String::from_str(digit_str(n as u8));
        proof {
            assert(s@ =~= spec_digits(n as nat));
        }
        s
    } else {
        let mut s = u64_to_string(n / 10);
        s.append(digit_str((n % 10) as u8));
        proof {
            assert(s@ =~= spec_digits(n as nat));
        }
        s
    }
}

/// The numeric value of one character, with ten for anything but a digit.
fn char_val(c: char) -> (v: u8)
    ensures
        v as int == spec_char_val(c),
{
    match c {
        '0' => 0,
        '1' => 1,
        '2' => 2,
        '3' => 3,
        '4' => 4,
        '5' => 5,
        '6' => 6,
        '7' => 7,
        '8' => 8,
        '9' => 9,
        _ => 10,
    }
}

/// One more digit multiplies the value by ten and adds the digit.
proof fn lemma_digits_val_step(s: Seq<char>, i: int)
    requires
        0 <= i < s.len(),
    ensures
        spec_digits_val(s.take(i + 1)) == spec_digits_val(s.take(i)) * 10 + spec_char_val(s[i]),
{
    assert(s.take(i + 1).drop_last() =~= s.take(i));
    assert(s.take(i + 1).last() == s[i]);
}

/// A digit text never denotes a negative number.
proof fn lemma_digits_val_nonneg(s: Seq<char>)
    ensures
        spec_digits_val(s) >= 0,
    decreases s.len(),
{
    if s.len() > 0 {
        lemma_digits_val_nonneg(s.drop_last());
    }
}

/// Extending a digit text never shrinks its value.
proof fn lemma_digits_val_prefix_le(s: Seq<char>, i: int)
    requires
        0 <= i <= s.len(),
    ensures
        spec_digits_val(s.take(i)) <= spec_digits_val(s),
    decreases s.len() - i,
{
    if i < s.len() {
        lemma_digits_val_step(s, i);
        lemma_digits_val_nonneg(s.take(i));
        lemma_digits_val_prefix_le(s, i + 1);
    } else {
        assert(s.take(i) =~= s);
    }
}

/// Parses a decimal field: the value if the text is nothing but digits and
/// fits, and nothing on an empty field, a stray character, or overflow.
pub fn parse_u64(s: &Vec<char>) -> (r: Option<u64>)
    ensures
        r == spec_parse_u64(s@),
{
    if s.len() == 0 {
        return None;
    }
    let mut val: u64 = 0;
    let mut i: usize = 0;
    while i < s.len()
        invariant
            i <= s@.len(),
            s@.len() > 0,
            forall|m: int| 0 <= m < i ==> spec_char_val(#[trigger] s@[m]) < 10,
            val == spec_digits_val(s@.take(i as int)),
        decreases s@.len() - i,
    {
        let d = char_val(s[i]);
        if d >= 10 {
            proof {
                assert(spec_char_val(s@[i as int]) >= 10);
                assert(!spec_is_digits(s@));
            }
            return None;
        }
        proof {
            lemma_digits_val_step(s@, i as int);
        }
        if val > (u64::MAX - d as u64) / 10 {
            proof {
                lemma_digits_val_nonneg(s@.take(i as int));
                assert(spec_digits_val(s@.take(i as int + 1)) > u64::MAX);
                lemma_digits_val_prefix_le(s@, i as int + 1);
                assert(spec_digits_val(s@) > u64::MAX);
            }
            return None;
        }
        val = val * 10 + d as u64;
        i = i + 1;
    }
    proof {
        assert(s@.take(s@.len() as int) =~= s@);
    }
    Some(val)
}

/// The characters of a text, one by one.
pub fn str_chars(s: &str) -> (v: Vec<char>)
    ensures
        v@ == s@,
{
    let len = s.unicode_len();
    let mut v: Vec<char> = Vec::new();
    let mut i: usize = 0;
    while i < len
        invariant
            i <= len,
            len == s@.len(),
            v@ == s@.take(i as int),
        decreases len - i,
    {
        let c = s.get_char(i);
        v.push(c);
        proof {
            assert(v@ =~= s@.take(i as int + 1));
        }
        i = i + 1;
    }
    proof {
        assert(s@.take(len as int) =~= s@);
    }
    v
}

/// The loop state of `split_on`: the fields already closed, plus the open
/// one, agree with the split of the whole text.
spec fn split_state_ok(
    s: Seq<char>,
    sep: char,
    done: Seq<Vec<char>>,
    cur: Seq<char>,
    i: int,
) -> bool {
    let full = spec_split(s, sep);
    let rem = spec_split(s.skip(i), sep);
    &&& full.len() == done.len() + rem.len()
    &&& (forall|m: int| 0 <= m < done.len() ==> full[m] == (#[trigger] done[m])@)
    &&& full[done.len() as int] == cur + rem[0]
    &&& (forall|m: int| 1 <= m < rem.len() ==> #[trigger] full[done.len() + m] == rem[m])
}

/// Consuming one character turns the split of the rest into the split of
/// what is left after it.
proof fn lemma_split_step(s: Seq<char>, sep: char, i: int)
    requires
        0 <= i < s.len(),
    ensures
        s[i] == sep ==> spec_split(s.skip(i), sep) == seq![Seq::<char>::empty()].add(
            spec_split(s.skip(i + 1), sep),
        ),
        s[i] != sep ==> spec_split(s.skip(i), sep) == seq![
            seq![s[i]].add(spec_split(s.skip(i + 1), sep)[0]),
        ].add(spec_split(s.skip(i + 1), sep).drop_first()),
{
    assert(s.skip(i).len() > 0);
    assert(s.skip(i)[0] == s[i]);
    assert(s.skip(i).drop_first() =~= s.skip(i + 1));
}

/// Splits a text at every occurrence of `sep`: one field per separator,
/// plus one, in order.
pub fn split_on(s: &str, sep: char) -> (fields: Vec<Vec<char>>)
    ensures
        fields@.len() == spec_split(s@, sep).len(),
        forall|m: int|
            0 <= m < fields@.len() ==> (#[trigger] fields@[m])@ == spec_split(s@, sep)[m],
{
    let v = str_chars(s);
    split_chars(&v, sep)
}

/// Splits a field list at every occurrence of `sep`: one field per
/// separator, plus one, in order.
pub fn split_chars(s: &Vec<char>, sep: char) -> (fields: Vec<Vec<char>>)
    ensures
        fields@.len() == spec_split(s@, sep).len(),
        forall|m: int|
            0 <= m < fields@.len() ==> (#[trigger] fields@[m])@ == spec_split(s@, sep)[m],
{
    let len = s.len();
    let mut fields: Vec<Vec<char>> = Vec::new();
    let mut cur: Vec<char> = Vec::new();
    let mut i: usize = 0;
    proof {
        assert(s@.skip(0) =~= s@);
        lemma_split_len(s@, sep);
        assert(cur@ + spec_split(s@, sep)[0] =~= spec_split(s@, sep)[0]);
    }
    while i < len
        invariant
            i <= len,
            len == s@.len(),
            split_state_ok(s@, sep, fields@, cur@, i as int),
        decreases len - i,
    {
        let ghost done0 = fields@;
        let ghost cur0 = cur@;
        let ghost rem0 = spec_split(s@.skip(i as int), sep);
        let ghost rem1 = spec_split(s@.skip(i as int + 1), sep);
        proof {
            lemma_split_step(s@, sep, i as int);
            lemma_split_len(s@.skip(i as int + 1), sep);
        }
        let c = s[i];
        if c == sep {
            fields.push(cur);
            cur = Vec::new();
            proof {
                let full = spec_split(s@, sep);
                assert(rem0 == seq![Seq::<char>::empty()].add(rem1));
                assert(rem0[0] =~= Seq::<char>::empty());
                assert(cur0 + rem0[0] =~= cur0);
                assert(full[done0.len() as int] == cur0);
                assert forall|m: int| 0 <= m < fields@.len() implies full[m] == (
                #[trigger] fields@[m])@ by {
                    if m < done0.len() {
                        assert(fields@[m] == done0[m]);
                    } else {
                        assert(fields@[m] == done0.last() || fields@[m]@ == cur0);
                    }
                }
                assert(full[fields@.len() as int] == cur@ + rem1[0]) by {
                    assert(full[done0.len() as int + 1] == rem0[1]);
                    assert(rem0[1] == rem1[0]);
                    assert(cur@ + rem1[0] =~= rem1[0]);
                }
                assert forall|m: int| 1 <= m < rem1.len() implies #[trigger] full[fields@.len()
                    + m] == rem1[m] by {
                    assert(full[done0.len() as int + (m + 1)] == rem0[m + 1]);
                    assert(rem0[m + 1] == rem1[m]);
                }
            }
        } else {
            cur.push(c);
            proof {
                let full = spec_split(s@, sep);
                assert(rem0 == seq![seq![c].add(rem1[0])].add(rem1.drop_first()));
                assert(rem0[0] == seq![c].add(rem1[0]));
                assert(full[done0.len() as int] == cur0 + rem0[0]);
                assert(cur0 + rem0[0] =~= cur@ + rem1[0]);
                assert forall|m: int| 1 <= m < rem1.len() implies #[trigger] full[fields@.len()
                    + m] == rem1[m] by {
                    assert(full[done0.len() as int + m] == rem0[m]);
                    assert(rem0[m] == rem1.drop_first()[m - 1]);
                }
            }
        }
        i = i + 1;
    }
    proof {
        assert(s@.skip(len as int) =~= Seq::<char>::empty());
        let full = spec_split(s@, sep);
        let rem = spec_split(s@.skip(len as int), sep);
        assert(rem == seq![Seq::<char>::empty()]);
        assert(full[fields@.len() as int] == cur@ + rem[0]);
        assert(cur@ + rem[0] =~= cur@);
    }
    fields.push(cur);
    proof {
        assert forall|m: int|
            0 <= m < fields@.len() implies (#[trigger] fields@[m])@ == spec_split(s@, sep)[m] by {}
    }
    fields
}

} // verus!
