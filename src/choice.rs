//! Reading a user's answer when a duplicate group spans several directories.
use vstd::prelude::*;
use vstd::utf8::encode_utf8;

verus! {

/// An answer to the question which copy marks the directory to keep.
#[derive(Clone, Copy, Debug, PartialEq, Eq)]
pub enum Choice {
    /// Leave this group as it is.
    Skip,
    /// Stop the whole run.
    Cancel,
    /// The copy at this position (counted from 1) marks the directory to keep.
    Pick(usize),
}

/// The text without leading and trailing whitespace.
pub uninterp spec fn trimmed(s: Seq<char>) -> Seq<char>;

/// The text in lower case.
pub uninterp spec fn lowercased(s: Seq<char>) -> Seq<char>;

/// Relies on `str::trim`: the result depends on the text alone.
#[verifier::external_body]
fn trim_text(s: &str) -> (r: String)
    ensures
        r@ == trimmed(s@),
{
    s.trim().to_string()
}

/// Relies on `str::to_lowercase`: the result depends on the text alone.
#[verifier::external_body]
fn lower_text(s: &str) -> (r: String)
    ensures
        r@ == lowercased(s@),
{
    s.to_lowercase()
}

pub open spec fn is_digit(b: u8) -> bool {
    48 <= b <= 57
}

/// The number that a run of decimal digits writes.
pub open spec fn digits_value(b: Seq<u8>) -> int
    decreases b.len(),
{
    if b.len() == 0 {
        0
    } else {
        digits_value(b.drop_last()) * 10 + (b.last() - 48)
    }
}

pub open spec fn all_digits(b: Seq<u8>) -> bool {
    b.len() > 0 && forall|i: int| 0 <= i < b.len() ==> is_digit(#[trigger] b[i])
}

/// The digits of an unsigned decimal, after an optional leading `+`.
pub open spec fn unsigned_digits(b: Seq<u8>) -> Seq<u8> {
    if b.len() > 0 && b[0] == 43 {
        b.skip(1)
    } else {
        b
    }
}

/// What a normalised answer means: `s`, `c`, or a number from 1 to `max`.
pub open spec fn choice_of(b: Seq<u8>, max: usize) -> Option<Choice> {
    let d = unsigned_digits(b);
    if b == seq![115u8] {
        Some(Choice::Skip)
    } else if b == seq![99u8] {
        Some(Choice::Cancel)
    } else if all_digits(d) && 1 <= digits_value(d) <= max {
        Some(Choice::Pick(digits_value(d) as usize))
    } else {
        None
    }
}

proof fn lemma_digits_grow(b: Seq<u8>, i: int)
    requires
        0 <= i <= b.len(),
        forall|k: int| 0 <= k < b.len() ==> is_digit(#[trigger] b[k]),
    ensures
        0 <= digits_value(b.take(i)) <= digits_value(b),
    decreases b.len(),
{
    if b.len() > 0 {
        if i == b.len() {
            assert(b.take(i) =~= b);
            lemma_digits_grow(b.drop_last(), b.len() - 1);
            assert(b.drop_last().take(b.len() - 1) =~= b.drop_last());
        } else {
            lemma_digits_grow(b.drop_last(), i);
            assert(b.drop_last().take(i) =~= b.take(i));
        }
    }
}

/// The number that `d` writes in decimal, when every byte is a digit and the
/// number lies between 1 and `max`.
pub fn parse_position(d: &[u8], max: usize) -> (r: Option<usize>)
    ensures
        r == (if all_digits(d@) && 1 <= digits_value(d@) <= max {
            Some(digits_value(d@) as usize)
        } else {
            None::<usize>
        }),
{
    let mut acc: u128 = 0;
    let mut i: usize = 0;
    while i < d.len()
        invariant
            i <= d.len(),
            acc == digits_value(d@.take(i as int)),
            acc <= max,
            forall|k: int| 0 <= k < i ==> is_digit(#[trigger] d@[k]),
        decreases d.len() - i,
    {
        if d[i] < 48 || d[i] > 57 {
            return None;
        }
        assert(d@.take(i + 1).drop_last() =~= d@.take(i as int));
        acc = acc * 10 + (d[i] - 48) as u128;
        i = i + 1;
        if acc > max as u128 {
            proof {
                if forall|k: int| 0 <= k < d@.len() ==> is_digit(#[trigger] d@[k]) {
                    lemma_digits_grow(d@, i as int);
                }
            }
            return None;
        }
    }
    assert(d@.take(i as int) =~= d@);
    if d.len() == 0 || acc == 0 {
        None
    } else {
        Some(acc as usize)
    }
}

/// Reads an answer: after trimming and lower-casing, `s` skips the group, `c`
/// cancels, and a decimal from 1 to `max` picks that copy; anything else is
/// no answer.
pub fn parse_choice(line: &str, max: usize) -> (r: Option<Choice>)
    ensures
        r == choice_of(encode_utf8(lowercased(trimmed(line@))), max),
{
    let t = trim_text(line);
    let l = lower_text(t.as_str());
    let b = l.as_str().as_bytes();
    let ghost bs = encode_utf8(lowercased(trimmed(line@)));
    assert(b@ == bs);
    if b.len() == 1 && b[0] == 115 {
        assert(b@ =~= seq![115u8]);
        return Some(Choice::Skip);
    }
    if b.len() == 1 && b[0] == 99 {
        assert(b@ =~= seq![99u8]);
        return Some(Choice::Cancel);
    }
    assert(b@ != seq![115u8] && b@ != seq![99u8]) by {
        if b@ == seq![115u8] || b@ == seq![99u8] {
            assert(b@.len() == 1);
        }
    }
    let p = if b.len() > 0 && b[0] == 43 {
        let rest = crate::remote::copy_bytes(b, 1, b.len());
        assert(rest@ =~= b@.skip(1));
        parse_position(rest.as_slice(), max)
    } else {
        parse_position(b, max)
    };
    match p {
        Some(n) => Some(Choice::Pick(n)),
        None => None,
    }
}

} // verus!
