//! The error type shared by the model, and decimal text for its messages.
use vstd::prelude::*;

verus! {

/// `<u64 as Hash>::hash` from std: feeds the number to the hasher.
/// Nothing is stated of what the hasher holds afterwards.
pub assume_specification<H: core::hash::Hasher>[ <u64 as core::hash::Hash>::hash::<H> ](
    data: &u64,
    state: &mut H,
);

/// One error to rule them all!
#[derive(Debug)]
pub struct GenericErr(pub String);

impl GenericErr {
    /// An error with the given message.
    pub fn new(text: String) -> (err: Self)
        ensures
            err.0@ == text@,
    {
        GenericErr(text)
    }
}

/// The character of decimal digit `d`.
pub open spec fn digit_char(d: int) -> char {
    (('0' as int) + d) as char
}

/// Decimal digits of a natural number, most significant first.
pub open spec fn nat_decimal(n: nat) -> Seq<char>
    decreases n,
{
    if n < 10 {
        seq![digit_char(n as int)]
    } else {
        nat_decimal(n / 10).push(digit_char((n % 10) as int))
    }
}

/// Decimal text of an integer, with a leading '-' when it is negative.
pub open spec fn int_decimal(v: int) -> Seq<char> {
    if v < 0 {
        seq!['-'] + nat_decimal((-v) as nat)
    } else {
        nat_decimal(v as nat)
    }
}

fn digit_str(d: u32) -> (s: &'static str)
    requires
        d < 10,
    ensures
        s@ == seq![digit_char(d as int)],
{
    proof {
        reveal_strlit("0");
        reveal_strlit("1");
        reveal_strlit("2");
        reveal_strlit("3");
        reveal_strlit("4");
        reveal_strlit("5");
        reveal_strlit("6");
        reveal_strlit("7");
        reveal_strlit("8");
        reveal_strlit("9");
    }
    match d {
        0 => "0",
        1 => "1",
        2 => "2",
        3 => "3",
        4 => "4",
        5 => "5",
        6 => "6",
        7 => "7",
        8 => "8",
        _ => "9",
    }
}

fn append_decimal(s: &mut String, n: u64)
    ensures
        final(s)@ == old(s)@ + nat_decimal(n as nat),
    decreases n,
{
    if n >= 10 {
        append_decimal(s, n / 10);
    }
    s.append(digit_str((n % 10) as u32));
    assert(old(s)@ + nat_decimal(n as nat) =~= if n >= 10 {
        old(s)@ + nat_decimal((n / 10) as nat) + seq![digit_char((n % 10) as int)]
    } else {
        old(s)@ + seq![digit_char((n % 10) as int)]
    });
}

/// `prefix` followed by the decimal text of `val`.
pub fn text_with_number(prefix: &str, val: i32) -> (s: String)
    ensures
        s@ == prefix@ + int_decimal(val as int),
{
    let mut s = String::from_str(prefix);
    if val < 0 {
        s.append("-");
        proof {
            reveal_strlit("-");
        }
        let mag: u64 = (-(val as i64)) as u64;
        append_decimal(&mut s, mag);
        assert(s@ =~= prefix@ + int_decimal(val as int));
    } else {
        append_decimal(&mut s, val as u64);
    }
    s
}


/// Appends the decimal text of `n`.
pub fn push_decimal(s: &mut String, n: usize)
    ensures
        final(s)@ == old(s)@ + nat_decimal(n as nat),
{
    append_decimal(s, n as u64);
}

} // verus!
