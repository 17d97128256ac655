//! Errors of the parties' network.

use vstd::prelude::*;

verus! {

/// What can go wrong on the network.
#[derive(Clone, Debug, PartialEq, Eq)]
pub enum MpcNetError {
    Generic(String),
}

/// The decimal digit `d`.
pub open spec fn digit(d: nat) -> char {
    (d + '0' as int) as char
}

/// The number `n` in decimal, without leading zeros.
pub open spec fn decimal(n: nat) -> Seq<char>
    decreases n,
{
    if n < 10 {
        seq![digit(n)]
    } else {
        decimal(n / 10).push(digit(n % 10))
    }
}

fn digit_text(d: u32) -> (s: &'static str)
    requires
        d < 10,
    ensures
        s@ == seq![digit(d as nat)],
{
    proof {
        reveal_strlit("0");
        reveal_strlit("1");
        reveal_strlit("2");
        reveal_strlit("3");
        reveal_strlit("4");
        reveal_strlit("5");
        reveal_strlit("6");
        reveal_strlit("7");
        reveal_strlit("8");
        reveal_strlit("9");
    }
    if d == 0 {
        "0"
    } else if d == 1 {
        "1"
    } else if d == 2 {
        "2"
    } else if d == 3 {
        "3"
    } else if d == 4 {
        "4"
    } else if d == 5 {
        "5"
    } else if d == 6 {
        "6"
    } else if d == 7 {
        "7"
    } else if d == 8 {
        "8"
    } else {
        "9"
    }
}

fn decimal_text(n: u32) -> (s: String)
    ensures
        s@ == decimal(n as nat),
    decreases n,
{
    if n < 10 {
        digit_text(n).to_owned()
    } else {
        let mut s: String = decimal_text(n / 10);
        s.append(digit_text(n % 10));
        assert(s@ == decimal((n / 10) as nat).push(digit((n % 10) as nat)));
        s
    }
}

impl MpcNetError {
    /// The text of the error.
    pub open spec fn text(self) -> Seq<char> {
        match self {
            MpcNetError::Generic(s) => s@,
        }
    }

    pub(crate) fn of(text: &str) -> (e: MpcNetError)
        ensures
            e.text() == text@,
    {
        MpcNetError::Generic(text.to_owned())
    }

    /// An error about party `id`: its number between two pieces of text.
    pub(crate) fn about(before: &str, id: u32, after: &str) -> (e: MpcNetError)
        ensures
            e.text() == before@ + decimal(id as nat) + after@,
    {
        let mut s: String = before.to_owned();
        s.append(decimal_text(id).as_str());
        s.append(after);
        MpcNetError::Generic(s)
    }
}

/// The number that decimal digits write.
pub open spec fn reading(digits: Seq<char>) -> int
    decreases digits.len(),
{
    if digits.len() == 0 {
        0
    } else {
        10 * reading(digits.drop_last()) + (digits.last() as int - '0' as int)
    }
}

/// A number is written so that it can be read back: in digits, of which there is one at
/// least, and the first is not a zero but for the number zero.
pub proof fn law_decimal_reads_back(n: nat)
    ensures
        reading(decimal(n)) == n,
        decimal(n).len() > 0,
        forall|i: int| 0 <= i < decimal(n).len() ==> '0' <= #[trigger] decimal(n)[i] <= '9',
        n > 0 ==> decimal(n)[0] != '0',
        n == 0 ==> decimal(n).len() == 1,
    decreases n,
{
    if n >= 10 {
        law_decimal_reads_back(n / 10);
        let d = decimal(n);
        assert(d.drop_last() =~= decimal(n / 10));
        assert(d.last() == digit(n % 10));
    } else {
        assert(decimal(n).drop_last() =~= Seq::<char>::empty());
        assert(reading(Seq::<char>::empty()) == 0);
    }
}

} // verus!
