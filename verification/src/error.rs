//! The error a collector reports, and its text.
use crate::single::{law_exponent_field_decides, Single, INFINITY_BITS};
use vstd::prelude::*;
use vstd::string::*;

verus! {

/// What sort of failure an [`Error`] reports.
#[derive(Clone, Copy, Debug, PartialEq, Eq, Structural)]
pub enum ErrorKind {
    /// Data that was read or computed is malformed.
    InvalidData,
}

/// A failure with its text.
#[derive(Debug)]
pub struct Error {
    pub kind: ErrorKind,
    pub message: String,
}

/// The character of a decimal digit.
pub open spec fn digit(d: nat) -> char {
    if d == 0 {
        '0'
    } else if d == 1 {
        '1'
    } else if d == 2 {
        '2'
    } else if d == 3 {
        '3'
    } else if d == 4 {
        '4'
    } else if d == 5 {
        '5'
    } else if d == 6 {
        '6'
    } else if d == 7 {
        '7'
    } else if d == 8 {
        '8'
    } else {
        '9'
    }
}

/// A natural number in decimal, without leading zeros.
pub open spec fn decimal(n: nat) -> Seq<char>
    decreases n,
{
    if n < 10 {
        seq![digit(n)]
    } else {
        decimal(n / 10).push(digit(n % 10))
    }
}

/// An integer in decimal, with a minus sign where it is negative.
pub open spec fn signed_decimal(i: int) -> Seq<char> {
    if i < 0 {
        seq!['-'] + decimal((-i) as nat)
    } else {
        decimal(i as nat)
    }
}

/// The text of a number that is not finite.
pub open spec fn non_finite_text(value: Single) -> Seq<char> {
    if value.nan() {
        "NaN"@
    } else if value == Single::infinity() {
        "inf"@
    } else {
        "-inf"@
    }
}

/// The text of the error for a row whose computed distance is not finite.
pub open spec fn non_finite_message(id: int, value: Single) -> Seq<char> {
    "non-finite distance "@ + non_finite_text(value) + " computed for row "@ + signed_decimal(id)
}

/// The decimal text of a number by its digits: the last one stands for the
/// remainder by ten, what is before it is the text of the quotient, and the first
/// one is a zero in the text of zero alone.
pub proof fn law_decimal_by_digits(n: nat)
    ensures
        decimal(n).len() > 0,
        decimal(n).last() as int == '0' as int + n % 10,
        n < 10 ==> decimal(n).len() == 1,
        n >= 10 ==> decimal(n).drop_last() == decimal(n / 10),
        decimal(n)[0] == '0' <==> n == 0,
        forall|i: int| 0 <= i < decimal(n).len() ==> '0' <= #[trigger] decimal(n)[i] <= '9',
    decreases n,
{
    if n >= 10 {
        law_decimal_by_digits(n / 10);
        assert(decimal(n).drop_last() =~= decimal(n / 10));
        assert(decimal(n)[0] == decimal(n / 10)[0]);
        assert forall|i: int| 0 <= i < decimal(n).len() implies '0' <= #[trigger] decimal(n)[i]
            <= '9' by {
            if i < decimal(n).len() - 1 {
                assert(decimal(n)[i] == decimal(n / 10)[i]);
            }
        }
    }
}

/// Two numbers with the same decimal text are equal.
pub proof fn law_decimal_tells_numbers_apart(a: nat, b: nat)
    requires
        decimal(a) == decimal(b),
    ensures
        a == b,
    decreases a,
{
    law_decimal_by_digits(a);
    law_decimal_by_digits(b);
    if a >= 10 {
        law_decimal_by_digits(a / 10);
    }
    if b >= 10 {
        law_decimal_by_digits(b / 10);
    }
    if a >= 10 && b >= 10 {
        law_decimal_tells_numbers_apart(a / 10, b / 10);
    } else if a >= 10 {
        assert(decimal(a).drop_last().len() > 0);
    } else if b >= 10 {
        assert(decimal(b).drop_last().len() > 0);
    }
}

/// The error's text names the value, as an infinity by its sign or as a NaN, and
/// the row in decimal, with a minus sign where its number is negative.
pub proof fn law_message_names_value_and_row(id: int, value: Single)
    requires
        (value.bits / 0x80_0000) % 0x100 == 0xff,
    ensures
        value.bits % 0x80_0000 != 0 && id >= 0 ==> non_finite_message(id, value)
            == "non-finite distance NaN computed for row "@ + decimal(id as nat),
        value.bits % 0x80_0000 != 0 && id < 0 ==> non_finite_message(id, value)
            == "non-finite distance NaN computed for row -"@ + decimal((-id) as nat),
        value.bits == 0x7f80_0000 && id >= 0 ==> non_finite_message(id, value)
            == "non-finite distance inf computed for row "@ + decimal(id as nat),
        value.bits == 0x7f80_0000 && id < 0 ==> non_finite_message(id, value)
            == "non-finite distance inf computed for row -"@ + decimal((-id) as nat),
        value.bits == 0xff80_0000 && id >= 0 ==> non_finite_message(id, value)
            == "non-finite distance -inf computed for row "@ + decimal(id as nat),
        value.bits == 0xff80_0000 && id < 0 ==> non_finite_message(id, value)
            == "non-finite distance -inf computed for row -"@ + decimal((-id) as nat),
{
    law_exponent_field_decides(value);
    let front = "non-finite distance "@;
    let back = " computed for row "@;
    reveal_strlit("non-finite distance ");
    reveal_strlit(" computed for row ");
    if value.nan() {
        reveal_strlit("NaN");
        reveal_strlit("non-finite distance NaN computed for row ");
        reveal_strlit("non-finite distance NaN computed for row -");
        let head = "non-finite distance NaN computed for row "@;
        assert(front + "NaN"@ + back =~= head);
        assert(head + seq!['-'] =~= "non-finite distance NaN computed for row -"@);
        lemma_signed_text(head, id);
    } else if value == Single::infinity() {
        reveal_strlit("inf");
        reveal_strlit("non-finite distance inf computed for row ");
        reveal_strlit("non-finite distance inf computed for row -");
        let head = "non-finite distance inf computed for row "@;
        assert(front + "inf"@ + back =~= head);
        assert(head + seq!['-'] =~= "non-finite distance inf computed for row -"@);
        lemma_signed_text(head, id);
    } else {
        reveal_strlit("-inf");
        reveal_strlit("non-finite distance -inf computed for row ");
        reveal_strlit("non-finite distance -inf computed for row -");
        let head = "non-finite distance -inf computed for row "@;
        assert(front + "-inf"@ + back =~= head);
        assert(head + seq!['-'] =~= "non-finite distance -inf computed for row -"@);
        lemma_signed_text(head, id);
    }
}

/// A text followed by a signed number.
proof fn lemma_signed_text(head: Seq<char>, id: int)
    ensures
        id >= 0 ==> head + signed_decimal(id) == head + decimal(id as nat),
        id < 0 ==> head + signed_decimal(id) == head + seq!['-'] + decimal((-id) as nat),
{
    if id < 0 {
        assert(head + signed_decimal(id) =~= head + seq!['-'] + decimal((-id) as nat));
    }
}

fn digit_str(d: u64) -> (s: &'static str)
    requires
        d < 10,
    ensures
        s@ == seq![digit(d as nat)],
{
    proof {
        reveal_strlit("0");
        reveal_strlit("1");
        reveal_strlit("2");
        reveal_strlit("3");
        reveal_strlit("4");
        reveal_strlit("5");
        reveal_strlit("6");
        reveal_strlit("7");
        reveal_strlit("8");
        reveal_strlit("9");
    }
    match d {
        0 => "0",
        1 => "1",
        2 => "2",
        3 => "3",
        4 => "4",
        5 => "5",
        6 => "6",
        7 => "7",
        8 => "8",
        _ => "9",
    }
}

fn append_decimal(text: &mut String, n: u64)
    ensures
        final(text)@ == old(text)@ + decimal(n as nat),
    decreases n,
{
    if n >= 10 {
        append_decimal(text, n / 10);
    }
    text.append(digit_str(n % 10));
}

impl Error {
    /// The failure for a row whose computed distance is not finite.
    pub fn non_finite(id: i64, value: Single) -> (e: Error)
        requires
            !value.finite(),
        ensures
            e.kind == ErrorKind::InvalidData,
            e.message@ == non_finite_message(id as int, value),
    {
        let mut message: String = "non-finite distance ".to_owned();
        let shown: &str = if value.is_nan() {
            "NaN"
        } else if value.bits == INFINITY_BITS {
            "inf"
        } else {
            "-inf"
        };
        message.append(shown);
        message.append(" computed for row ");
        if id < 0 {
            proof {
                reveal_strlit("-");
            }
            message.append("-");
            let size: u64 = (-(id as i128)) as u64;
            append_decimal(&mut message, size);
        } else {
            append_decimal(&mut message, id as u64);
        }
        Error { kind: ErrorKind::InvalidData, message }
    }
}

} // verus!
