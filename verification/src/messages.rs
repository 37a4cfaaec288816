//! The texts of errors.

use vstd::prelude::*;
use vstd::string::*;

use crate::fri::ValidationError;

verus! {

/// The decimal digit `d`.
pub open spec fn digit(d: nat) -> Seq<char> {
    if d == 0 {
        "0"@
    } else if d == 1 {
        "1"@
    } else if d == 2 {
        "2"@
    } else if d == 3 {
        "3"@
    } else if d == 4 {
        "4"@
    } else if d == 5 {
        "5"@
    } else if d == 6 {
        "6"@
    } else if d == 7 {
        "7"@
    } else if d == 8 {
        "8"@
    } else {
        "9"@
    }
}

/// `n` in decimal digits.
pub open spec fn decimal(n: nat) -> Seq<char>
    decreases n,
{
    if n < 10 {
        digit(n)
    } else {
        decimal(n / 10) + digit(n % 10)
    }
}

/// The name of an error, with the round that it concerns.
pub open spec fn error_name(error: ValidationError) -> Seq<char> {
    match error {
        ValidationError::BadMerkleProof => "BadMerkleProof"@,
        ValidationError::BadSizedProof => "BadSizedProof"@,
        ValidationError::NonPostiveRoundCount => "NonPostiveRoundCount"@,
        ValidationError::NotColinear(round) => "NotColinear("@ + decimal(round as nat) + ")"@,
        ValidationError::LastIterationTooHighDegree => "LastIterationTooHighDegree"@,
        ValidationError::BadMerkleRootForLastCodeword => "BadMerkleRootForLastCodeword"@,
    }
}

/// The number that is read from decimal digits.
pub open spec fn decimal_value(text: Seq<char>) -> int
    decreases text.len(),
{
    if text.len() == 0 {
        0
    } else {
        10 * decimal_value(text.drop_last()) + (text.last() as int - '0' as int)
    }
}

/// The digits of a number are read as the number. Each is a decimal digit, and the
/// first is zero for no number but zero.
pub proof fn law_decimal_is_read_back(n: nat)
    ensures
        decimal_value(decimal(n)) == n,
        decimal(n).len() > 0,
        forall|i: int| 0 <= i < decimal(n).len() ==> '0' <= #[trigger] decimal(n)[i] <= '9',
        decimal(n)[0] == '0' ==> n == 0,
    decreases n,
{
    lemma_digit(n % 10);
    let d = digit(n % 10);
    if n < 10 {
        assert(d.drop_last() =~= Seq::empty());
        assert(decimal_value(d.drop_last()) == 0);
    } else {
        law_decimal_is_read_back(n / 10);
        assert(decimal(n).drop_last() =~= decimal(n / 10));
        assert forall|i: int| 0 <= i < decimal(n).len() implies '0' <= #[trigger] decimal(n)[i]
            <= '9' by {
            if i < decimal(n / 10).len() {
                assert(decimal(n)[i] == decimal(n / 10)[i]);
            }
        }
    }
}

/// A digit is a single character, at its distance from zero.
proof fn lemma_digit(d: nat)
    requires
        d < 10,
    ensures
        digit(d).len() == 1,
        digit(d)[0] as int == '0' as int + d,
{
    reveal_strlit("0");
    reveal_strlit("1");
    reveal_strlit("2");
    reveal_strlit("3");
    reveal_strlit("4");
    reveal_strlit("5");
    reveal_strlit("6");
    reveal_strlit("7");
    reveal_strlit("8");
    reveal_strlit("9");
}

/// Appends `n` in decimal digits.
fn append_decimal(out: &mut String, n: usize)
    ensures
        final(out)@ == old(out)@ + decimal(n as nat),
    decreases n,
{
    if n >= 10 {
        append_decimal(out, n / 10);
    }
    let d: usize = n % 10;
    let text: &str = if d == 0 {
        "0"
    } else if d == 1 {
        "1"
    } else if d == 2 {
        "2"
    } else if d == 3 {
        "3"
    } else if d == 4 {
        "4"
    } else if d == 5 {
        "5"
    } else if d == 6 {
        "6"
    } else if d == 7 {
        "7"
    } else if d == 8 {
        "8"
    } else {
        "9"
    };
    out.append(text);
    assert(out@ =~= old(out)@ + decimal(n as nat));
}

impl ValidationError {
    /// The text of the error.
    pub fn message(&self) -> (text: String)
        ensures
            text@ == "Deserialization error for LowDegreeProof: "@ + error_name(*self),
            text@ == "Deserialization error for LowDegreeProof: "@ + match *self {
                ValidationError::BadMerkleProof => "BadMerkleProof"@,
                ValidationError::BadSizedProof => "BadSizedProof"@,
                ValidationError::NonPostiveRoundCount => "NonPostiveRoundCount"@,
                ValidationError::NotColinear(round) => "NotColinear("@ + decimal(round as nat)
                    + ")"@,
                ValidationError::LastIterationTooHighDegree => "LastIterationTooHighDegree"@,
                ValidationError::BadMerkleRootForLastCodeword => "BadMerkleRootForLastCodeword"@,
            },
    {
        let mut text: String = "Deserialization error for LowDegreeProof: ".to_owned();
        let ghost start: Seq<char> = text@;
        match self {
            ValidationError::BadMerkleProof => text.append("BadMerkleProof"),
            ValidationError::BadSizedProof => text.append("BadSizedProof"),
            ValidationError::NonPostiveRoundCount => text.append("NonPostiveRoundCount"),
            ValidationError::NotColinear(round) => {
                text.append("NotColinear(");
                append_decimal(&mut text, *round);
                text.append(")");
                assert(text@ =~= start + error_name(*self));
            },
            ValidationError::LastIterationTooHighDegree => text.append(
                "LastIterationTooHighDegree",
            ),
            ValidationError::BadMerkleRootForLastCodeword => text.append(
                "BadMerkleRootForLastCodeword",
            ),
        }
        text
    }
}

} // verus!
