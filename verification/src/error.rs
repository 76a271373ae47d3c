//! Error type for the explicit mapping APIs ([`Arena`](crate::Arena),
//! [`SecretBuf`](crate::SecretBuf)).

use vstd::prelude::*;

use crate::config::{digits_value, law_digits_are_positional};

verus! {

/// A request to the kernel for memory could not be satisfied.
#[derive(Clone, Copy, Debug, PartialEq, Eq, Structural)]
pub struct MapFailed {
    /// Bytes that were requested from the kernel.
    pub bytes: usize,
}

/// The decimal digit `d`.
pub open spec fn digit_char(d: int) -> char {
    ('0' as int + d) as char
}

/// `n` in decimal notation.
pub open spec fn decimal(n: nat) -> Seq<char>
    decreases n,
{
    if n < 10 {
        seq![digit_char(n as int)]
    } else {
        decimal(n / 10).push(digit_char((n % 10) as int))
    }
}

/// Decimal notation reads back as the number: it is made of decimal digits, spells
/// `n`, and starts with a zero only for zero itself.
pub proof fn law_decimal_reads_back(n: nat)
    ensures
        decimal(n).len() > 0,
        forall|i: int| 0 <= i < decimal(n).len() ==> '0' <= #[trigger] decimal(n)[i] <= '9',
        digits_value(decimal(n)) == n,
        decimal(n)[0] == '0' ==> n == 0,
    decreases n,
{
    if n < 10 {
        law_digits_are_positional(Seq::empty(), n as int);
        assert(decimal(n) =~= Seq::<char>::empty().push(digit_char(n as int)));
    } else {
        law_decimal_reads_back(n / 10);
        law_digits_are_positional(decimal(n / 10), (n % 10) as int);
        assert(decimal(n)[0] == decimal(n / 10)[0]);
    }
}

/// The digit `d` as a string.
fn digit_text(d: usize) -> (r: &'static str)
    requires
        d < 10,
    ensures
        r@ == seq![digit_char(d as int)],
{
    match d {
        0 => {
            proof {
                reveal_strlit("0");
            }
            "0"
        },
        1 => {
            proof {
                reveal_strlit("1");
            }
            "1"
        },
        2 => {
            proof {
                reveal_strlit("2");
            }
            "2"
        },
        3 => {
            proof {
                reveal_strlit("3");
            }
            "3"
        },
        4 => {
            proof {
                reveal_strlit("4");
            }
            "4"
        },
        5 => {
            proof {
                reveal_strlit("5");
            }
            "5"
        },
        6 => {
            proof {
                reveal_strlit("6");
            }
            "6"
        },
        7 => {
            proof {
                reveal_strlit("7");
            }
            "7"
        },
        8 => {
            proof {
                reveal_strlit("8");
            }
            "8"
        },
        _ => {
            proof {
                reveal_strlit("9");
            }
            "9"
        },
    }
}

/// Append `n` in decimal notation.
fn append_decimal(text: &mut String, n: usize)
    ensures
        final(text)@ == old(text)@ + decimal(n as nat),
    decreases n,
{
    if n >= 10 {
        append_decimal(text, n / 10);
    }
    text.append(digit_text(n % 10));
    assert(text@ =~= old(text)@ + decimal(n as nat));
}

impl MapFailed {
    /// What went wrong, in words.
    pub fn message(&self) -> (r: String)
        ensures
            r@ == "failed to map "@ + decimal(self.bytes as nat) + " bytes from the kernel"@,
    {
        let mut text = String::from_str("failed to map ");
        append_decimal(&mut text, self.bytes);
        text.append(" bytes from the kernel");
        text
    }
}

} // verus!
