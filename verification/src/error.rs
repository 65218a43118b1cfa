use vstd::prelude::*;

verus! {

/// Errors returned when an input cannot support the requested arithmetic.
#[derive(Debug, Clone, PartialEq, Eq, Structural)]
pub enum SerpError {
    /// A rate was requested from zero impressions; the ratio is undefined.
    NoImpressions,
    /// Clicks exceeded impressions, which no search-console export can legitimately report.
    ClicksExceedImpressions {
        /// The clicks that were supplied.
        clicks: u64,
        /// The impressions that were supplied.
        impressions: u64,
    },
    /// A position value was not a finite number `>= 1.0`.
    InvalidPosition,
    /// The input slice was empty, so there is nothing to aggregate.
    EmptyInput,
    /// The curve holds no observation covering the requested position.
    PositionNotInCurve(u32),
}

/// The character of a decimal digit `d` (`0 <= d < 10`).
pub open spec fn digit_char(d: nat) -> char {
    (48 + d) as char
}

/// The decimal spelling of `n`, most significant digit first, without leading zeros.
pub open spec fn decimal(n: nat) -> Seq<char>
    decreases n,
{
    if n < 10 {
        seq![digit_char(n)]
    } else {
        decimal(n / 10) + seq![digit_char(n % 10)]
    }
}

/// The human-readable text of an error.
pub open spec fn error_message(e: SerpError) -> Seq<char> {
    match e {
        SerpError::NoImpressions => "no impressions, rate is undefined"@,
        SerpError::ClicksExceedImpressions { clicks, impressions } => "clicks ("@ + decimal(
            clicks as nat,
        ) + ") exceed impressions ("@ + decimal(impressions as nat) + ")"@,
        SerpError::InvalidPosition => "position must be a finite number >= 1.0"@,
        SerpError::EmptyInput => "input is empty"@,
        SerpError::PositionNotInCurve(p) => "curve has no observation for position "@ + decimal(
            p as nat,
        ),
    }
}

fn digit_str(d: u64) -> (s: &'static str)
    requires
        d < 10,
    ensures
        s@ == seq![digit_char(d as nat)],
{
    match d {
        0 => {
            proof {
                reveal_strlit("0");
            }
            "0"
        },
        1 => {
            proof {
                reveal_strlit("1");
            }
            "1"
        },
        2 => {
            proof {
                reveal_strlit("2");
            }
            "2"
        },
        3 => {
            proof {
                reveal_strlit("3");
            }
            "3"
        },
        4 => {
            proof {
                reveal_strlit("4");
            }
            "4"
        },
        5 => {
            proof {
                reveal_strlit("5");
            }
            "5"
        },
        6 => {
            proof {
                reveal_strlit("6");
            }
            "6"
        },
        7 => {
            proof {
                reveal_strlit("7");
            }
            "7"
        },
        8 => {
            proof {
                reveal_strlit("8");
            }
            "8"
        },
        _ => {
            proof {
                reveal_strlit("9");
            }
            "9"
        },
    }
}

/// Appends the decimal spelling of `n` to `s`.
fn append_decimal(s: &mut String, n: u64)
    ensures
        final(s)@ == old(s)@ + decimal(n as nat),
    decreases n,
{
    if n >= 10 {
        append_decimal(s, n / 10);
    }
    s.append(digit_str(n % 10));
    assert(final(s)@ =~= old(s)@ + decimal(n as nat));
}

impl SerpError {
    /// The error as text, e.g. "curve has no observation for position 7".
    pub fn to_string(&self) -> (text: String)
        ensures
            text@ == error_message(*self),
    {
        match self {
            SerpError::NoImpressions => String::from_str("no impressions, rate is undefined"),
            SerpError::ClicksExceedImpressions { clicks, impressions } => {
                let mut s = String::from_str("clicks (");
                append_decimal(&mut s, *clicks);
                s.append(") exceed impressions (");
                append_decimal(&mut s, *impressions);
                s.append(")");
                s
            },
            SerpError::InvalidPosition => String::from_str(
                "position must be a finite number >= 1.0",
            ),
            SerpError::EmptyInput => String::from_str("input is empty"),
            SerpError::PositionNotInCurve(p) => {
                let mut s = String::from_str("curve has no observation for position ");
                append_decimal(&mut s, *p as u64);
                s
            },
        }
    }
}

} // verus!
