//! Deterministic chunk-file names: `{prefix}_{index}_{mate}.fastq`, with the
//! chunk index written in decimal and the mate labelled `R1` or `R2`.

use vstd::prelude::*;
use vstd::string::StringExecFns;

verus! {

/// The two mates of a paired-end run.
#[derive(Clone, Copy, Debug, PartialEq, Eq, Structural)]
pub enum ReadType {
    R1,
    R2,
}

/// The tail of a chunk-file name for one mate.
pub open spec fn spec_mate_suffix(read_type: ReadType) -> Seq<char> {
    match read_type {
        ReadType::R1 => "R1.fastq"@,
        ReadType::R2 => "R2.fastq"@,
    }
}

/// The character for one decimal digit.
pub open spec fn spec_digit_char(d: nat) -> char {
    if d == 0 {
        '0'
    } else if d == 1 {
        '1'
    } else if d == 2 {
        '2'
    } else if d == 3 {
        '3'
    } else if d == 4 {
        '4'
    } else if d == 5 {
        '5'
    } else if d == 6 {
        '6'
    } else if d == 7 {
        '7'
    } else if d == 8 {
        '8'
    } else {
        '9'
    }
}

/// The decimal digits of `n`, most significant first, without leading zeros
/// (zero itself is the single character `'0'`).
pub open spec fn spec_decimal(n: nat) -> Seq<char>
    decreases n,
{
    if n < 10 {
        seq![spec_digit_char(n)]
    } else {
        spec_decimal(n / 10).push(spec_digit_char(n % 10))
    }
}

/// The name of the chunk file for `index`: `{prefix}_{index}_{mate}.fastq`.
pub open spec fn spec_file_name(prefix: Seq<char>, index: nat, read_type: ReadType) -> Seq<char> {
    prefix + "_"@ + spec_decimal(index) + "_"@ + spec_mate_suffix(read_type)
}

/// One decimal digit as a string slice.
fn digit_str(d: usize) -> (s: &'static str)
    requires
        d < 10,
    ensures
        s@ == seq![spec_digit_char(d as nat)],
{
    match d {
        0 => {
            proof {
                reveal_strlit("0");
                assert("0"@ =~= seq![spec_digit_char(0)]);
            }
            "0"
        },
        1 => {
            proof {
                reveal_strlit("1");
                assert("1"@ =~= seq![spec_digit_char(1)]);
            }
            "1"
        },
        2 => {
            proof {
                reveal_strlit("2");
                assert("2"@ =~= seq![spec_digit_char(2)]);
            }
            "2"
        },
        3 => {
            proof {
                reveal_strlit("3");
                assert("3"@ =~= seq![spec_digit_char(3)]);
            }
            "3"
        },
        4 => {
            proof {
                reveal_strlit("4");
                assert("4"@ =~= seq![spec_digit_char(4)]);
            }
            "4"
        },
        5 => {
            proof {
                reveal_strlit("5");
                assert("5"@ =~= seq![spec_digit_char(5)]);
            }
            "5"
        },
        6 => {
            proof {
                reveal_strlit("6");
                assert("6"@ =~= seq![spec_digit_char(6)]);
            }
            "6"
        },
        7 => {
            proof {
                reveal_strlit("7");
                assert("7"@ =~= seq![spec_digit_char(7)]);
            }
            "7"
        },
        8 => {
            proof {
                reveal_strlit("8");
                assert("8"@ =~= seq![spec_digit_char(8)]);
            }
            "8"
        },
        _ => {
            proof {
                reveal_strlit("9");
                assert("9"@ =~= seq![spec_digit_char(9)]);
            }
            "9"
        },
    }
}

/// `n` written in decimal.
pub fn usize_to_decimal(n: usize) -> (s: String)
    ensures
        s@ == spec_decimal(n as nat),
    decreases n,
{
    if n < 10 {
        String::from_str(digit_str(n))
    } else {
        let mut s = usize_to_decimal(n / 10);
        s.append(digit_str(n % 10));
        proof {
            assert(s@ =~= spec_decimal((n as nat) / 10).push(spec_digit_char((n as nat) % 10)));
        }
        s
    }
}

/// The name of the chunk file for `index`, `read_type` and `prefix`:
/// `{prefix}_{index}_{mate}.fastq`.
pub fn get_file_name(index: usize, read_type: &ReadType, prefix: &str) -> (name: String)
    ensures
        name@ == spec_file_name(prefix@, index as nat, *read_type),
{
    let mut name = String::from_str(prefix);
    name.append("_");
    let digits = usize_to_decimal(index);
    name.append(digits.as_str());
    name.append("_");
    match read_type {
        ReadType::R1 => name.append("R1.fastq"),
        ReadType::R2 => name.append("R2.fastq"),
    }
    proof {
        assert(name@ =~= spec_file_name(prefix@, index as nat, *read_type));
    }
    name
}

} // verus!
