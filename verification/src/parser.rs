//! The lexer: filters source text down to the eight significant
//! symbols, preserving their order.  Every other byte is a comment and
//! is silently discarded.

use vstd::prelude::*;
use vstd::string::StringSliceAdditionalSpecFns;

use crate::instructions::Instruction;
use crate::instructions::is_primitive;
use crate::instructions::primitives_only;

verus! {

/// True of the eight bytes that carry meaning in a source text.
pub open spec fn significant(b: u8) -> bool {
    b == 43 || b == 45 || b == 60 || b == 62 || b == 46 || b == 44 || b == 91 || b == 93
}

/// The primitive instruction denoted by a significant byte.
pub open spec fn token_of(b: u8) -> Instruction
    recommends
        significant(b),
{
    if b == 43 {
        Instruction::Increment
    } else if b == 45 {
        Instruction::Decrement
    } else if b == 62 {
        Instruction::Right
    } else if b == 60 {
        Instruction::Left
    } else if b == 46 {
        Instruction::Print
    } else if b == 44 {
        Instruction::Read
    } else if b == 91 {
        Instruction::BlockStart
    } else {
        Instruction::BlockEnd
    }
}

/// The token stream of a source text: the significant bytes in order,
/// each mapped to its primitive instruction.
pub open spec fn lex(s: Seq<u8>) -> Seq<Instruction>
    decreases s.len(),
{
    if s.len() == 0 {
        Seq::empty()
    } else if significant(s.last()) {
        lex(s.drop_last()).push(token_of(s.last()))
    } else {
        lex(s.drop_last())
    }
}

/// The source text with every insignificant byte removed.
pub open spec fn scrub(s: Seq<u8>) -> Seq<u8>
    decreases s.len(),
{
    if s.len() == 0 {
        Seq::empty()
    } else if significant(s.last()) {
        scrub(s.drop_last()).push(s.last())
    } else {
        scrub(s.drop_last())
    }
}

/// Lexing ignores comments: a source lexes to the same token stream as
/// the same source with every insignificant byte removed.
pub proof fn lemma_lex_scrub(s: Seq<u8>)
    ensures
        lex(s) == lex(scrub(s)),
    decreases s.len(),
{
    if s.len() == 0 {
    } else if significant(s.last()) {
        lemma_lex_scrub(s.drop_last());
        assert(scrub(s).drop_last() =~= scrub(s.drop_last()));
    } else {
        lemma_lex_scrub(s.drop_last());
    }
}

/// Every token the lexer emits is a primitive symbol.
pub proof fn lemma_lex_primitive(s: Seq<u8>)
    ensures
        primitives_only(lex(s)),
    decreases s.len(),
{
    if s.len() > 0 {
        lemma_lex_primitive(s.drop_last());
        assert forall|i: int| 0 <= i < lex(s).len() implies is_primitive(
            #[trigger] lex(s)[i],
        ) by {
            if significant(s.last()) && i == lex(s).len() - 1 {
                assert(is_primitive(token_of(s.last())));
            } else {
                assert(lex(s)[i] == lex(s.drop_last())[i]);
            }
        }
    }
}

/// Filter a source text to its significant symbols, in order.
pub fn parse(string: &str) -> (r: Vec<Instruction>)
    ensures
        r@ == lex(string.spec_bytes()),
        primitives_only(r@),
{
    let bytes = string.as_bytes();
    let mut result: Vec<Instruction> = Vec::new();
    let mut i: usize = 0;
    while i < bytes.len()
        invariant
            i <= bytes.len(),
            bytes@ == string.spec_bytes(),
            result@ == lex(bytes@.take(i as int)),
        decreases bytes.len() - i,
    {
        let b = bytes[i];
        proof {
            assert(bytes@.take(i + 1).drop_last() =~= bytes@.take(i as int));
            assert(bytes@.take(i + 1).last() == b);
        }
        match b {
            43u8 => result.push(Instruction::Increment),
            45u8 => result.push(Instruction::Decrement),
            62u8 => result.push(Instruction::Right),
            60u8 => result.push(Instruction::Left),
            46u8 => result.push(Instruction::Print),
            44u8 => result.push(Instruction::Read),
            91u8 => result.push(Instruction::BlockStart),
            93u8 => result.push(Instruction::BlockEnd),
            _ => {},
        }
        i = i + 1;
    }
    proof {
        assert(bytes@.take(bytes@.len() as int) =~= bytes@);
        lemma_lex_primitive(string.spec_bytes());
    }
    result
}


/// An ASCII decimal digit.
pub open spec fn is_digit(b: u8) -> bool {
    48 <= b <= 57
}

/// How many decimal digits lead the text.
pub open spec fn digits_len(s: Seq<u8>) -> int
    decreases s.len(),
{
    if s.len() > 0 && is_digit(s[0]) {
        1 + digits_len(s.drop_first())
    } else {
        0
    }
}

/// The number the first `n` digits write, most significant first.
pub open spec fn digits_val(s: Seq<u8>, n: int) -> int
    decreases n,
{
    if n <= 0 {
        0
    } else {
        digits_val(s, n - 1) * 10 + (s[n - 1] - 48)
    }
}

/// The multiplier a size suffix denotes, if it is one of the four.
pub open spec fn unit_factor(b: u8) -> Option<int> {
    if b == 66 {
        Some(1)
    } else if b == 107 {
        Some(1024)
    } else if b == 77 {
        Some(1048576)
    } else if b == 71 {
        Some(1073741824)
    } else {
        None
    }
}

/// The byte count a memory-size text denotes: its leading digits
/// times its suffix's multiplier.  A text with no leading digit, or
/// whose first non-digit is not one of the four suffixes, denotes
/// nothing.
pub open spec fn mem_size_spec(s: Seq<u8>) -> Option<int> {
    let n = digits_len(s);
    if n == 0 {
        None
    } else if n == s.len() {
        Some(digits_val(s, n))
    } else {
        match unit_factor(s[n]) {
            Some(u) => Some(digits_val(s, n) * u),
            None => None,
        }
    }
}

/// Digit prefixes never lead past the text, and their leading run is
/// digits followed by a non-digit.
proof fn lemma_digits_len(s: Seq<u8>, n: int)
    requires
        0 <= n <= s.len(),
        forall|k: int| 0 <= k < n ==> is_digit(#[trigger] s[k]),
        n == s.len() || !is_digit(s[n]),
    ensures
        digits_len(s) == n,
    decreases n,
{
    if n > 0 {
        lemma_digits_len(s.drop_first(), n - 1);
        assert(forall|k: int| 0 <= k < n - 1 ==> s.drop_first()[k] == s[k + 1]);
    }
}

/// A number only grows as more of its digits are read.
proof fn lemma_digits_val_mono(s: Seq<u8>, m: int, n: int)
    requires
        0 <= m <= n,
        forall|k: int| 0 <= k < n ==> is_digit(#[trigger] s[k]),
    ensures
        0 <= digits_val(s, m) <= digits_val(s, n),
    decreases n,
{
    if n > 0 {
        if m == n {
            lemma_digits_val_mono(s, 0, n - 1);
        } else {
            lemma_digits_val_mono(s, m, n - 1);
        }
    }
}

/// The counted digit prefix is made of digits.
proof fn lemma_digits_len_digits(s: Seq<u8>)
    ensures
        0 <= digits_len(s) <= s.len(),
        forall|k: int| 0 <= k < digits_len(s) ==> is_digit(#[trigger] s[k]),
    decreases s.len(),
{
    if s.len() > 0 && is_digit(s[0]) {
        lemma_digits_len_digits(s.drop_first());
        assert forall|k: int| 0 <= k < digits_len(s) implies is_digit(#[trigger] s[k]) by {
            if k > 0 {
                assert(s.drop_first()[k - 1] == s[k]);
            }
        }
    }
}

/// Read a memory size with an optional `B`, `k`, `M` or `G` suffix;
/// an absent argument means 256 bytes.  A malformed size, or one too
/// large for this machine, is rejected.
pub fn parse_memory_size(input: Option<&str>) -> (r: Option<usize>)
    ensures
        match input {
            None => r == Some(256usize),
            Some(s) => match mem_size_spec(s.spec_bytes()) {
                Some(v) => if v <= usize::MAX {
                    r == Some(v as usize)
                } else {
                    r is None
                },
                None => r is None,
            },
        },
{
    let s = match input {
        None => {
            return Some(256);
        },
        Some(s) => s,
    };
    let bytes = s.as_bytes();
    let ghost b = bytes@;
    let mut i: usize = 0;
    let mut acc: usize = 0;
    while i < bytes.len() && 48 <= bytes[i] && bytes[i] <= 57
        invariant
            input == Some(s),
            b == bytes@,
            b == s.spec_bytes(),
            i <= b.len(),
            acc == digits_val(b, i as int),
            forall|k: int| 0 <= k < i ==> is_digit(#[trigger] b[k]),
        decreases b.len() - i,
    {
        let d = (bytes[i] - 48) as usize;
        let next = match acc.checked_mul(10) {
            Some(x) => x.checked_add(d),
            None => None,
        };
        match next {
            Some(x) => {
                acc = x;
            },
            None => {
                proof {
                    let n = digits_len(b);
                    lemma_digits_prefix(b, i + 1);
                    lemma_digits_len_digits(b);
                    lemma_digits_val_mono(b, i + 1, n);
                    assert(digits_val(b, i + 1) > usize::MAX);
                    if n < b.len() && unit_factor(b[n]) is Some {
                        assert(unit_factor(b[n])->0 >= 1);
                        assert(digits_val(b, n) * unit_factor(b[n])->0 >= digits_val(b, n))
                            by (nonlinear_arith)
                            requires
                                digits_val(b, n) >= 0,
                                unit_factor(b[n])->0 >= 1,
                        ;
                    }
                }
                return None;
            },
        }
        i = i + 1;
    }
    proof {
        lemma_digits_len(b, i as int);
    }
    if i == 0 {
        return None;
    }
    let unit: Option<usize> = if i == bytes.len() {
        proof {
            lemma_digits_val_mono(b, 0, i as int);
        }
        return Some(acc);
    } else {
        match bytes[i] {
            66u8 => Some(1),
            107u8 => Some(1024),
            77u8 => Some(1048576),
            71u8 => Some(1073741824),
            _ => None,
        }
    };
    match unit {
        Some(u) => {
            let r = acc.checked_mul(u);
            proof {
                lemma_digits_val_mono(b, 0, i as int);
            }
            r
        },
        None => None,
    }
}

/// The digits counted so far stay within the leading digit run.
proof fn lemma_digits_prefix(s: Seq<u8>, m: int)
    requires
        0 <= m <= s.len(),
        forall|k: int| 0 <= k < m ==> is_digit(#[trigger] s[k]),
    ensures
        digits_len(s) >= m,
    decreases m,
{
    if m > 0 {
        assert(is_digit(s[0]));
        assert forall|k: int| 0 <= k < m - 1 implies is_digit(#[trigger] s.drop_first()[k]) by {
            assert(s.drop_first()[k] == s[k + 1]);
        }
        lemma_digits_prefix(s.drop_first(), m - 1);
    } else {
        lemma_digits_len_digits(s);
    }
}

} // verus!

