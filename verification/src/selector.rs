use vstd::prelude::*;
use vstd::utf8::encode_utf8;

use crate::message::CompilerMessage;

verus! {

/// The code or lint name of a message, if it carries one.
pub open spec fn msg_code(m: CompilerMessage) -> Option<Seq<char>> {
    match m.code {
        Option::Some(cc) => match cc.code {
            Option::Some(s) => Some(s@),
            Option::None => None,
        },
        Option::None => None,
    }
}

/// The numeric value of a big-endian run of decimal digit bytes.
pub open spec fn digits_value(sb: Seq<u8>) -> int
    decreases sb.len(),
{
    if sb.len() == 0 {
        0
    } else {
        digits_value(sb.drop_last()) * 10 + (sb.last() - 48)
    }
}

/// Whether every byte is a decimal digit.
pub open spec fn all_digits(sb: Seq<u8>) -> bool {
    forall|i: int| 0 <= i < sb.len() ==> 48 <= #[trigger] sb[i] <= 57
}

/// The numeric error code of a code text of the form `E` followed by
/// decimal digits, when its value fits the machine word; `None` otherwise.
pub open spec fn spec_error_code(sb: Seq<u8>) -> Option<u64> {
    if sb.len() >= 2 && sb[0] == 69 && all_digits(sb.skip(1)) && digits_value(sb.skip(1))
        <= u64::MAX {
        Some(digits_value(sb.skip(1)) as u64)
    } else {
        None
    }
}

/// A longer run of digits is worth at least as much as its prefix.
proof fn lemma_digits_monotone(sb: Seq<u8>, k: int)
    requires
        0 <= k <= sb.len(),
        all_digits(sb),
    ensures
        digits_value(sb) >= digits_value(sb.take(k)),
        digits_value(sb) >= 0,
    decreases sb.len() - k,
{
    if k == sb.len() {
        assert(sb.take(k) =~= sb);
        lemma_digits_nonneg(sb);
    } else {
        assert(sb.take(k + 1).drop_last() =~= sb.take(k));
        lemma_digits_nonneg(sb.take(k));
        lemma_digits_monotone(sb, k + 1);
    }
}

/// The value of a digit run is never negative.
proof fn lemma_digits_nonneg(sb: Seq<u8>)
    requires
        all_digits(sb),
    ensures
        digits_value(sb) >= 0,
    decreases sb.len(),
{
    if sb.len() > 0 {
        assert(forall|i: int| 0 <= i < sb.len() - 1 ==> #[trigger] sb.drop_last()[i] == sb[i]);
        lemma_digits_nonneg(sb.drop_last());
    }
}

/// Parse a code text of the form `E<digits>`, exactly as `spec_error_code`
/// states it.
fn parse_error_code(code: &str) -> (r: Option<u64>)
    ensures
        r == spec_error_code(encode_utf8(code@)),
{
    let b = code.as_bytes();
    let ghost sb = encode_utf8(code@);
    if b.len() < 2 || b[0] != 69 {
        return None;
    }
    let ghost digits = sb.skip(1);
    let mut v: u64 = 0;
    let mut i: usize = 1;
    while i < b.len()
        invariant
            sb == encode_utf8(code@),
            b@ == sb,
            digits == sb.skip(1),
            2 <= b@.len(),
            1 <= i <= b@.len(),
            all_digits(digits.take(i as int - 1)),
            v == digits_value(digits.take(i as int - 1)),
        decreases b@.len() - i,
    {
        let c = b[i];
        proof {
            assert(digits.take(i as int).drop_last() =~= digits.take(i as int - 1));
            assert(digits.take(i as int).last() == sb[i as int]);
        }
        if c < 48 || c > 57 {
            proof {
                assert(!all_digits(sb.skip(1))) by {
                    assert(sb.skip(1)[i as int - 1] == sb[i as int]);
                }
            }
            return None;
        }
        let d = (c - 48) as u64;
        if v > (u64::MAX - d) / 10 {
            proof {
                assert(digits_value(digits.take(i as int)) > u64::MAX);
                if all_digits(digits) {
                    lemma_digits_monotone(digits, i as int);
                    assert(digits_value(digits) > u64::MAX);
                }
            }
            return None;
        }
        v = v * 10 + d;
        i = i + 1;
    }
    proof {
        assert(digits.take(i as int - 1) =~= digits);
        lemma_digits_nonneg(digits);
    }
    Some(v)
}

/// Selector for the issue category to act on.
#[derive(Debug, Clone, PartialEq)]
pub struct Selector {
    pub top: TopLevelSelector,
}

/// The kinds of top-level selection.
#[derive(Debug, Clone, PartialEq)]
pub enum TopLevelSelector {
    /// Meta selector for listing possible selectors in compact form
    List,
    /// Select all issues
    All,
    /// Error with a numeric code, such as `E0001`
    Error(u64),
    /// Named lint, such as `dead_code` or `clippy::needless_pass_by_value`
    Lint(String),
}

/// Whether the selector accepts the message's code.
pub open spec fn spec_sel_matches(s: TopLevelSelector, m: CompilerMessage) -> bool {
    match s {
        TopLevelSelector::List => msg_code(m) is Some,
        TopLevelSelector::All => msg_code(m) is Some,
        TopLevelSelector::Error(err) => msg_code(m) matches Some(c) && spec_error_code(
            encode_utf8(c),
        ) == Some(err),
        TopLevelSelector::Lint(name) => msg_code(m) matches Some(c) && c == name@,
    }
}

impl TopLevelSelector {
    /// Whether this selector accepts the message, exactly as
    /// `spec_sel_matches` states it.
    pub fn matches(&self, target: &CompilerMessage) -> (r: bool)
        ensures
            r == spec_sel_matches(*self, *target),
    {
        let code = target.code();
        match self {
            TopLevelSelector::List => code.is_some(),
            TopLevelSelector::All => code.is_some(),
            TopLevelSelector::Error(err) => match code {
                Option::Some(c) => match parse_error_code(c) {
                    Option::Some(v) => v == *err,
                    Option::None => false,
                },
                Option::None => false,
            },
            TopLevelSelector::Lint(name) => match code {
                Option::Some(c) => crate::operation::str_eq(c, name.as_str()),
                Option::None => false,
            },
        }
    }
}

impl Selector {
    /// Whether the selector accepts the message.
    pub fn matches(&self, target: &CompilerMessage) -> (r: bool)
        ensures
            r == spec_sel_matches(self.top, *target),
    {
        self.top.matches(target)
    }
}

impl core::str::FromStr for TopLevelSelector {
    type Err = String;

    /// `list` and `all` name the meta selectors; `E<number>` selects an
    /// error code; anything else names a lint.  A numeric code too large for
    /// the machine word is taken as a lint name.
    fn from_str(s: &str) -> Result<Self, Self::Err> {
        if crate::operation::str_eq(s, "list") {
            return Ok(Self::List);
        }
        if crate::operation::str_eq(s, "all") {
            return Ok(Self::All);
        }
        match parse_error_code(s) {
            Option::Some(v) => Ok(Self::Error(v)),
            Option::None => Ok(Self::Lint(s.to_owned())),
        }
    }
}

impl core::str::FromStr for Selector {
    type Err = String;

    /// The part before the first `:` selects the top-level category.
    fn from_str(s: &str) -> Result<Self, Self::Err> {
        let b = s.as_bytes();
        let mut cut: usize = b.len();
        let mut i: usize = 0;
        while i < b.len() && cut == b.len()
            invariant
                i <= b@.len(),
                cut == b@.len() || (cut < b@.len() && b@[cut as int] == 58),
            decreases b@.len() - i + (if cut == b@.len() { 1int } else { 0int }),
        {
            if b[i] == 58 {
                cut = i;
            } else {
                i = i + 1;
            }
        }
        let head = crate::text::lossy_string(vstd::slice::slice_subrange(b, 0, cut));
        match <TopLevelSelector as core::str::FromStr>::from_str(head.as_str()) {
            Result::Ok(top) => Ok(Selector { top }),
            Result::Err(e) => Err(e),
        }
    }
}

} // verus!
