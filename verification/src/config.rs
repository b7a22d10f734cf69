//! Typed run configuration: the output destination and the optional
//! run selector that picks a single body to analyze.

use vstd::prelude::*;

verus! {

/// The run filter: a positive integer selects the Nth counted body; any
/// other string selects the body whose fully qualified path matches it
/// exactly (no substring match).
pub enum RunSelector {
    Index(usize),
    Path(String),
}

/// Whether a counted body matches the selector.
pub open spec fn selector_matches(sel: RunSelector, count: usize, path: Seq<char>) -> bool {
    match sel {
        RunSelector::Index(n) => count == n,
        RunSelector::Path(p) => p@ == path,
    }
}

/// Runtime selector match, equal to the spec-level relation.
pub fn matches_selector(sel: &RunSelector, count: usize, path: &String) -> (r: bool)
    ensures
        r == selector_matches(*sel, count, path@),
{
    match sel {
        RunSelector::Index(n) => count == *n,
        RunSelector::Path(p) => p.eq(path),
    }
}

/// A decimal digit.
pub open spec fn is_digit(c: char) -> bool {
    '0' <= c && c <= '9'
}

/// The numeric value of one digit.
pub open spec fn digit_val(c: char) -> int {
    c as int - '0' as int
}

/// The value of a digit string read left to right.
pub open spec fn digits_value(s: Seq<char>) -> int
    decreases s.len(),
{
    if s.len() == 0 {
        0
    } else {
        digits_value(s.drop_last()) * 10 + digit_val(s.last())
    }
}

/// Whether every character is a digit.
pub open spec fn all_digits(s: Seq<char>) -> bool {
    forall|i: int| 0 <= i < s.len() ==> is_digit(#[trigger] s[i])
}

/// A selector string read as a number: non-empty, digits only, and small
/// enough to be an index at all.
pub open spec fn numeric_selector(s: Seq<char>) -> bool {
    s.len() > 0 && all_digits(s) && digits_value(s) <= usize::MAX
}

/// A digit string's value is never negative.
proof fn lemma_digits_value_nonneg(s: Seq<char>)
    requires
        all_digits(s),
    ensures
        digits_value(s) >= 0,
    decreases s.len(),
{
    if s.len() > 0 {
        assert(all_digits(s.drop_last())) by {
            assert(forall|i: int|
                0 <= i < s.drop_last().len() ==> s.drop_last()[i] == #[trigger] s[i]);
        }
        lemma_digits_value_nonneg(s.drop_last());
        assert(is_digit(s[s.len() - 1]));
    }
}

/// A digit string's value only grows as more digits are read.
proof fn lemma_digits_value_prefix(s: Seq<char>, i: int)
    requires
        all_digits(s),
        0 <= i <= s.len(),
    ensures
        digits_value(s.subrange(0, i)) <= digits_value(s),
    decreases s.len() - i,
{
    if i == s.len() {
        assert(s.subrange(0, i) =~= s);
    } else {
        lemma_digits_value_prefix(s, i + 1);
        let sub = s.subrange(0, i);
        let sub1 = s.subrange(0, i + 1);
        assert(sub1.drop_last() =~= sub);
        assert(sub1.last() == s[i]);
        assert(all_digits(sub)) by {
            assert(forall|j: int| 0 <= j < sub.len() ==> sub[j] == #[trigger] s[j]);
        }
        lemma_digits_value_nonneg(sub);
        assert(is_digit(s[i]));
        assert(digits_value(sub1) == digits_value(sub) * 10 + digit_val(s[i]));
        assert(digits_value(sub) * 10 >= digits_value(sub));
    }
}

/// Reads a selector from its textual form: a non-empty string of digits
/// whose value fits an index is an index selector; anything else — empty,
/// holding a non-digit, or too large a number — selects by exact path.
pub fn parse_selector(s: String) -> (r: RunSelector)
    ensures
        numeric_selector(s@) ==> r == RunSelector::Index(digits_value(s@) as usize),
        !numeric_selector(s@) ==> r == RunSelector::Path(s),
{
    let len: usize = s.as_str().unicode_len();
    if len == 0 {
        return RunSelector::Path(s);
    }
    let mut acc: usize = 0;
    let mut i: usize = 0;
    proof {
        assert(s@.subrange(0, 0) =~= Seq::<char>::empty());
    }
    while i < len
        invariant
            len == s@.len(),
            i <= len,
            acc == digits_value(s@.subrange(0, i as int)),
            forall|j: int| 0 <= j < i ==> is_digit(#[trigger] s@[j]),
        decreases len - i,
    {
        let c = s.as_str().get_char(i);
        if c < '0' || c > '9' {
            proof {
                assert(!is_digit(s@[i as int]));
                assert(!all_digits(s@));
            }
            return RunSelector::Path(s);
        }
        let d: usize = (c as u32 - '0' as u32) as usize;
        proof {
            assert(is_digit(s@[i as int]));
            assert(d == digit_val(s@[i as int]));
        }
        let ghost sub = s@.subrange(0, i as int);
        let ghost sub1 = s@.subrange(0, i + 1 as int);
        proof {
            assert(sub1.drop_last() =~= sub);
            assert(sub1.last() == s@[i as int]);
        }
        if acc > (usize::MAX - d) / 10 {
            proof {
                assert(digits_value(sub1) == acc * 10 + d);
                assert(acc * 10 + d > usize::MAX);
                if all_digits(s@) {
                    lemma_digits_value_prefix(s@, i + 1);
                    assert(digits_value(s@) > usize::MAX);
                }
            }
            return RunSelector::Path(s);
        }
        acc = acc * 10 + d;
        i = i + 1;
    }
    proof {
        assert(s@.subrange(0, len as int) =~= s@);
        assert(numeric_selector(s@));
    }
    RunSelector::Index(acc)
}

/// The typed configuration the orchestrator is constructed with.
pub struct EvalConfig {
    pub output_path: String,
    pub only_run: Option<RunSelector>,
}

/// The one fatal configuration fault: no output destination was given.
#[derive(Clone, Copy, Debug, PartialEq, Eq, Structural)]
pub enum ConfigError {
    MissingOutputPath,
}

/// Builds the configuration from the raw option values. The output path
/// is required: its absence is an error before any processing begins. The
/// run filter is optional and read by `parse_selector`.
pub fn build_config(output_path: Option<String>, only_run: Option<String>) -> (r: Result<
    EvalConfig,
    ConfigError,
>)
    ensures
        r is Err <==> output_path is None,
        r is Err ==> r->Err_0 == ConfigError::MissingOutputPath,
        r is Ok ==> r->Ok_0.output_path == output_path->0,
        r is Ok ==> (r->Ok_0.only_run is Some <==> only_run is Some),
        (r is Ok && only_run is Some && numeric_selector(only_run->0@)) ==> r->Ok_0.only_run->0
            == RunSelector::Index(digits_value(only_run->0@) as usize),
        (r is Ok && only_run is Some && !numeric_selector(only_run->0@)) ==> r->Ok_0.only_run->0
            == RunSelector::Path(only_run->0),
{
    let path = match output_path {
        Some(p) => p,
        None => {
            return Err(ConfigError::MissingOutputPath);
        },
    };
    let sel = match only_run {
        Some(s) => Some(parse_selector(s)),
        None => None,
    };
    Ok(EvalConfig { output_path: path, only_run: sel })
}

} // verus!
