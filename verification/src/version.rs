//! Compiler versions and the two version gates a parsed file has to pass.

use vstd::prelude::*;
use crate::diagnostics::Diagnostic;
use crate::diagnostics::DiagnosticView;
use crate::paths::to_chars;

verus! {

/// A compiler version, ordered by major, then minor, then patch.
#[derive(Clone, Copy, Debug, PartialEq, Eq, Structural)]
pub struct Version {
    pub major: usize,
    pub minor: usize,
    pub patch: usize,
}

impl Version {
    /// `self` is at most `other` in the lexicographic order of the three components.
    pub open spec fn le(self, other: Version) -> bool {
        ||| self.major < other.major
        ||| self.major == other.major && self.minor < other.minor
        ||| self.major == other.major && self.minor == other.minor && self.patch <= other.patch
    }

    /// The version `major.minor.patch`.
    pub fn new(major: usize, minor: usize, patch: usize) -> (v: Version)
        ensures
            v == (Version { major, minor, patch }),
    {
        Version { major, minor, patch }
    }

    /// Decides `self <= other`.
    pub fn at_most(&self, other: &Version) -> (b: bool)
        ensures
            b == self.le(*other),
    {
        if self.major != other.major {
            self.major < other.major
        } else if self.minor != other.minor {
            self.minor < other.minor
        } else {
            self.patch <= other.patch
        }
    }
}

/// The order on versions is total: of two versions, one is at most the other,
/// and two versions that are each at most the other are equal.
pub proof fn lemma_version_order_total(a: Version, b: Version)
    ensures
        a.le(b) || b.le(a),
        a.le(b) && b.le(a) ==> a == b,
        a.le(a),
{
}

/// The order on versions is transitive.
pub proof fn lemma_version_order_transitive(a: Version, b: Version, c: Version)
    requires
        a.le(b),
        b.le(c),
    ensures
        a.le(c),
{
}

/// The oldest version under which custom gates may be used.
pub open spec fn custom_gates_minimum() -> Version {
    Version { major: 2, minor: 0, patch: 6 }
}

/// The index of the first `.` in `s`, or `s.len()` if it has none.
pub open spec fn first_dot(s: Seq<char>) -> int
    decreases s.len(),
{
    if s.len() == 0 || s[0] == '.' {
        0
    } else {
        1 + first_dot(s.skip(1))
    }
}

/// The value of a string of decimal digits, read most significant digit first.
pub open spec fn digits_value(s: Seq<char>) -> nat
    decreases s.len(),
{
    if s.len() == 0 {
        0
    } else {
        (10 * digits_value(s.drop_last()) + (s.last() as u32 - '0' as u32)) as nat
    }
}

/// Whether `c` is a decimal digit.
pub open spec fn is_digit(c: char) -> bool {
    '0' <= c <= '9'
}

/// Whether every character of `s` is a decimal digit.
pub open spec fn all_digits(s: Seq<char>) -> bool {
    forall|i: int| 0 <= i < s.len() ==> is_digit(#[trigger] s[i])
}

/// The number that `digits` spells, if it is a non-empty string of decimal
/// digits whose value fits a `usize`; otherwise 0.
pub open spec fn unsigned_value(digits: Seq<char>) -> usize {
    if digits.len() > 0 && all_digits(digits) && digits_value(digits) <= usize::MAX {
        digits_value(digits) as usize
    } else {
        0
    }
}

/// What one component of a version string stands for: the number it spells,
/// after an optional leading `+`; 0 where it spells none.
pub open spec fn component_value(s: Seq<char>) -> usize {
    if s.len() > 0 && s[0] == '+' {
        unsigned_value(s.skip(1))
    } else {
        unsigned_value(s)
    }
}

/// The version that a `major.minor.patch` string stands for. The string is
/// cut at its first two dots; a part that is missing or is no number counts as 0.
pub open spec fn parsed_version(s: Seq<char>) -> Version {
    let d1 = first_dot(s);
    let major = component_value(s.take(d1));
    if d1 == s.len() {
        Version { major, minor: 0, patch: 0 }
    } else {
        let rest = s.skip(d1 + 1);
        let d2 = first_dot(rest);
        let minor = component_value(rest.take(d2));
        if d2 == rest.len() {
            Version { major, minor, patch: 0 }
        } else {
            Version { major, minor, patch: component_value(rest.skip(d2 + 1)) }
        }
    }
}

/// The first dot lies within the string, and no dot comes before it.
proof fn lemma_first_dot_bounds(s: Seq<char>)
    ensures
        0 <= first_dot(s) <= s.len(),
        first_dot(s) < s.len() ==> s[first_dot(s)] == '.',
        forall|i: int| 0 <= i < first_dot(s) ==> s[i] != '.',
    decreases s.len(),
{
    if s.len() == 0 || s[0] == '.' {
    } else {
        lemma_first_dot_bounds(s.skip(1));
        assert forall|i: int| 0 <= i < first_dot(s) implies s[i] != '.' by {
            if i > 0 {
                assert(s[i] == s.skip(1)[i - 1]);
            }
        }
    }
}

/// An index with a dot at it, or the end, and no dot before it is the first dot.
proof fn lemma_first_dot_is(s: Seq<char>, k: int)
    requires
        0 <= k <= s.len(),
        k < s.len() ==> s[k] == '.',
        forall|i: int| 0 <= i < k ==> s[i] != '.',
    ensures
        first_dot(s) == k,
{
    lemma_first_dot_bounds(s);
}

/// A string of digits spells no less than any of its prefixes.
proof fn lemma_digits_value_monotonic(s: Seq<char>, k: int)
    requires
        0 <= k <= s.len(),
        all_digits(s),
    ensures
        digits_value(s.take(k)) <= digits_value(s),
    decreases s.len() - k,
{
    if k == s.len() {
        assert(s.take(k) =~= s);
    } else {
        lemma_digits_value_monotonic(s, k + 1);
        assert(s.take(k + 1).drop_last() =~= s.take(k));
        assert(is_digit(s[k]));
        assert(s.take(k + 1).last() == s[k]);
    }
}

/// Reads the component `chars[from..to]` of a version string.
fn parse_component(chars: &Vec<char>, from: usize, to: usize) -> (n: usize)
    requires
        from <= to <= chars.len(),
    ensures
        n == component_value(chars@.subrange(from as int, to as int)),
{
    let ghost part = chars@.subrange(from as int, to as int);
    let mut i: usize = from;
    if i < to && chars[i] == '+' {
        i = i + 1;
    }
    let start: usize = i;
    let ghost digits = chars@.subrange(start as int, to as int);
    assert(digits =~= if part.len() > 0 && part[0] == '+' { part.skip(1) } else { part });
    assert(component_value(part) == unsigned_value(digits));
    if start == to {
        return 0;
    }
    let mut acc: usize = 0;
    while i < to
        invariant
            start <= i <= to <= chars.len(),
            from <= to,
            part == chars@.subrange(from as int, to as int),
            digits == chars@.subrange(start as int, to as int),
            component_value(part) == unsigned_value(digits),
            digits.len() > 0,
            forall|j: int| 0 <= j < i - start ==> is_digit(#[trigger] digits[j]),
            acc == digits_value(digits.take(i - start)),
        decreases to - i,
    {
        let c: char = chars[i];
        assert(digits[i - start] == c);
        if !('0' <= c && c <= '9') {
            assert(!is_digit(digits[i - start]));
            return 0;
        }
        let d: usize = (c as u32 - '0' as u32) as usize;
        let ghost next = digits.take(i - start + 1);
        assert(next.drop_last() =~= digits.take(i - start));
        assert(next.last() == c);
        assert(digits_value(next) == 10 * acc + d);
        if acc > (usize::MAX - d) / 10 {
            proof {
                assert(10 * acc + d > usize::MAX);
                assert(digits_value(next) > usize::MAX);
                if all_digits(digits) {
                    lemma_digits_value_monotonic(digits, i - start + 1);
                    assert(digits_value(digits) > usize::MAX);
                }
            }
            return 0;
        }
        acc = 10 * acc + d;
        i = i + 1;
    }
    assert(digits.take(i - start) =~= digits);
    acc
}

/// The index of the first `.` at or after `from`, or the length of `chars`.
fn find_dot(chars: &Vec<char>, from: usize) -> (k: usize)
    requires
        from <= chars.len(),
    ensures
        from <= k <= chars.len(),
        k - from == first_dot(chars@.skip(from as int)),
{
    let mut k: usize = from;
    while k < chars.len() && chars[k] != '.'
        invariant
            from <= k <= chars.len(),
            forall|i: int| from <= i < k ==> chars@[i] != '.',
        decreases chars.len() - k,
    {
        k = k + 1;
    }
    proof {
        lemma_first_dot_is(chars@.skip(from as int), k - from);
    }
    k
}

/// Reads a compiler version written as `major.minor.patch`.
pub fn parse_number_version(version: &str) -> (v: Version)
    ensures
        v == parsed_version(version@),
{
    let chars = to_chars(version);
    let n: usize = chars.len();
    let d1 = find_dot(&chars, 0);
    assert(chars@.skip(0) =~= chars@);
    assert(chars@.subrange(0, d1 as int) =~= chars@.take(d1 as int));
    let major = parse_component(&chars, 0, d1);
    if d1 == n {
        return Version { major, minor: 0, patch: 0 };
    }
    let ghost rest = chars@.skip(d1 + 1);
    let d2 = find_dot(&chars, d1 + 1);
    assert(chars@.subrange(d1 + 1, d2 as int) =~= rest.take(d2 - (d1 + 1)));
    let minor = parse_component(&chars, d1 + 1, d2);
    if d2 == n {
        return Version { major, minor, patch: 0 };
    }
    assert(chars@.subrange(d2 + 1, n as int) =~= rest.skip(d2 - (d1 + 1) + 1));
    let patch = parse_component(&chars, d2 + 1, n);
    Version { major, minor, patch }
}

/// What the version check of one file yields: nothing if the file's version
/// is at most the compiler's, a warning if the file names none, and the
/// mismatch as an error otherwise.
pub open spec fn number_version_outcome(
    file_path: Seq<char>,
    version_file: Option<Version>,
    version_compiler: Version,
) -> Result<Seq<DiagnosticView>, DiagnosticView> {
    match version_file {
        None => Ok(
            seq![DiagnosticView::MissingVersionPragma { path: file_path, actual: version_compiler }],
        ),
        Some(required) => if required.le(version_compiler) {
            Ok(Seq::empty())
        } else {
            Err(
                DiagnosticView::VersionMismatch {
                    path: file_path,
                    required,
                    actual: version_compiler,
                },
            )
        },
    }
}

/// Holds the version a file declares against the compiler's.
pub fn check_number_version(
    file_path: String,
    version_file: Option<Version>,
    version_compiler: Version,
) -> (r: Result<Vec<Diagnostic>, Diagnostic>)
    ensures
        match number_version_outcome(file_path@, version_file, version_compiler) {
            Ok(warnings) => r is Ok && crate::diagnostics::views(r->Ok_0@) == warnings,
            Err(error) => r is Err && r->Err_0@ == error,
        },
{
    match version_file {
        Some(required) => {
            if required.at_most(&version_compiler) {
                let warnings: Vec<Diagnostic> = Vec::new();
                assert(crate::diagnostics::views(warnings@) =~= Seq::empty());
                Ok(warnings)
            } else {
                Err(Diagnostic::VersionMismatch { path: file_path, required, actual: version_compiler })
            }
        },
        None => {
            let ghost path = file_path@;
            let mut warnings: Vec<Diagnostic> = Vec::new();
            warnings.push(Diagnostic::MissingVersionPragma { path: file_path, actual: version_compiler });
            assert(crate::diagnostics::views(warnings@) =~= seq![
                DiagnosticView::MissingVersionPragma { path, actual: version_compiler },
            ]);
            Ok(warnings)
        },
    }
}

/// The version that the custom-gates gate looks at: the file's, or the
/// compiler's where the file names none.
pub open spec fn effective_version(version_file: Option<Version>, version_compiler: Version) -> Version {
    match version_file {
        Some(v) => v,
        None => version_compiler,
    }
}

/// Refuses custom gates under an effective version older than the minimum.
pub fn check_custom_gates_version(
    file_path: String,
    version_file: Option<Version>,
    version_compiler: Version,
) -> (r: Result<(), Diagnostic>)
    ensures
        r is Ok <==> custom_gates_minimum().le(effective_version(version_file, version_compiler)),
        r is Err ==> r->Err_0@ == (DiagnosticView::CustomGatesVersionTooLow {
            path: file_path@,
            minimum: custom_gates_minimum(),
            effective: effective_version(version_file, version_compiler),
        }),
{
    let custom_gates_version = Version { major: 2, minor: 0, patch: 6 };
    let version_to_check = match version_file {
        Some(v) => v,
        None => version_compiler,
    };
    if custom_gates_version.at_most(&version_to_check) {
        Ok(())
    } else {
        Err(
            Diagnostic::CustomGatesVersionTooLow {
                path: file_path,
                minimum: custom_gates_version,
                effective: version_to_check,
            },
        )
    }
}

} // verus!
