//! What stands around the grammar parser. Before it, the preprocessor blanks
//! out the comments of a source byte for byte, so that every offset the
//! parser computes is an offset into the source as it was written. After it,
//! a failure of the parser becomes a diagnostic at the place the parser names.

use vstd::prelude::*;
use lalrpop_util::ParseError;
use vstd::string::StringSliceAdditionalSpecFns;
use vstd::utf8::encode_utf8;
use vstd::utf8::is_continuation_byte;
use vstd::utf8::length_of_first_scalar;
use vstd::utf8::pop_first_scalar;
use vstd::utf8::valid_first_scalar;
use vstd::utf8::valid_utf8;
use crate::diagnostics::views;
use crate::diagnostics::Diagnostic;
use crate::diagnostics::DiagnosticView;
use crate::diagnostics::Location;

verus! {

/// The byte `/`.
pub const SLASH: u8 = 0x2f;

/// The byte `*`.
pub const STAR: u8 = 0x2a;

/// The byte that ends a line.
pub const NEWLINE: u8 = 0x0a;

/// The byte that a comment byte is replaced by.
pub const SPACE: u8 = 0x20;

/// Where the scanner stands: in code, in a `//` comment, or in a `/* */`
/// comment that opened at byte `start`.
pub enum Scan {
    Code,
    Line,
    Block { start: int },
}

/// `head` followed by what `tail` holds; an error stays as it is.
pub open spec fn glue(head: Seq<u8>, tail: Result<Seq<u8>, int>) -> Result<Seq<u8>, int> {
    match tail {
        Ok(t) => Ok(head + t),
        Err(start) => Err(start),
    }
}

/// Whether the two bytes at `i` are `first` and `second`.
pub open spec fn pair_at(bytes: Seq<u8>, i: int, first: u8, second: u8) -> bool {
    i + 1 < bytes.len() && bytes[i] == first && bytes[i + 1] == second
}

/// What the scanner writes for the byte at `i`, which it reaches in state
/// `mode`: two spaces for a `//` or `/*` met in code and for the `*/` that
/// ends a block comment, the byte itself for any other byte of code and for
/// the newline that ends a line comment, and one space for any other byte
/// of a comment.
pub open spec fn written(bytes: Seq<u8>, mode: Scan, i: int) -> Seq<u8> {
    match mode {
        Scan::Code => if pair_at(bytes, i, SLASH, SLASH) || pair_at(bytes, i, SLASH, STAR) {
            seq![SPACE, SPACE]
        } else {
            seq![bytes[i]]
        },
        Scan::Line => if bytes[i] == NEWLINE {
            seq![NEWLINE]
        } else {
            seq![SPACE]
        },
        Scan::Block { start } => if pair_at(bytes, i, STAR, SLASH) {
            seq![SPACE, SPACE]
        } else {
            seq![SPACE]
        },
    }
}

/// The state in which the scanner goes on after the byte at `i`.
pub open spec fn next_mode(bytes: Seq<u8>, mode: Scan, i: int) -> Scan {
    match mode {
        Scan::Code => if pair_at(bytes, i, SLASH, SLASH) {
            Scan::Line
        } else if pair_at(bytes, i, SLASH, STAR) {
            Scan::Block { start: i }
        } else {
            Scan::Code
        },
        Scan::Line => if bytes[i] == NEWLINE {
            Scan::Code
        } else {
            Scan::Line
        },
        Scan::Block { start } => if pair_at(bytes, i, STAR, SLASH) {
            Scan::Code
        } else {
            Scan::Block { start }
        },
    }
}

/// The masked form of `bytes[i..]` for a scanner that reaches byte `i` in
/// state `mode`, or the offset at which a block comment that never closes opened.
pub open spec fn masked_from(bytes: Seq<u8>, mode: Scan, i: int) -> Result<Seq<u8>, int>
    decreases bytes.len() - i,
{
    if i < 0 || i >= bytes.len() {
        match mode {
            Scan::Block { start } => Err(start),
            _ => Ok(Seq::empty()),
        }
    } else {
        let head = written(bytes, mode, i);
        glue(head, masked_from(bytes, next_mode(bytes, mode, i), i + head.len()))
    }
}

/// The masked form of a whole buffer: the scanner starts in code. `//` opens
/// a line comment, which ends before the next newline, and `/*` opens a block
/// comment, which ends after the next `*/`. Every byte of a comment, its
/// delimiters too, becomes a space, and every other byte is kept.
pub open spec fn masked(bytes: Seq<u8>) -> Result<Seq<u8>, int> {
    masked_from(bytes, Scan::Code, 0)
}

/// From any byte on and in any state, masking keeps the length and changes bytes to spaces only.
proof fn lemma_masked_from_keeps_offsets(bytes: Seq<u8>, mode: Scan, i: int)
    requires
        0 <= i <= bytes.len(),
    ensures
        masked_from(bytes, mode, i) matches Ok(out) ==> {
            &&& out.len() == bytes.len() - i
            &&& forall|k: int| 0 <= k < out.len() ==> out[k] == bytes[i + k] || out[k] == SPACE
        },
    decreases bytes.len() - i,
{
    if i < bytes.len() {
        lemma_masked_from_keeps_offsets(bytes, next_mode(bytes, mode, i), i + written(bytes, mode, i).len());
    }
}

/// Masking keeps the length, and every byte either stays or becomes a space.
pub proof fn lemma_masked_keeps_offsets(bytes: Seq<u8>)
    ensures
        masked(bytes) matches Ok(out) ==> {
            &&& out.len() == bytes.len()
            &&& forall|k: int| 0 <= k < out.len() ==> out[k] == bytes[k] || out[k] == SPACE
        },
{
    lemma_masked_from_keeps_offsets(bytes, Scan::Code, 0);
}

/// From any byte on, a failure names a `/*`, given that the comment the scanner is in opened at one.
proof fn lemma_unclosed_from(bytes: Seq<u8>, mode: Scan, i: int)
    requires
        0 <= i <= bytes.len(),
        mode matches Scan::Block { start } ==> 0 <= start && pair_at(bytes, start, SLASH, STAR),
    ensures
        masked_from(bytes, mode, i) matches Err(start) ==> 0 <= start && pair_at(bytes, start, SLASH, STAR),
    decreases bytes.len() - i,
{
    if i < bytes.len() {
        lemma_unclosed_from(bytes, next_mode(bytes, mode, i), i + written(bytes, mode, i).len());
    }
}

/// Where masking fails, it names the offset of a `/*`: the one that opened
/// the comment left open.
pub proof fn lemma_unclosed_names_opener(bytes: Seq<u8>)
    ensures
        masked(bytes) matches Err(start) ==> 0 <= start && pair_at(bytes, start, SLASH, STAR),
{
    lemma_unclosed_from(bytes, Scan::Code, 0);
}

/// Whether a comment opens at `i`.
pub open spec fn opens_comment(bytes: Seq<u8>, i: int) -> bool {
    pair_at(bytes, i, SLASH, SLASH) || pair_at(bytes, i, SLASH, STAR)
}

/// From any byte on and in any state, what is written opens no comment.
proof fn lemma_masked_from_opens_none(bytes: Seq<u8>, mode: Scan, i: int)
    requires
        0 <= i <= bytes.len(),
    ensures
        masked_from(bytes, mode, i) matches Ok(out) ==> forall|k: int| 0 <= k ==> !opens_comment(out, k),
    decreases bytes.len() - i,
{
    if i < bytes.len() {
        let head = written(bytes, mode, i);
        let next = next_mode(bytes, mode, i);
        lemma_masked_from_opens_none(bytes, next, i + head.len());
        lemma_masked_from_keeps_offsets(bytes, next, i + head.len());
        if let Ok(tail) = masked_from(bytes, next, i + head.len()) {
            let out = head + tail;
            assert forall|k: int| 0 <= k implies !opens_comment(out, k) by {
                if k + 1 < out.len() {
                    if k + 1 < head.len() {
                    } else if k >= head.len() {
                        assert(out[k] == tail[k - head.len()]);
                        assert(out[k + 1] == tail[k + 1 - head.len()]);
                        assert(!opens_comment(tail, k - head.len()));
                    } else {
                        // the last byte written here and the first one written after it
                        assert(out[k + 1] == tail[0]);
                        assert(tail[0] == bytes[i + head.len()] || tail[0] == SPACE);
                    }
                }
            }
        }
    }
}

/// No comment is left in a masked buffer: nowhere in it does `//` or `/*` stand.
pub proof fn lemma_masked_opens_no_comment(bytes: Seq<u8>, k: int)
    requires
        0 <= k,
    ensures
        masked(bytes) matches Ok(out) ==> !opens_comment(out, k),
{
    lemma_masked_from_opens_none(bytes, Scan::Code, 0);
}

/// Replaces every comment byte of `bytes` by a space. Fails with the offset of
/// the opening `/*` if a block comment is still open at the end.
pub fn mask_comments(bytes: &[u8]) -> (r: Result<Vec<u8>, usize>)
    ensures
        match masked(bytes@) {
            Ok(out) => r is Ok && r->Ok_0@ == out,
            Err(start) => r is Err && r->Err_0 == start,
        },
{
    let n: usize = bytes.len();
    let mut out: Vec<u8> = Vec::with_capacity(n);
    let mut i: usize = 0;
    let mut in_block: bool = false;
    let mut block_start: usize = 0;
    assert(glue(out@, masked(bytes@)) == masked(bytes@)) by {
        match masked(bytes@) {
            Ok(t) => assert(out@ + t =~= t),
            Err(_) => {},
        }
    }
    while i < n
        invariant
            n == bytes@.len(),
            i <= n,
            masked(bytes@) == glue(
                out@,
                masked_from(
                    bytes@,
                    if in_block {
                        Scan::Block { start: block_start as int }
                    } else {
                        Scan::Code
                    },
                    i as int,
                ),
            ),
        decreases n - i,
    {
        let ghost before = out@;
        let ghost entry = i;
        if !in_block {
            if bytes[i] == SLASH && i + 1 < n && bytes[i + 1] == SLASH {
                out.push(SPACE);
                out.push(SPACE);
                i = i + 2;
                proof {
                    assert(out@ =~= before + seq![SPACE, SPACE]);
                    lemma_glue_assoc(before, seq![SPACE, SPACE], masked_from(bytes@, Scan::Line, i as int));
                }
                while i < n && bytes[i] != NEWLINE
                    invariant
                        n == bytes@.len(),
                        entry < i <= n,
                        masked(bytes@) == glue(out@, masked_from(bytes@, Scan::Line, i as int)),
                    decreases n - i,
                {
                    let ghost inner = out@;
                    out.push(SPACE);
                    i = i + 1;
                    proof {
                        assert(out@ =~= inner + seq![SPACE]);
                        lemma_glue_assoc(inner, seq![SPACE], masked_from(bytes@, Scan::Line, i as int));
                    }
                }
                proof {
                    if i < n {
                        // The newline that ends the comment is read again as code.
                        assert(!pair_at(bytes@, i as int, SLASH, SLASH));
                        assert(!pair_at(bytes@, i as int, SLASH, STAR));
                    }
                }
            } else if bytes[i] == SLASH && i + 1 < n && bytes[i + 1] == STAR {
                block_start = i;
                out.push(SPACE);
                out.push(SPACE);
                i = i + 2;
                in_block = true;
                proof {
                    assert(out@ =~= before + seq![SPACE, SPACE]);
                    lemma_glue_assoc(
                        before,
                        seq![SPACE, SPACE],
                        masked_from(bytes@, Scan::Block { start: block_start as int }, i as int),
                    );
                }
            } else {
                out.push(bytes[i]);
                i = i + 1;
                proof {
                    assert(out@ =~= before + seq![bytes@[i - 1]]);
                    lemma_glue_assoc(
                        before,
                        seq![bytes@[i - 1]],
                        masked_from(bytes@, Scan::Code, i as int),
                    );
                }
            }
        } else {
            if bytes[i] == STAR && i + 1 < n && bytes[i + 1] == SLASH {
                out.push(SPACE);
                out.push(SPACE);
                i = i + 2;
                in_block = false;
                proof {
                    assert(out@ =~= before + seq![SPACE, SPACE]);
                    lemma_glue_assoc(before, seq![SPACE, SPACE], masked_from(bytes@, Scan::Code, i as int));
                }
            } else {
                out.push(SPACE);
                i = i + 1;
                proof {
                    assert(out@ =~= before + seq![SPACE]);
                    lemma_glue_assoc(
                        before,
                        seq![SPACE],
                        masked_from(bytes@, Scan::Block { start: block_start as int }, i as int),
                    );
                }
            }
        }
    }
    if in_block {
        Err(block_start)
    } else {
        proof {
            assert(out@ + Seq::<u8>::empty() =~= out@);
        }
        Ok(out)
    }
}

/// Gluing two heads in turn is gluing them joined.
proof fn lemma_glue_assoc(a: Seq<u8>, b: Seq<u8>, tail: Result<Seq<u8>, int>)
    ensures
        glue(a, glue(b, tail)) == glue(a + b, tail),
{
    match tail {
        Ok(t) => assert(a + (b + t) =~= (a + b) + t),
        Err(_) => {},
    }
}

/// In code, a byte that is no slash is kept.
proof fn lemma_code_keeps(bytes: Seq<u8>, i: int)
    requires
        0 <= i < bytes.len(),
        bytes[i] != SLASH,
    ensures
        masked_from(bytes, Scan::Code, i) == glue(seq![bytes[i]], masked_from(bytes, Scan::Code, i + 1)),
{
}

/// A single byte below 0x80 is valid UTF-8.
proof fn lemma_ascii_is_valid(b: u8)
    requires
        b < 0x80,
    ensures
        valid_utf8(seq![b]),
{
    reveal_with_fuel(valid_utf8, 2);
    assert(pop_first_scalar(seq![b]) =~= Seq::<u8>::empty());
}

/// A sequence that is valid UTF-8 from `i` on, with a byte below 0x80 at `i`,
/// is valid from `i + 1` on.
proof fn lemma_step_over_ascii(bytes: Seq<u8>, i: int)
    requires
        0 <= i < bytes.len(),
        valid_utf8(bytes.skip(i)),
        bytes[i] < 0x80,
    ensures
        valid_utf8(bytes.skip(i + 1)),
{
    let rest = bytes.skip(i);
    assert(rest[0] == bytes[i]);
    assert(pop_first_scalar(rest) =~= bytes.skip(i + 1));
}

/// A sequence that is valid UTF-8 is valid from every byte on that is no continuation byte.
proof fn lemma_valid_from(bytes: Seq<u8>, i: int)
    requires
        valid_utf8(bytes),
        0 <= i <= bytes.len(),
        i < bytes.len() ==> !is_continuation_byte(bytes[i]),
    ensures
        valid_utf8(bytes.skip(i)),
{
    if i < bytes.len() {
        vstd::utf8::is_char_boundary_iff_not_is_continuation_byte(bytes, i);
        vstd::utf8::valid_utf8_split(bytes, i);
        assert(bytes.subrange(i, bytes.len() as int) =~= bytes.skip(i));
    } else {
        assert(bytes.skip(i) =~= Seq::<u8>::empty());
    }
}

/// Masking keeps a buffer valid UTF-8: a comment begins and ends between
/// characters, and each of its bytes becomes a character of one byte.
pub proof fn lemma_masked_is_utf8(bytes: Seq<u8>, mode: Scan, i: int)
    requires
        valid_utf8(bytes),
        0 <= i <= bytes.len(),
        mode is Code ==> valid_utf8(bytes.skip(i)),
    ensures
        masked_from(bytes, mode, i) matches Ok(out) ==> valid_utf8(out),
    decreases bytes.len() - i,
{
    if i < bytes.len() {
        lemma_ascii_is_valid(SPACE);
        lemma_ascii_is_valid(NEWLINE);
        let two_spaces = seq![SPACE, SPACE];
        assert(valid_utf8(two_spaces)) by {
            vstd::utf8::valid_utf8_concat(seq![SPACE], seq![SPACE]);
            assert(seq![SPACE] + seq![SPACE] =~= two_spaces);
        }
        match mode {
            Scan::Code => {
                let rest = bytes.skip(i);
                assert(rest[0] == bytes[i]);
                assert(valid_first_scalar(rest));
                let width = length_of_first_scalar(rest);
                assert(pop_first_scalar(rest) =~= bytes.skip(i + width));
                if pair_at(bytes, i, SLASH, SLASH) {
                    lemma_masked_is_utf8(bytes, Scan::Line, i + 2);
                    if let Ok(tail) = masked_from(bytes, Scan::Line, i + 2) {
                        vstd::utf8::valid_utf8_concat(two_spaces, tail);
                    }
                } else if pair_at(bytes, i, SLASH, STAR) {
                    lemma_masked_is_utf8(bytes, Scan::Block { start: i }, i + 2);
                    if let Ok(tail) = masked_from(bytes, Scan::Block { start: i }, i + 2) {
                        vstd::utf8::valid_utf8_concat(two_spaces, tail);
                    }
                } else {
                    // The character at `i` is copied whole, one byte at a time.
                    let scalar = rest.subrange(0, width);
                    assert(valid_utf8(scalar)) by {
                        reveal_with_fuel(valid_utf8, 2);
                        assert(pop_first_scalar(scalar) =~= Seq::<u8>::empty());
                        assert(scalar[0] == rest[0]);
                        if width >= 2 {
                            assert(scalar[1] == rest[1]);
                        }
                        if width >= 3 {
                            assert(scalar[2] == rest[2]);
                        }
                        if width >= 4 {
                            assert(scalar[3] == rest[3]);
                        }
                    }
                    lemma_masked_is_utf8(bytes, Scan::Code, i + width);
                    let after = masked_from(bytes, Scan::Code, i + width);
                    assert(masked_from(bytes, Scan::Code, i) == glue(scalar, after)) by {
                        if width >= 2 {
                            assert(rest[1] == bytes[i + 1]);
                            lemma_code_keeps(bytes, i);
                            lemma_code_keeps(bytes, i + 1);
                        }
                        if width >= 3 {
                            assert(rest[2] == bytes[i + 2]);
                            lemma_code_keeps(bytes, i + 2);
                        }
                        if width >= 4 {
                            assert(rest[3] == bytes[i + 3]);
                            lemma_code_keeps(bytes, i + 3);
                        }
                        let one = masked_from(bytes, Scan::Code, i + 1);
                        let two = masked_from(bytes, Scan::Code, i + 2);
                        let three = masked_from(bytes, Scan::Code, i + 3);
                        if width == 1 {
                            assert(scalar =~= seq![bytes[i]]);
                        } else if width == 2 {
                            lemma_glue_assoc(seq![bytes[i]], seq![bytes[i + 1]], after);
                            assert(scalar =~= seq![bytes[i]] + seq![bytes[i + 1]]);
                        } else if width == 3 {
                            lemma_glue_assoc(seq![bytes[i + 1]], seq![bytes[i + 2]], after);
                            lemma_glue_assoc(seq![bytes[i]], seq![bytes[i + 1]] + seq![bytes[i + 2]], after);
                            assert(scalar =~= seq![bytes[i]] + (seq![bytes[i + 1]] + seq![bytes[i + 2]]));
                        } else {
                            lemma_glue_assoc(seq![bytes[i + 2]], seq![bytes[i + 3]], after);
                            lemma_glue_assoc(seq![bytes[i + 1]], seq![bytes[i + 2]] + seq![bytes[i + 3]], after);
                            lemma_glue_assoc(
                                seq![bytes[i]],
                                seq![bytes[i + 1]] + (seq![bytes[i + 2]] + seq![bytes[i + 3]]),
                                after,
                            );
                            assert(scalar =~= seq![bytes[i]] + (seq![bytes[i + 1]] + (seq![bytes[i + 2]]
                                + seq![bytes[i + 3]])));
                        }
                    }
                    if let Ok(tail) = after {
                        vstd::utf8::valid_utf8_concat(scalar, tail);
                    }
                }
            },
            Scan::Line => {
                if bytes[i] == NEWLINE {
                    lemma_valid_from(bytes, i);
                    lemma_step_over_ascii(bytes, i);
                    lemma_masked_is_utf8(bytes, Scan::Code, i + 1);
                    if let Ok(tail) = masked_from(bytes, Scan::Code, i + 1) {
                        vstd::utf8::valid_utf8_concat(seq![NEWLINE], tail);
                    }
                } else {
                    lemma_masked_is_utf8(bytes, Scan::Line, i + 1);
                    if let Ok(tail) = masked_from(bytes, Scan::Line, i + 1) {
                        vstd::utf8::valid_utf8_concat(seq![SPACE], tail);
                    }
                }
            },
            Scan::Block { start } => {
                if pair_at(bytes, i, STAR, SLASH) {
                    lemma_valid_from(bytes, i + 1);
                    lemma_step_over_ascii(bytes, i + 1);
                    lemma_masked_is_utf8(bytes, Scan::Code, i + 2);
                    if let Ok(tail) = masked_from(bytes, Scan::Code, i + 2) {
                        vstd::utf8::valid_utf8_concat(two_spaces, tail);
                    }
                } else {
                    lemma_masked_is_utf8(bytes, Scan::Block { start }, i + 1);
                    if let Ok(tail) = masked_from(bytes, Scan::Block { start }, i + 1) {
                        vstd::utf8::valid_utf8_concat(seq![SPACE], tail);
                    }
                }
            },
        }
    }
}

/// `String::from_utf8` of std: the string that the bytes encode, if they are
/// valid UTF-8, and nothing otherwise.
#[verifier::external_body]
fn string_from_utf8(bytes: Vec<u8>) -> (r: Option<String>)
    ensures
        r is Some <==> valid_utf8(bytes@),
        r matches Some(text) ==> encode_utf8(text@) == bytes@,
{
    String::from_utf8(bytes).ok()
}

/// Replaces every comment of the source `expr` by spaces, byte for byte. The
/// result has the bytes that [`masked`] gives for the bytes of `expr`. A
/// block comment that is still open at the end is the one error, reported
/// for the file `file_id` at the offset where the comment opens.
pub fn preprocess(expr: &str, file_id: usize) -> (r: Result<String, Vec<Diagnostic>>)
    ensures
        match masked(expr.spec_bytes()) {
            Ok(out) => r is Ok && encode_utf8(r->Ok_0@) == out,
            Err(start) => r is Err && views(r->Err_0@) == seq![
                DiagnosticView::UnclosedComment { file_id, start: start as usize },
            ],
        },
{
    let bytes = expr.as_bytes();
    match mask_comments(bytes) {
        Ok(out) => {
            proof {
                vstd::utf8::encode_utf8_valid_utf8(expr@);
                assert(bytes@.skip(0) =~= bytes@);
                lemma_masked_is_utf8(bytes@, Scan::Code, 0);
            }
            match string_from_utf8(out) {
                Some(text) => Ok(text),
                None => vstd::pervasive::unreached(),
            }
        },
        Err(start) => {
            let mut reports: Vec<Diagnostic> = Vec::new();
            reports.push(Diagnostic::UnclosedComment { file_id, start });
            assert(views(reports@) =~= seq![DiagnosticView::UnclosedComment { file_id, start }]);
            Err(reports)
        },
    }
}

/// The error type of parsers that lalrpop generates.
#[verifier::external_type_specification]
#[verifier::external_body]
#[verifier::reject_recursive_types(L)]
#[verifier::reject_recursive_types(T)]
#[verifier::reject_recursive_types(E)]
pub struct ExParseError<L, T, E>(ParseError<L, T, E>);

/// How the grammar parser failed, with the offsets that it reports.
#[derive(Clone, Copy, Debug, PartialEq, Eq, Structural)]
pub enum ParseFailure {
    /// The lexer met a token it does not know; it ends at `location`.
    InvalidToken { location: usize },
    /// The input ended too early, at `location`.
    UnrecognizedEof { location: usize },
    /// The token at `start..end` cannot stand where it does.
    UnrecognizedToken { start: usize, end: usize },
    /// The token at `start..end` follows a complete input.
    ExtraToken { start: usize, end: usize },
    /// An error of the grammar's own.
    User,
}

impl ParseFailure {
    /// The byte range that a failure is reported at: the place of an invalid
    /// token, the span of a token that is unrecognized or extra, and the start
    /// of the file for every other failure.
    pub open spec fn range(self) -> (usize, usize) {
        match self {
            ParseFailure::InvalidToken { location } => (location, location),
            ParseFailure::UnrecognizedToken { start, end } => (start, end),
            ParseFailure::ExtraToken { start, end } => (start, end),
            _ => (0, 0),
        }
    }
}

/// Reads the kind and the offsets out of a `lalrpop_util::ParseError`, one
/// variant to one variant. The token and the expected tokens are left behind.
#[verifier::external_body]
fn classify<T, E>(error: &ParseError<usize, T, E>) -> ParseFailure {
    match error {
        ParseError::InvalidToken { location } => ParseFailure::InvalidToken { location: *location },
        ParseError::UnrecognizedEof { location, .. } => ParseFailure::UnrecognizedEof { location: *location },
        ParseError::UnrecognizedToken { token, .. } => ParseFailure::UnrecognizedToken { start: token.0, end: token.2 },
        ParseError::ExtraToken { token } => ParseFailure::ExtraToken { start: token.0, end: token.2 },
        ParseError::User { .. } => ParseFailure::User,
    }
}

/// The diagnostic for source that the grammar does not accept.
pub fn produce_generic_report(format: String, token: (usize, usize), file_id: usize) -> (report: Diagnostic)
    ensures
        report@ == (DiagnosticView::IllegalExpression {
            message: format@,
            location: Location { file_id, start: token.0, end: token.1 },
        }),
{
    Diagnostic::IllegalExpression {
        message: format,
        location: Location { file_id, start: token.0, end: token.1 },
    }
}

/// The diagnostic for the parse failure `failure` in the file `file_id`, with
/// the parser's account `message`.
pub fn parse_failure_report(failure: ParseFailure, message: String, file_id: usize) -> (report: Diagnostic)
    ensures
        report@ == (DiagnosticView::IllegalExpression {
            message: message@,
            location: Location { file_id, start: failure.range().0, end: failure.range().1 },
        }),
{
    match failure {
        ParseFailure::InvalidToken { location } => produce_generic_report(
            message,
            (location, location),
            file_id,
        ),
        ParseFailure::UnrecognizedToken { start, end } => produce_generic_report(
            message,
            (start, end),
            file_id,
        ),
        ParseFailure::ExtraToken { start, end } => produce_generic_report(message, (start, end), file_id),
        _ => produce_generic_report(message, (0, 0), file_id),
    }
}

/// The diagnostic for an error of a generated parser: [`parse_failure_report`]
/// of the kind and offsets that the error holds.
pub fn parse_error_report<T, E>(
    error: &ParseError<usize, T, E>,
    message: String,
    file_id: usize,
) -> (report: Diagnostic)
    ensures
        report@ matches DiagnosticView::IllegalExpression { message: text, location } && text == message@
            && location.file_id == file_id,
{
    parse_failure_report(classify(error), message, file_id)
}

} // verus!
