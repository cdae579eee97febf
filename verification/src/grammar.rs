//! The grammar, written down as specification functions over the document's
//! bytes.
//!
//! A parse is modelled as a function from a [`PState`] — a byte offset
//! (`caret`) and a 0-based line counter — to an outcome: the model of the
//! value that starts there together with the state just past it, or the model
//! of the error that a parser must report.  Every executable routine of
//! [`crate::parser`] is proved to return exactly what these functions say.

use vstd::prelude::*;
use vstd::utf8::decode_utf8;
use vstd::utf8::encode_utf8;

use crate::model::ErrorTypeModel;
use crate::model::ValueModel;

verus! {

/// The byte values the grammar distinguishes.
pub const SPACE: u8 = 32;

pub const TAB: u8 = 9;

pub const NEWLINE: u8 = 10;

pub const QUOTE: u8 = 34;

pub const BACKSLASH: u8 = 92;

pub const COMMA: u8 = 44;

pub const COLON: u8 = 58;

pub const LEFT_BRACKET: u8 = 91;

pub const RIGHT_BRACKET: u8 = 93;

pub const LEFT_BRACE: u8 = 123;

pub const RIGHT_BRACE: u8 = 125;

pub const MINUS: u8 = 45;

pub const DOT: u8 = 46;

pub const DIGIT_ZERO: u8 = 48;

pub const DIGIT_NINE: u8 = 57;

pub const LOWER_E: u8 = 101;

pub const UPPER_E: u8 = 69;

pub const LOWER_T: u8 = 116;

pub const LOWER_F: u8 = 102;

pub const LOWER_N: u8 = 110;

/// A scanner position: byte offset and 0-based line number.
pub struct PState {
    pub caret: int,
    pub line: int,
}

/// Outcome of a step that consumes input but produces no value.
pub enum StepResult {
    Done { st: PState },
    Failed { line: int, error: ErrorTypeModel },
}

/// Outcome of scanning a quoted string: its decoded contents.
pub enum TextResult {
    Done { text: Seq<char>, st: PState },
    Failed { line: int, error: ErrorTypeModel },
}

/// Outcome of parsing one value.
pub enum ValueResult {
    Done { value: ValueModel, st: PState },
    Failed { line: int, error: ErrorTypeModel },
}

/// The whitespace bytes: space, tab, newline.
pub open spec fn is_ws(b: u8) -> bool {
    b == SPACE || b == TAB || b == NEWLINE
}

/// The ASCII digit bytes.
pub open spec fn is_digit(b: u8) -> bool {
    DIGIT_ZERO <= b <= DIGIT_NINE
}

/// The characters of an ASCII byte sequence, byte for byte.
pub open spec fn ascii_chars(s: Seq<u8>) -> Seq<char> {
    Seq::new(s.len(), |i: int| s[i] as char)
}

/// The bytes of the literal keyword `true`.
pub open spec fn keyword_true() -> Seq<u8> {
    seq![116u8, 114u8, 117u8, 101u8]
}

/// The bytes of the literal keyword `false`.
pub open spec fn keyword_false() -> Seq<u8> {
    seq![102u8, 97u8, 108u8, 115u8, 101u8]
}

/// The bytes of the literal keyword `null`.
pub open spec fn keyword_null() -> Seq<u8> {
    seq![110u8, 117u8, 108u8, 108u8]
}

/// Consuming the maximal run of whitespace from `st`.  Each newline byte
/// advances the line counter.  Reaching the end of the document while
/// skipping is the end-of-input failure.
pub open spec fn spec_skip_ws(doc: Seq<u8>, st: PState) -> StepResult
    decreases doc.len() - st.caret,
    when 0 <= st.caret <= doc.len()
{
    if st.caret >= doc.len() {
        StepResult::Failed { line: st.line, error: ErrorTypeModel::UnexpectedEndOfFile }
    } else if doc[st.caret] == NEWLINE {
        spec_skip_ws(doc, PState { caret: st.caret + 1, line: st.line + 1 })
    } else if is_ws(doc[st.caret]) {
        spec_skip_ws(doc, PState { caret: st.caret + 1, line: st.line })
    } else {
        StepResult::Done { st }
    }
}

/// Consuming the bytes of `expected` from position `i` on.  A byte that
/// differs from the expected one is the unknown-keyword failure, which
/// reports the expected literal; running out of input is the end-of-input
/// failure.
pub open spec fn spec_word(doc: Seq<u8>, st: PState, expected: Seq<u8>, i: int) -> StepResult
    decreases expected.len() - i,
    when 0 <= i <= expected.len()
{
    if i >= expected.len() {
        StepResult::Done { st }
    } else if st.caret >= doc.len() || st.caret < 0 {
        StepResult::Failed { line: st.line, error: ErrorTypeModel::UnexpectedEndOfFile }
    } else if doc[st.caret] == expected[i] {
        spec_word(doc, PState { caret: st.caret + 1, line: st.line }, expected, i + 1)
    } else {
        StepResult::Failed {
            line: st.line,
            error: ErrorTypeModel::UnknownKeyword { keyword: decode_utf8(expected) },
        }
    }
}

/// The caret stopped just past the first byte that diverges from
/// `expected`: everything between `start` and that byte matches, the byte
/// itself does not.
pub open spec fn stopped_at_mismatch(doc: Seq<u8>, start: int, stop: int, expected: Seq<u8>) -> bool {
    &&& 0 <= stop - start - 1 < expected.len()
    &&& (forall|j: int| 0 <= j < stop - start - 1 ==> #[trigger] doc[start + j] == expected[j])
    &&& doc[stop - 1] != expected[stop - start - 1]
}

/// Scanning the inside of a quoted string whose contents began at byte
/// offset `start`.  An unescaped quote ends the scan; a backslash makes the
/// following byte ordinary; every newline byte consumed — plain or escaped
/// — advances the line counter.  The contents are the bytes strictly
/// between the quotes, decoded as text.
pub open spec fn spec_string_scan(doc: Seq<u8>, start: int, st: PState) -> TextResult
    decreases doc.len() - st.caret,
    when 0 <= start <= st.caret <= doc.len()
{
    if st.caret >= doc.len() {
        TextResult::Failed { line: st.line, error: ErrorTypeModel::UnexpectedEndOfFile }
    } else if doc[st.caret] == QUOTE {
        TextResult::Done {
            text: decode_utf8(doc.subrange(start, st.caret)),
            st: PState { caret: st.caret + 1, line: st.line },
        }
    } else if doc[st.caret] == BACKSLASH {
        if st.caret + 1 >= doc.len() {
            TextResult::Failed { line: st.line, error: ErrorTypeModel::UnexpectedEndOfFile }
        } else {
            spec_string_scan(
                doc,
                start,
                PState {
                    caret: st.caret + 2,
                    line: st.line + if doc[st.caret + 1] == NEWLINE {
                        1int
                    } else {
                        0int
                    },
                },
            )
        }
    } else {
        spec_string_scan(
            doc,
            start,
            PState {
                caret: st.caret + 1,
                line: st.line + if doc[st.caret] == NEWLINE {
                    1int
                } else {
                    0int
                },
            },
        )
    }
}

/// A quoted string at `st`: the opening quote is consumed, then the contents
/// are scanned up to the matching unescaped closing quote.
pub open spec fn spec_string(doc: Seq<u8>, st: PState) -> TextResult {
    if !(0 <= st.caret < doc.len()) {
        TextResult::Failed { line: st.line, error: ErrorTypeModel::UnexpectedEndOfFile }
    } else {
        spec_string_scan(doc, st.caret + 1, PState { caret: st.caret + 1, line: st.line })
    }
}

/// The position just past the maximal run of ASCII digits that starts at
/// byte offset `c`.
pub open spec fn digit_run_end(doc: Seq<u8>, c: int) -> int
    decreases doc.len() - c,
    when 0 <= c <= doc.len()
{
    if c >= doc.len() {
        c
    } else if is_digit(doc[c]) {
        digit_run_end(doc, c + 1)
    } else {
        c
    }
}

/// The numeric value of a sequence of ASCII digit bytes, most significant
/// first.
pub open spec fn digits_value(s: Seq<u8>) -> int
    decreases s.len(),
{
    if s.len() == 0 {
        0
    } else {
        digits_value(s.subrange(0, s.len() - 1)) * 10 + (s[s.len() - 1] - DIGIT_ZERO)
    }
}

/// A digit sequence has a non-negative value.
pub proof fn lemma_digits_value_nonneg(s: Seq<u8>)
    requires
        forall|k: int| 0 <= k < s.len() ==> is_digit(s[k]),
    ensures
        digits_value(s) >= 0,
    decreases s.len(),
{
    if s.len() > 0 {
        lemma_digits_value_nonneg(s.subrange(0, s.len() - 1));
    }
}

/// A numeric literal at `st`.
///
/// An optional minus sign is followed by either a single `0` or a maximal
/// digit run.  Without a following dot the digits form a 64-bit signed
/// integer; digit text that is empty or out of range is the invalid-integer
/// failure.  With a dot, a further digit run and an optional `e`/`E`
/// exponent digit run are consumed, and the whole consumed slice is kept as
/// the text of a floating-point literal; a literal with no significand
/// digits, or an exponent mark with no digits after it, is the
/// invalid-float failure.
pub open spec fn spec_number(doc: Seq<u8>, st: PState) -> ValueResult {
    if !(0 <= st.caret <= doc.len()) {
        ValueResult::Failed { line: st.line, error: ErrorTypeModel::UnexpectedEndOfFile }
    } else if st.caret >= doc.len() {
        ValueResult::Failed { line: st.line, error: ErrorTypeModel::UnexpectedEndOfFile }
    } else {
        let neg = doc[st.caret] == MINUS;
        let c0 = if neg { st.caret + 1 } else { st.caret };
        if c0 >= doc.len() {
            ValueResult::Failed { line: st.line, error: ErrorTypeModel::UnexpectedEndOfFile }
        } else {
            let int_end = if doc[c0] == DIGIT_ZERO { c0 + 1 } else { digit_run_end(doc, c0) };
            if int_end >= doc.len() || doc[int_end] != DOT {
                spec_integer_of(doc, st, neg, c0, int_end)
            } else {
                let frac_end = digit_run_end(doc, int_end + 1);
                let sig_ok = int_end > c0 || frac_end > int_end + 1;
                if frac_end < doc.len() && (doc[frac_end] == LOWER_E || doc[frac_end] == UPPER_E) {
                    let exp_end = digit_run_end(doc, frac_end + 1);
                    if !sig_ok || exp_end == frac_end + 1 {
                        ValueResult::Failed { line: st.line, error: ErrorTypeModel::InvalidFloat }
                    } else {
                        spec_float_of(doc, st, exp_end)
                    }
                } else {
                    if !sig_ok {
                        ValueResult::Failed { line: st.line, error: ErrorTypeModel::InvalidFloat }
                    } else {
                        spec_float_of(doc, st, frac_end)
                    }
                }
            }
        }
    }
}

/// The integer outcome for digit text `doc[c0 .. int_end)` with sign `neg`.
pub open spec fn spec_integer_of(
    doc: Seq<u8>,
    st: PState,
    neg: bool,
    c0: int,
    int_end: int,
) -> ValueResult {
    let digs = doc.subrange(c0, int_end);
    if digs.len() == 0 {
        ValueResult::Failed { line: st.line, error: ErrorTypeModel::InvalidInteger }
    } else {
        let v = if neg {
            -digits_value(digs)
        } else {
            digits_value(digs)
        };
        if i64::MIN <= v <= i64::MAX {
            ValueResult::Done {
                value: ValueModel::Integer { value: v as i64 },
                st: PState { caret: int_end, line: st.line },
            }
        } else {
            ValueResult::Failed { line: st.line, error: ErrorTypeModel::InvalidInteger }
        }
    }
}

/// The float outcome: the consumed slice `doc[st.caret .. end)` kept as
/// text.
pub open spec fn spec_float_of(doc: Seq<u8>, st: PState, end: int) -> ValueResult {
    ValueResult::Done {
        value: ValueModel::Float { value: ascii_chars(doc.subrange(st.caret, end)) },
        st: PState { caret: end, line: st.line },
    }
}

/// One value at `st`: leading whitespace is skipped, then the next byte
/// chooses the construct — `{` an object, `[` an array, `"` a string, `t`,
/// `f` and `n` the fixed keywords, and anything else a numeric literal.
pub open spec fn spec_parse(doc: Seq<u8>, st: PState) -> ValueResult
    decreases doc.len() - st.caret, 1int,
    when 0 <= st.caret <= doc.len()
{
    match spec_skip_ws(doc, st) {
        StepResult::Failed { line, error } => ValueResult::Failed { line, error },
        StepResult::Done { st: st1 } => {
            if !(st.caret <= st1.caret < doc.len()) {
                ValueResult::Failed { line: st1.line, error: ErrorTypeModel::UnexpectedEndOfFile }
            } else {
                let b = doc[st1.caret];
                if b == LEFT_BRACE {
                    spec_dict(doc, st1)
                } else if b == LEFT_BRACKET {
                    spec_array(doc, st1)
                } else if b == QUOTE {
                    match spec_string(doc, st1) {
                        TextResult::Failed { line, error } => ValueResult::Failed { line, error },
                        TextResult::Done { text, st: st2 } => ValueResult::Done {
                            value: ValueModel::String { value: text },
                            st: st2,
                        },
                    }
                } else if b == LOWER_T {
                    spec_keyword_value(
                        doc,
                        st1,
                        keyword_true(),
                        ValueModel::Boolean { value: true },
                    )
                } else if b == LOWER_F {
                    spec_keyword_value(
                        doc,
                        st1,
                        keyword_false(),
                        ValueModel::Boolean { value: false },
                    )
                } else if b == LOWER_N {
                    spec_keyword_value(doc, st1, keyword_null(), ValueModel::Null)
                } else {
                    spec_number(doc, st1)
                }
            }
        },
    }
}

/// A fixed keyword at `st`, standing for the given value.
pub open spec fn spec_keyword_value(
    doc: Seq<u8>,
    st: PState,
    expected: Seq<u8>,
    value: ValueModel,
) -> ValueResult {
    match spec_word(doc, st, expected, 0) {
        StepResult::Failed { line, error } => ValueResult::Failed { line, error },
        StepResult::Done { st: st2 } => ValueResult::Done { value, st: st2 },
    }
}

/// An array at `st`, whose byte is the opening bracket.  After the bracket
/// either the matching close follows — the empty array — or a first element
/// begins.
pub open spec fn spec_array(doc: Seq<u8>, st: PState) -> ValueResult
    decreases doc.len() - st.caret, 0int,
    when 0 <= st.caret < doc.len()
{
    let st0 = PState { caret: st.caret + 1, line: st.line };
    match spec_skip_ws(doc, st0) {
        StepResult::Failed { line, error } => ValueResult::Failed { line, error },
        StepResult::Done { st: st1 } => {
            if !(st0.caret <= st1.caret < doc.len()) {
                ValueResult::Failed { line: st1.line, error: ErrorTypeModel::UnexpectedEndOfFile }
            } else if doc[st1.caret] == RIGHT_BRACKET {
                ValueResult::Done {
                    value: ValueModel::Array { value: Seq::empty() },
                    st: PState { caret: st1.caret + 1, line: st1.line },
                }
            } else {
                spec_array_items(doc, st1, Seq::empty())
            }
        },
    }
}

/// The elements of a non-empty array, one value then `]` or `,` repeatedly,
/// with `acc` the models of the elements already read.  A comma must be
/// followed by another value, so a trailing comma before the close is
/// rejected by the value parse it triggers.
pub open spec fn spec_array_items(doc: Seq<u8>, st: PState, acc: Seq<ValueModel>) -> ValueResult
    decreases doc.len() - st.caret, 2int,
    when 0 <= st.caret <= doc.len()
{
    match spec_parse(doc, st) {
        ValueResult::Failed { line, error } => ValueResult::Failed { line, error },
        ValueResult::Done { value, st: st2 } => {
            if !(st.caret < st2.caret <= doc.len()) {
                ValueResult::Failed { line: st2.line, error: ErrorTypeModel::UnexpectedEndOfFile }
            } else {
                match spec_skip_ws(doc, st2) {
                    StepResult::Failed { line, error } => ValueResult::Failed { line, error },
                    StepResult::Done { st: st3 } => {
                        if !(st2.caret <= st3.caret < doc.len()) {
                            ValueResult::Failed {
                                line: st3.line,
                                error: ErrorTypeModel::UnexpectedEndOfFile,
                            }
                        } else if doc[st3.caret] == RIGHT_BRACKET {
                            ValueResult::Done {
                                value: ValueModel::Array { value: acc.push(value) },
                                st: PState { caret: st3.caret + 1, line: st3.line },
                            }
                        } else if doc[st3.caret] == COMMA {
                            spec_array_items(
                                doc,
                                PState { caret: st3.caret + 1, line: st3.line },
                                acc.push(value),
                            )
                        } else {
                            ValueResult::Failed {
                                line: st3.line,
                                error: ErrorTypeModel::ExpectedArrayCloseOrComma,
                            }
                        }
                    },
                }
            }
        },
    }
}

/// An object at `st`, whose byte is the opening brace.  After the brace
/// either the matching close follows — the empty object — or a first
/// key/value entry begins.
pub open spec fn spec_dict(doc: Seq<u8>, st: PState) -> ValueResult
    decreases doc.len() - st.caret, 0int,
    when 0 <= st.caret < doc.len()
{
    let st0 = PState { caret: st.caret + 1, line: st.line };
    match spec_skip_ws(doc, st0) {
        StepResult::Failed { line, error } => ValueResult::Failed { line, error },
        StepResult::Done { st: st1 } => {
            if !(st0.caret <= st1.caret < doc.len()) {
                ValueResult::Failed { line: st1.line, error: ErrorTypeModel::UnexpectedEndOfFile }
            } else if doc[st1.caret] == RIGHT_BRACE {
                ValueResult::Done {
                    value: ValueModel::Dict { value: Map::empty() },
                    st: PState { caret: st1.caret + 1, line: st1.line },
                }
            } else {
                spec_dict_items(doc, st1, Map::empty())
            }
        },
    }
}

/// The entries of a non-empty object: a quoted key, a colon, a value, then
/// `}` or `,` repeatedly, with `acc` the mapping read so far.  A later
/// entry with an already-present key overwrites it.  A byte other than a
/// quote where a key should begin — in particular a close brace right after
/// a comma — is the expected-key failure; a missing colon is reported with
/// the key it follows.
pub open spec fn spec_dict_items(
    doc: Seq<u8>,
    st: PState,
    acc: Map<Seq<char>, ValueModel>,
) -> ValueResult
    decreases doc.len() - st.caret, 2int,
    when 0 <= st.caret <= doc.len()
{
    match spec_skip_ws(doc, st) {
        StepResult::Failed { line, error } => ValueResult::Failed { line, error },
        StepResult::Done { st: st1 } => {
            if !(st.caret <= st1.caret < doc.len()) {
                ValueResult::Failed { line: st1.line, error: ErrorTypeModel::UnexpectedEndOfFile }
            } else if doc[st1.caret] != QUOTE {
                ValueResult::Failed { line: st1.line, error: ErrorTypeModel::ExpectedDictKey }
            } else {
                match spec_string(doc, st1) {
                    TextResult::Failed { line, error } => ValueResult::Failed { line, error },
                    TextResult::Done { text: key, st: st2 } => {
                        if !(st1.caret < st2.caret <= doc.len()) {
                            ValueResult::Failed {
                                line: st2.line,
                                error: ErrorTypeModel::UnexpectedEndOfFile,
                            }
                        } else {
                            spec_dict_entry(doc, st, st2, key, acc)
                        }
                    },
                }
            }
        },
    }
}

/// The rest of one object entry, after its key: the colon, the value, and
/// the close-or-comma that follows.  `st_items` is where the whole entry
/// began; `acc` is the mapping read before this entry.
pub open spec fn spec_dict_entry(
    doc: Seq<u8>,
    st_items: PState,
    st2: PState,
    key: Seq<char>,
    acc: Map<Seq<char>, ValueModel>,
) -> ValueResult
    decreases doc.len() - st_items.caret, 1int,
    when 0 <= st_items.caret < st2.caret <= doc.len()
{
    match spec_skip_ws(doc, st2) {
        StepResult::Failed { line, error } => ValueResult::Failed { line, error },
        StepResult::Done { st: st3 } => {
            if !(st2.caret <= st3.caret < doc.len()) {
                ValueResult::Failed { line: st3.line, error: ErrorTypeModel::UnexpectedEndOfFile }
            } else if doc[st3.caret] != COLON {
                ValueResult::Failed {
                    line: st3.line,
                    error: ErrorTypeModel::ExpectedDictColonAfterKey { key },
                }
            } else {
                let st4 = PState { caret: st3.caret + 1, line: st3.line };
                match spec_parse(doc, st4) {
                    ValueResult::Failed { line, error } => ValueResult::Failed { line, error },
                    ValueResult::Done { value, st: st5 } => {
                        if !(st4.caret < st5.caret <= doc.len()) {
                            ValueResult::Failed {
                                line: st5.line,
                                error: ErrorTypeModel::UnexpectedEndOfFile,
                            }
                        } else {
                            match spec_skip_ws(doc, st5) {
                                StepResult::Failed { line, error } => ValueResult::Failed {
                                    line,
                                    error,
                                },
                                StepResult::Done { st: st6 } => {
                                    if !(st5.caret <= st6.caret < doc.len()) {
                                        ValueResult::Failed {
                                            line: st6.line,
                                            error: ErrorTypeModel::UnexpectedEndOfFile,
                                        }
                                    } else if doc[st6.caret] == RIGHT_BRACE {
                                        ValueResult::Done {
                                            value: ValueModel::Dict {
                                                value: acc.insert(key, value),
                                            },
                                            st: PState {
                                                caret: st6.caret + 1,
                                                line: st6.line,
                                            },
                                        }
                                    } else if doc[st6.caret] == COMMA {
                                        spec_dict_items(
                                            doc,
                                            PState { caret: st6.caret + 1, line: st6.line },
                                            acc.insert(key, value),
                                        )
                                    } else {
                                        ValueResult::Failed {
                                            line: st6.line,
                                            error: ErrorTypeModel::ExpectedDictCloseOrComma,
                                        }
                                    }
                                },
                            }
                        }
                    },
                }
            }
        },
    }
}

/// A whole document, viewed as the characters of its text: parsing starts
/// at its first byte, on line 0.
pub open spec fn spec_parse_document(text: Seq<char>) -> ValueResult {
    spec_parse(encode_utf8(text), PState { caret: 0, line: 0 })
}

} // verus!
