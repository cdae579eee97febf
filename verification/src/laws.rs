//! Laws of the grammar: properties of the specification functions that the
//! parsing routines are proved against.
//!
//! Each proof function here states one guarantee of the parser for a whole
//! family of documents — empty containers, trailing commas, missing colons,
//! truncated input, unknown keywords, line counting, duplicate keys — over
//! the same specification functions that the executable routines'
//! contracts use.

use vstd::prelude::*;
use vstd::seq_lib::*;
use vstd::utf8::decode_utf8;

use crate::grammar::ascii_chars;
use crate::grammar::digit_run_end;
use crate::grammar::digits_value;
use crate::grammar::is_digit;
use crate::grammar::is_ws;
use crate::grammar::keyword_false;
use crate::grammar::lemma_digits_value_nonneg;
use crate::grammar::keyword_null;
use crate::grammar::keyword_true;
use crate::grammar::spec_array_items;
use crate::grammar::spec_dict_entry;
use crate::grammar::spec_dict_items;
use crate::grammar::spec_float_of;
use crate::grammar::spec_integer_of;
use crate::grammar::spec_number;
use crate::grammar::spec_parse;
use crate::grammar::spec_skip_ws;
use crate::grammar::spec_string_scan;
use crate::grammar::spec_word;
use crate::grammar::PState;
use crate::grammar::StepResult;
use crate::grammar::TextResult;
use crate::grammar::ValueResult;
use crate::grammar::BACKSLASH;
use crate::grammar::COLON;
use crate::grammar::COMMA;
use crate::grammar::DIGIT_ZERO;
use crate::grammar::DOT;
use crate::grammar::LOWER_E;
use crate::grammar::MINUS;
use crate::grammar::UPPER_E;
use crate::grammar::LEFT_BRACE;
use crate::grammar::LEFT_BRACKET;
use crate::grammar::LOWER_F;
use crate::grammar::LOWER_N;
use crate::grammar::LOWER_T;
use crate::grammar::NEWLINE;
use crate::grammar::QUOTE;
use crate::grammar::RIGHT_BRACE;
use crate::grammar::RIGHT_BRACKET;
use crate::model::ErrorTypeModel;
use crate::model::ValueModel;

verus! {

/// Consuming a literal word that stands, byte for byte, under the caret
/// succeeds and advances past it.
pub proof fn lemma_word_matches(doc: Seq<u8>, st: PState, expected: Seq<u8>, i: int)
    requires
        0 <= i <= expected.len(),
        0 <= st.caret,
        st.caret + (expected.len() - i) <= doc.len(),
        forall|k: int| 0 <= k < expected.len() - i ==> #[trigger] doc[st.caret + k] == expected[i
            + k],
    ensures
        spec_word(doc, st, expected, i) == (StepResult::Done {
            st: (PState { caret: st.caret + (expected.len() - i), line: st.line }),
        }),
    decreases expected.len() - i,
{
    if i < expected.len() {
        assert(doc[st.caret + 0] == expected[i + 0]);
        let stn = PState { caret: st.caret + 1, line: st.line };
        assert forall|k: int| 0 <= k < expected.len() - (i + 1) implies #[trigger] doc[stn.caret
            + k] == expected[(i + 1) + k] by {
            assert(doc[st.caret + (k + 1)] == expected[i + (k + 1)]);
        };
        lemma_word_matches(doc, stn, expected, i + 1);
    }
}

/// A keyword `true` under the caret parses to the boolean true, consuming
/// exactly its four bytes.
pub proof fn lemma_parse_true(doc: Seq<u8>, st: PState)
    requires
        0 <= st.caret,
        st.caret + 4 <= doc.len(),
        doc.subrange(st.caret, st.caret + 4) == keyword_true(),
    ensures
        spec_parse(doc, st) == (ValueResult::Done {
            value: ValueModel::Boolean { value: true },
            st: (PState { caret: st.caret + 4, line: st.line }),
        }),
{
    assert(doc[st.caret] == LOWER_T) by {
        assert(doc.subrange(st.caret, st.caret + 4)[0] == doc[st.caret]);
    };
    assert(spec_skip_ws(doc, st) == StepResult::Done { st });
    assert(forall|k: int| 0 <= k < 4 ==> #[trigger] doc[st.caret + k] == keyword_true()[k]) by {
        assert(forall|k: int|
            0 <= k < 4 ==> #[trigger] doc.subrange(st.caret, st.caret + 4)[k] == doc[st.caret
                + k]);
    };
    lemma_word_matches(doc, st, keyword_true(), 0);
}

/// A keyword `false` under the caret parses to the boolean false,
/// consuming exactly its five bytes.
pub proof fn lemma_parse_false(doc: Seq<u8>, st: PState)
    requires
        0 <= st.caret,
        st.caret + 5 <= doc.len(),
        doc.subrange(st.caret, st.caret + 5) == keyword_false(),
    ensures
        spec_parse(doc, st) == (ValueResult::Done {
            value: ValueModel::Boolean { value: false },
            st: (PState { caret: st.caret + 5, line: st.line }),
        }),
{
    assert(doc[st.caret] == LOWER_F) by {
        assert(doc.subrange(st.caret, st.caret + 5)[0] == doc[st.caret]);
    };
    assert(spec_skip_ws(doc, st) == StepResult::Done { st });
    assert(forall|k: int| 0 <= k < 5 ==> #[trigger] doc[st.caret + k] == keyword_false()[k]) by {
        assert(forall|k: int|
            0 <= k < 5 ==> #[trigger] doc.subrange(st.caret, st.caret + 5)[k] == doc[st.caret
                + k]);
    };
    lemma_word_matches(doc, st, keyword_false(), 0);
}

/// A keyword `null` under the caret parses to the null value, consuming
/// exactly its four bytes.
pub proof fn lemma_parse_null(doc: Seq<u8>, st: PState)
    requires
        0 <= st.caret,
        st.caret + 4 <= doc.len(),
        doc.subrange(st.caret, st.caret + 4) == keyword_null(),
    ensures
        spec_parse(doc, st) == (ValueResult::Done {
            value: ValueModel::Null,
            st: (PState { caret: st.caret + 4, line: st.line }),
        }),
{
    assert(doc[st.caret] == LOWER_N) by {
        assert(doc.subrange(st.caret, st.caret + 4)[0] == doc[st.caret]);
    };
    assert(spec_skip_ws(doc, st) == StepResult::Done { st });
    assert(forall|k: int| 0 <= k < 4 ==> #[trigger] doc[st.caret + k] == keyword_null()[k]) by {
        assert(forall|k: int|
            0 <= k < 4 ==> #[trigger] doc.subrange(st.caret, st.caret + 4)[k] == doc[st.caret
                + k]);
    };
    lemma_word_matches(doc, st, keyword_null(), 0);
}

/// A maximal digit run that stops exactly at `end`.
proof fn lemma_digit_run_exact(doc: Seq<u8>, c: int, end: int)
    requires
        0 <= c <= end <= doc.len(),
        forall|k: int| c <= k < end ==> is_digit(doc[k]),
        end < doc.len() ==> !is_digit(doc[end]),
    ensures
        digit_run_end(doc, c) == end,
    decreases end - c,
{
    if c < end {
        lemma_digit_run_exact(doc, c + 1, end);
    }
}

/// A run of digits under the caret, not beginning with `0` unless it is
/// that single digit, and not followed by a digit or a dot, parses to the
/// integer those digits denote — provided it fits in 64 signed bits.
pub proof fn lemma_parse_integer(doc: Seq<u8>, st: PState, end: int)
    requires
        0 <= st.caret < end <= doc.len(),
        forall|k: int| st.caret <= k < end ==> is_digit(doc[k]),
        doc[st.caret] == DIGIT_ZERO ==> end == st.caret + 1,
        end < doc.len() ==> !is_digit(doc[end]) && doc[end] != DOT,
        digits_value(doc.subrange(st.caret, end)) <= i64::MAX,
    ensures
        spec_parse(doc, st) == (ValueResult::Done {
            value: ValueModel::Integer {
                value: digits_value(doc.subrange(st.caret, end)) as i64,
            },
            st: (PState { caret: end, line: st.line }),
        }),
{
    assert(is_digit(doc[st.caret]));
    assert(spec_skip_ws(doc, st) == StepResult::Done { st });
    if doc[st.caret] == DIGIT_ZERO {
        assert(spec_number(doc, st) == spec_integer_of(doc, st, false, st.caret, end));
    } else {
        lemma_digit_run_exact(doc, st.caret, end);
        assert(spec_number(doc, st) == spec_integer_of(doc, st, false, st.caret, end));
    }
    let digs = doc.subrange(st.caret, end);
    assert(digs.len() > 0);
    lemma_digits_value_nonneg(digs);
}

/// A minus sign followed by such a digit run parses to the negated
/// integer — provided it fits in 64 signed bits.
pub proof fn lemma_parse_negative_integer(doc: Seq<u8>, st: PState, end: int)
    requires
        0 <= st.caret,
        st.caret + 1 < end <= doc.len(),
        doc[st.caret] == MINUS,
        forall|k: int| st.caret + 1 <= k < end ==> is_digit(doc[k]),
        doc[st.caret + 1] == DIGIT_ZERO ==> end == st.caret + 2,
        end < doc.len() ==> !is_digit(doc[end]) && doc[end] != DOT,
        -digits_value(doc.subrange(st.caret + 1, end)) >= i64::MIN,
    ensures
        spec_parse(doc, st) == (ValueResult::Done {
            value: ValueModel::Integer {
                value: (-digits_value(doc.subrange(st.caret + 1, end))) as i64,
            },
            st: (PState { caret: end, line: st.line }),
        }),
{
    assert(spec_skip_ws(doc, st) == StepResult::Done { st });
    if doc[st.caret + 1] != DIGIT_ZERO {
        lemma_digit_run_exact(doc, st.caret + 1, end);
    }
    assert(spec_number(doc, st) == spec_integer_of(doc, st, true, st.caret + 1, end));
    let digs = doc.subrange(st.caret + 1, end);
    assert(digs.len() > 0);
    lemma_digits_value_nonneg(digs);
}

/// A digit run, a dot and a second digit run — with no exponent mark after
/// them — parse to a floating-point literal that keeps exactly the
/// consumed text.
pub proof fn lemma_parse_float(doc: Seq<u8>, st: PState, dot: int, end: int)
    requires
        0 <= st.caret < dot < end <= doc.len(),
        doc[dot] == DOT,
        forall|k: int| st.caret <= k < dot ==> is_digit(doc[k]),
        forall|k: int| dot < k < end ==> is_digit(doc[k]),
        doc[st.caret] == DIGIT_ZERO ==> dot == st.caret + 1,
        end < doc.len() ==> !is_digit(doc[end]) && doc[end] != LOWER_E && doc[end] != UPPER_E,
    ensures
        spec_parse(doc, st) == (ValueResult::Done {
            value: ValueModel::Float { value: ascii_chars(doc.subrange(st.caret, end)) },
            st: (PState { caret: end, line: st.line }),
        }),
{
    assert(is_digit(doc[st.caret]));
    assert(spec_skip_ws(doc, st) == StepResult::Done { st });
    if doc[st.caret] != DIGIT_ZERO {
        lemma_digit_run_exact(doc, st.caret, dot);
    }
    lemma_digit_run_exact(doc, dot + 1, end);
    assert(spec_number(doc, st) == spec_float_of(doc, st, end));
}

/// Scanning string contents that hold no quote and no backslash up to the
/// closing quote yields exactly those contents, counting the newline bytes
/// among them into the line.
proof fn lemma_scan_to_quote(doc: Seq<u8>, start: int, st: PState, end: int)
    requires
        0 <= start <= st.caret <= end < doc.len(),
        doc[end] == QUOTE,
        forall|k: int| st.caret <= k < end ==> doc[k] != QUOTE && doc[k] != BACKSLASH,
    ensures
        spec_string_scan(doc, start, st) == (TextResult::Done {
            text: decode_utf8(doc.subrange(start, end)),
            st: (PState { caret: end + 1, line: st.line + newline_count(doc, st.caret, end) }),
        }),
    decreases end - st.caret,
{
    if st.caret < end {
        let bump: int = if doc[st.caret] == NEWLINE {
            1int
        } else {
            0int
        };
        lemma_scan_to_quote(doc, start, PState { caret: st.caret + 1, line: st.line + bump }, end);
        lemma_newline_count_step(doc, st.caret, end);
    }
}

/// A quoted string whose contents hold no quote and no backslash parses to
/// exactly those contents, consuming through the closing quote; newline
/// bytes inside the contents count into the line.
pub proof fn lemma_parse_simple_string(doc: Seq<u8>, st: PState, end: int)
    requires
        0 <= st.caret < end < doc.len(),
        doc[st.caret] == QUOTE,
        doc[end] == QUOTE,
        forall|k: int| st.caret < k < end ==> doc[k] != QUOTE && doc[k] != BACKSLASH,
    ensures
        spec_parse(doc, st) == (ValueResult::Done {
            value: ValueModel::String { value: decode_utf8(doc.subrange(st.caret + 1, end)) },
            st: (PState {
                caret: end + 1,
                line: st.line + newline_count(doc, st.caret + 1, end),
            }),
        }),
{
    assert(spec_skip_ws(doc, st) == StepResult::Done { st });
    lemma_scan_to_quote(
        doc,
        st.caret + 1,
        PState { caret: st.caret + 1, line: st.line },
        end,
    );
}

/// An empty array — a bracket pair under the caret — parses to an array of
/// zero elements.
pub proof fn lemma_empty_array(doc: Seq<u8>, st: PState)
    requires
        0 <= st.caret,
        st.caret + 2 <= doc.len(),
        doc[st.caret] == LEFT_BRACKET,
        doc[st.caret + 1] == RIGHT_BRACKET,
    ensures
        spec_parse(doc, st) == (ValueResult::Done {
            value: ValueModel::Array { value: Seq::empty() },
            st: (PState { caret: st.caret + 2, line: st.line }),
        }),
{
    assert(spec_skip_ws(doc, st) == StepResult::Done { st });
    let st0 = PState { caret: st.caret + 1, line: st.line };
    assert(spec_skip_ws(doc, st0) == StepResult::Done { st: st0 });
}

/// An empty object — a brace pair under the caret — parses to a dictionary
/// of zero entries.
pub proof fn lemma_empty_dict(doc: Seq<u8>, st: PState)
    requires
        0 <= st.caret,
        st.caret + 2 <= doc.len(),
        doc[st.caret] == LEFT_BRACE,
        doc[st.caret + 1] == RIGHT_BRACE,
    ensures
        spec_parse(doc, st) == (ValueResult::Done {
            value: ValueModel::Dict { value: Map::empty() },
            st: (PState { caret: st.caret + 2, line: st.line }),
        }),
{
    assert(spec_skip_ws(doc, st) == StepResult::Done { st });
    let st0 = PState { caret: st.caret + 1, line: st.line };
    assert(spec_skip_ws(doc, st0) == StepResult::Done { st: st0 });
}

/// A closing bracket where an array element must begin — right after a
/// comma — makes the parse fail: the grammar requires a value after every
/// comma, so a trailing comma is rejected.
pub proof fn lemma_array_trailing_comma(doc: Seq<u8>, st: PState, acc: Seq<ValueModel>)
    requires
        0 <= st.caret < doc.len(),
        doc[st.caret] == RIGHT_BRACKET,
    ensures
        spec_array_items(doc, st, acc) == (ValueResult::Failed {
            line: st.line,
            error: ErrorTypeModel::InvalidInteger,
        }),
{
    assert(spec_skip_ws(doc, st) == StepResult::Done { st });
    assert(digit_run_end(doc, st.caret) == st.caret);
    assert(doc.subrange(st.caret, st.caret).len() == 0);
    assert(spec_number(doc, st) == spec_integer_of(doc, st, false, st.caret, st.caret));
    assert(spec_number(doc, st) == ValueResult::Failed {
        line: st.line,
        error: ErrorTypeModel::InvalidInteger,
    });
    assert(spec_parse(doc, st) == ValueResult::Failed {
        line: st.line,
        error: ErrorTypeModel::InvalidInteger,
    });
}

/// A closing brace where an object key must begin — right after a comma —
/// makes the parse fail: a trailing comma before the close is rejected.
pub proof fn lemma_dict_trailing_comma(
    doc: Seq<u8>,
    st: PState,
    acc: Map<Seq<char>, ValueModel>,
)
    requires
        0 <= st.caret < doc.len(),
        doc[st.caret] == RIGHT_BRACE,
    ensures
        spec_dict_items(doc, st, acc) == (ValueResult::Failed {
            line: st.line,
            error: ErrorTypeModel::ExpectedDictKey,
        }),
{
    assert(spec_skip_ws(doc, st) == StepResult::Done { st });
}

/// A byte other than a colon after an object key fails with the error that
/// carries exactly that key.
pub proof fn lemma_missing_colon(
    doc: Seq<u8>,
    st_items: PState,
    st2: PState,
    key: Seq<char>,
    acc: Map<Seq<char>, ValueModel>,
)
    requires
        0 <= st_items.caret < st2.caret < doc.len(),
        doc[st2.caret] != COLON,
        !is_ws(doc[st2.caret]),
    ensures
        spec_dict_entry(doc, st_items, st2, key, acc) == (ValueResult::Failed {
            line: st2.line,
            error: (ErrorTypeModel::ExpectedDictColonAfterKey { key }),
        }),
{
    assert(spec_skip_ws(doc, st2) == StepResult::Done { st: st2 });
}

/// Parsing at the end of the document is the end-of-input failure.
pub proof fn lemma_parse_at_end(doc: Seq<u8>, st: PState)
    requires
        st.caret == doc.len(),
        0 <= st.caret,
    ensures
        spec_parse(doc, st) == (ValueResult::Failed {
            line: st.line,
            error: ErrorTypeModel::UnexpectedEndOfFile,
        }),
{
}

/// A string with no closing quote before the end of the document fails
/// with the end-of-input error; the reported line counts every newline
/// byte consumed on the way.
pub proof fn lemma_unterminated_string(doc: Seq<u8>, start: int, st: PState)
    requires
        0 <= start <= st.caret <= doc.len(),
        forall|k: int| st.caret <= k < doc.len() ==> doc[k] != QUOTE,
    ensures
        spec_string_scan(doc, start, st) == (TextResult::Failed {
            line: st.line + newline_count(doc, st.caret, doc.len() as int),
            error: ErrorTypeModel::UnexpectedEndOfFile,
        }),
    decreases doc.len() - st.caret,
{
    if st.caret < doc.len() {
        lemma_newline_count_step(doc, st.caret, doc.len() as int);
        if doc[st.caret] == BACKSLASH {
            if st.caret + 1 < doc.len() {
                let bump: int = if doc[st.caret + 1] == NEWLINE {
                    1int
                } else {
                    0int
                };
                lemma_newline_count_step(doc, st.caret + 1, doc.len() as int);
                lemma_unterminated_string(
                    doc,
                    start,
                    PState { caret: st.caret + 2, line: st.line + bump },
                );
            }
        } else {
            let bump: int = if doc[st.caret] == NEWLINE {
                1int
            } else {
                0int
            };
            lemma_unterminated_string(
                doc,
                start,
                PState { caret: st.caret + 1, line: st.line + bump },
            );
        }
    }
}

/// A keyword cut short by the end of the document fails with the
/// end-of-input error, not with the unknown-keyword error.
pub proof fn lemma_truncated_word(doc: Seq<u8>, st: PState, expected: Seq<u8>, i: int)
    requires
        0 <= st.caret <= doc.len(),
        0 <= i <= expected.len(),
        doc.len() - st.caret < expected.len() - i,
        forall|k: int| 0 <= k < doc.len() - st.caret ==> #[trigger] doc[st.caret + k]
            == expected[i + k],
    ensures
        spec_word(doc, st, expected, i) == (StepResult::Failed {
            line: st.line,
            error: ErrorTypeModel::UnexpectedEndOfFile,
        }),
    decreases expected.len() - i,
{
    if st.caret < doc.len() {
        assert(doc[st.caret + 0] == expected[i + 0]);
        let stn = PState { caret: st.caret + 1, line: st.line };
        assert forall|k: int| 0 <= k < doc.len() - stn.caret implies #[trigger] doc[stn.caret + k]
            == expected[(i + 1) + k] by {
            assert(doc[st.caret + (k + 1)] == expected[i + (k + 1)]);
        };
        lemma_truncated_word(doc, stn, expected, i + 1);
    }
}

/// A keyword whose bytes diverge from the expected literal before the
/// document ends fails with the unknown-keyword error, which carries the
/// expected literal — not the offending text.
pub proof fn lemma_unknown_keyword(doc: Seq<u8>, st: PState, expected: Seq<u8>, i: int, j: int)
    requires
        0 <= i <= j < expected.len(),
        0 <= st.caret,
        st.caret + (j - i) < doc.len(),
        forall|k: int| 0 <= k < j - i ==> #[trigger] doc[st.caret + k] == expected[i + k],
        doc[st.caret + (j - i)] != expected[j],
    ensures
        spec_word(doc, st, expected, i) == (StepResult::Failed {
            line: st.line,
            error: (ErrorTypeModel::UnknownKeyword { keyword: decode_utf8(expected) }),
        }),
    decreases j - i,
{
    if i < j {
        assert(doc[st.caret + 0] == expected[i + 0]);
        let stn = PState { caret: st.caret + 1, line: st.line };
        assert forall|k: int| 0 <= k < j - (i + 1) implies #[trigger] doc[stn.caret + k]
            == expected[(i + 1) + k] by {
            assert(doc[st.caret + (k + 1)] == expected[i + (k + 1)]);
        };
        lemma_unknown_keyword(doc, stn, expected, i + 1, j);
    }
}

/// The number of newline bytes in `doc[a .. b)`.
pub open spec fn newline_count(doc: Seq<u8>, a: int, b: int) -> int
    decreases b - a,
{
    if a >= b {
        0
    } else {
        newline_count(doc, a, b - 1) + if doc[b - 1] == NEWLINE {
            1int
        } else {
            0int
        }
    }
}

/// Counting newlines can also start from the front.
proof fn lemma_newline_count_step(doc: Seq<u8>, a: int, b: int)
    requires
        a < b,
    ensures
        newline_count(doc, a, b) == newline_count(doc, a + 1, b) + if doc[a] == NEWLINE {
            1int
        } else {
            0int
        },
    decreases b - a,
{
    if a + 1 < b {
        lemma_newline_count_step(doc, a, b - 1);
    } else {
        assert(newline_count(doc, a + 1, b) == 0);
        assert(newline_count(doc, a, b) == newline_count(doc, a, a) + if doc[a] == NEWLINE {
            1int
        } else {
            0int
        });
    }
}

/// Whitespace skipping never steps backwards, and stops on a byte inside
/// the document.
pub proof fn lemma_skip_ws_bounds(doc: Seq<u8>, st: PState)
    requires
        0 <= st.caret <= doc.len(),
    ensures
        (match spec_skip_ws(doc, st) {
            StepResult::Done { st: st1 } => st.caret <= st1.caret < doc.len(),
            StepResult::Failed { .. } => true,
        }),
    decreases doc.len() - st.caret,
{
    if st.caret < doc.len() && is_ws(doc[st.caret]) {
        let bump: int = if doc[st.caret] == NEWLINE {
            1int
        } else {
            0int
        };
        lemma_skip_ws_bounds(doc, PState { caret: st.caret + 1, line: st.line + bump });
    }
}

/// Whitespace skipping advances the line counter by exactly the number of
/// newline bytes it consumes; when it runs into the end of the document,
/// the reported line counts every newline byte before the failure point.
pub proof fn lemma_skip_ws_lines(doc: Seq<u8>, st: PState)
    requires
        0 <= st.caret <= doc.len(),
    ensures
        (match spec_skip_ws(doc, st) {
            StepResult::Done { st: st1 } => st1.line == st.line + newline_count(
                doc,
                st.caret,
                st1.caret,
            ),
            StepResult::Failed { line, error } => line == st.line + newline_count(
                doc,
                st.caret,
                doc.len() as int,
            ) && error == ErrorTypeModel::UnexpectedEndOfFile,
        }),
    decreases doc.len() - st.caret,
{
    if st.caret < doc.len() && is_ws(doc[st.caret]) {
        let bump: int = if doc[st.caret] == NEWLINE {
            1int
        } else {
            0int
        };
        let stn = PState { caret: st.caret + 1, line: st.line + bump };
        lemma_skip_ws_lines(doc, stn);
        match spec_skip_ws(doc, stn) {
            StepResult::Done { st: st1 } => {
                lemma_skip_ws_bounds(doc, stn);
                lemma_newline_count_step(doc, st.caret, st1.caret);
            },
            StepResult::Failed { .. } => {
                lemma_newline_count_step(doc, st.caret, doc.len() as int);
            },
        }
    }
}

/// Scanning a string advances the line counter by exactly the newline
/// bytes it consumes, plain or escaped: on success the final line counts
/// the newlines up to the closing quote.
pub proof fn lemma_string_scan_lines(doc: Seq<u8>, start: int, st: PState)
    requires
        0 <= start <= st.caret <= doc.len(),
    ensures
        (match spec_string_scan(doc, start, st) {
            TextResult::Done { text, st: st1 } => st.caret < st1.caret <= doc.len()
                && st1.line == st.line + newline_count(doc, st.caret, st1.caret),
            TextResult::Failed { line, error } => line >= st.line
                && error == ErrorTypeModel::UnexpectedEndOfFile,
        }),
    decreases doc.len() - st.caret,
{
    if st.caret < doc.len() {
        if doc[st.caret] == QUOTE {
            lemma_newline_count_step(doc, st.caret, st.caret + 1);
        } else if doc[st.caret] == BACKSLASH {
            if st.caret + 1 < doc.len() {
                let bump: int = if doc[st.caret + 1] == NEWLINE {
                    1int
                } else {
                    0int
                };
                let stn = PState { caret: st.caret + 2, line: st.line + bump };
                lemma_string_scan_lines(doc, start, stn);
                match spec_string_scan(doc, start, stn) {
                    TextResult::Done { st: st1, .. } => {
                        lemma_newline_count_step(doc, st.caret, st1.caret);
                        lemma_newline_count_step(doc, st.caret + 1, st1.caret);
                    },
                    TextResult::Failed { .. } => {},
                }
            }
        } else {
            let bump: int = if doc[st.caret] == NEWLINE {
                1int
            } else {
                0int
            };
            let stn = PState { caret: st.caret + 1, line: st.line + bump };
            lemma_string_scan_lines(doc, start, stn);
            match spec_string_scan(doc, start, stn) {
                TextResult::Done { st: st1, .. } => {
                    lemma_newline_count_step(doc, st.caret, st1.caret);
                },
                TextResult::Failed { .. } => {},
            }
        }
    }
}

/// A later object entry with an already-present key overwrites the earlier
/// one: the accumulated mapping keeps only the later value.
pub proof fn lemma_duplicate_key_overwrites(
    m: Map<Seq<char>, ValueModel>,
    key: Seq<char>,
    v1: ValueModel,
    v2: ValueModel,
)
    ensures
        m.insert(key, v1).insert(key, v2) == m.insert(key, v2),
{
    assert(m.insert(key, v1).insert(key, v2) =~= m.insert(key, v2));
}

/// Source order and count are kept: the elements already read stay, in
/// order, at the front of the array that element parsing finally returns,
/// and the element whose text begins at `st` becomes exactly the next
/// child, at position `acc.len()`.
pub proof fn lemma_array_items_keep_order(doc: Seq<u8>, st: PState, acc: Seq<ValueModel>)
    requires
        0 <= st.caret <= doc.len(),
    ensures
        (match spec_array_items(doc, st, acc) {
            ValueResult::Done { value, st: stf } => value matches ValueModel::Array { value: items }
                && acc.is_prefix_of(items) && acc.len() < items.len() && (match spec_parse(
                doc,
                st,
            ) {
                ValueResult::Done { value: v, .. } => items[acc.len() as int] == v,
                ValueResult::Failed { .. } => true,
            }),
            ValueResult::Failed { .. } => true,
        }),
    decreases doc.len() - st.caret, 3int,
{
    match spec_parse(doc, st) {
        ValueResult::Failed { .. } => {},
        ValueResult::Done { value, st: st2 } => {
            if st.caret < st2.caret <= doc.len() {
                match spec_skip_ws(doc, st2) {
                    StepResult::Failed { .. } => {},
                    StepResult::Done { st: st3 } => {
                        if st2.caret <= st3.caret < doc.len() {
                            if doc[st3.caret] == RIGHT_BRACKET {
                                assert(acc.is_prefix_of(acc.push(value)));
                            } else if doc[st3.caret] == COMMA {
                                lemma_array_items_keep_order(
                                    doc,
                                    PState { caret: st3.caret + 1, line: st3.line },
                                    acc.push(value),
                                );
                                match spec_array_items(
                                    doc,
                                    PState { caret: st3.caret + 1, line: st3.line },
                                    acc.push(value),
                                ) {
                                    ValueResult::Done { value: v2, st: stf } => {
                                        assert(acc.is_prefix_of(acc.push(value)));
                                        match v2 {
                                            ValueModel::Array { value: items } => {
                                                assert(acc.push(value)[acc.len() as int]
                                                    == value);
                                                assert(items[acc.len() as int] == acc.push(
                                                    value,
                                                ).subrange(0, acc.len() as int + 1)[acc.len() as int]);
                                            },
                                            _ => {},
                                        }
                                    },
                                    ValueResult::Failed { .. } => {},
                                }
                            }
                        }
                    },
                }
            }
        },
    }
}

} // verus!

