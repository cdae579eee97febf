//! The executable parser: a cursor over the document's bytes, the scanner
//! primitives, and one routine per construct of the grammar.
//!
//! Every routine is proved to return exactly what the corresponding
//! specification function of [`crate::grammar`] says, both on success —
//! value and final position — and on failure — error and reported line.

use vstd::prelude::*;
use vstd::slice::slice_subrange;
use vstd::slice::slice_to_vec;
use vstd::string::StrSliceExecFns;
use vstd::utf8::decode_utf8;
use vstd::utf8::encode_utf8;
use vstd::utf8::encode_utf8_valid_utf8;
use vstd::utf8::valid_utf8;

use crate::grammar::ascii_chars;
use crate::grammar::digit_run_end;
use crate::grammar::digits_value;
use crate::grammar::is_digit;
use crate::grammar::keyword_false;
use crate::grammar::lemma_digits_value_nonneg;
use crate::grammar::keyword_null;
use crate::grammar::keyword_true;
use crate::grammar::spec_array;
use crate::grammar::spec_array_items;
use crate::grammar::spec_dict;
use crate::grammar::spec_dict_entry;
use crate::grammar::spec_dict_items;
use crate::grammar::spec_integer_of;
use crate::grammar::spec_parse;
use crate::grammar::spec_parse_document;
use crate::grammar::spec_number;
use crate::grammar::spec_skip_ws;
use crate::grammar::spec_string;
use crate::grammar::spec_string_scan;
use crate::grammar::spec_word;
use crate::grammar::stopped_at_mismatch;
use crate::grammar::TextResult;
use crate::grammar::BACKSLASH;
use crate::grammar::QUOTE;
use crate::grammar::COLON;
use crate::grammar::COMMA;
use crate::grammar::DIGIT_NINE;
use crate::grammar::DIGIT_ZERO;
use crate::grammar::DOT;
use crate::grammar::LOWER_E;
use crate::grammar::LEFT_BRACE;
use crate::grammar::LEFT_BRACKET;
use crate::grammar::LOWER_F;
use crate::grammar::LOWER_N;
use crate::grammar::LOWER_T;
use crate::grammar::MINUS;
use crate::grammar::RIGHT_BRACE;
use crate::grammar::RIGHT_BRACKET;
use crate::grammar::UPPER_E;
use crate::grammar::NEWLINE;
use crate::grammar::SPACE;
use crate::grammar::TAB;
use crate::grammar::PState;
use crate::grammar::StepResult;
use crate::grammar::ValueResult;
use crate::model::Error;
use crate::model::ErrorModel;
use crate::model::ErrorType;
use crate::model::ErrorTypeModel;
use crate::model::keys_distinct;
use crate::model::kvs_to_map;
use crate::model::lemma_all_wf_iff;
use crate::model::lemma_entries_wf_iff;
use crate::model::lemma_entry_models_of;
use crate::model::lemma_entry_models_push;
use crate::model::lemma_kvs_push;
use crate::model::lemma_kvs_update;
use crate::model::lemma_models_of_push;
use crate::model::firsts_distinct;
use crate::model::DictEntry;
use crate::model::Value;

verus! {

/// The parser: a read-only view of the document plus two cursors, a byte
/// offset (`caret`) and a 0-based line counter (`line`).
pub struct Parser {
    pub line: usize,
    pub caret: usize,
    pub document: Vec<u8>,
}

impl Parser {
    /// The bytes of the document.
    pub open spec fn doc(self) -> Seq<u8> {
        self.document@
    }

    /// The current scanner position.
    pub open spec fn st(self) -> PState {
        PState { caret: self.caret as int, line: self.line as int }
    }

    /// The parser's invariant: the caret never passes the end of the
    /// document, the line counter never passes the caret, and the document
    /// is the encoding of a text — in particular it is valid UTF-8 and its
    /// length fits in a machine word.
    pub open spec fn wf(self) -> bool {
        &&& self.caret <= self.document@.len()
        &&& self.document@.len() <= usize::MAX
        &&& self.line <= self.caret
        &&& valid_utf8(self.document@)
    }

    /// A parser over the given document, with both cursors at zero.
    pub fn new(document: &String) -> (p: Parser)
        ensures
            p.wf(),
            p.doc() == encode_utf8(document@),
            p.st() == (PState { caret: 0int, line: 0int }),
    {
        proof {
            encode_utf8_valid_utf8(document@);
        }
        let bytes = document.as_str().as_bytes_vec();
        proof {
            vstd::std_specs::vec::axiom_spec_len(&bytes);
        }
        Parser { line: 0, caret: 0, document: bytes }
    }

    /// The given violation, annotated with the current line.
    pub fn error(&self, error: ErrorType) -> (r: Error)
        ensures
            r@ == (ErrorModel { line: self.line as int, error: error@ }),
    {
        Error { line: self.line, error }
    }

    /// The byte under the caret, without consuming it; the end-of-input
    /// failure when the caret is at the end of the document.
    pub fn peek(&self) -> (r: Result<u8, Error>)
        requires
            self.wf(),
        ensures
            (match r {
                Ok(b) => self.caret < self.doc().len() && b == self.doc()[self.caret as int],
                Err(e) => self.caret == self.doc().len() && e@ == (ErrorModel {
                    line: self.line as int,
                    error: ErrorTypeModel::UnexpectedEndOfFile,
                }),
            }),
    {
        if self.caret >= self.document.len() {
            return Err(self.error(ErrorType::UnexpectedEndOfFile));
        }
        Ok(self.document[self.caret])
    }

    /// The byte under the caret, consuming it; the end-of-input failure when
    /// the caret is at the end of the document.
    pub fn advance(&mut self) -> (r: Result<u8, Error>)
        requires
            old(self).wf(),
        ensures
            final(self).wf(),
            final(self).document == old(self).document,
            (match r {
                Ok(b) => {
                    &&& old(self).caret < old(self).doc().len()
                    &&& b == old(self).doc()[old(self).caret as int]
                    &&& final(self).caret == old(self).caret + 1
                    &&& final(self).line == old(self).line
                },
                Err(e) => {
                    &&& old(self).caret == old(self).doc().len()
                    &&& *final(self) == *old(self)
                    &&& e@ == (ErrorModel {
                        line: old(self).line as int,
                        error: ErrorTypeModel::UnexpectedEndOfFile,
                    })
                },
            }),
    {
        let ch = match self.peek() {
            Ok(b) => b,
            Err(e) => {
                return Err(e);
            },
        };
        self.caret = self.caret + 1;
        Ok(ch)
    }

    /// Consumes the byte under the caret when it equals `expected` and says
    /// whether it did; the end-of-input failure when the caret is at the end
    /// of the document.
    pub fn check(&mut self, expected: u8) -> (r: Result<bool, Error>)
        requires
            old(self).wf(),
        ensures
            final(self).wf(),
            final(self).document == old(self).document,
            (match r {
                Ok(took) => {
                    &&& old(self).caret < old(self).doc().len()
                    &&& took == (old(self).doc()[old(self).caret as int] == expected)
                    &&& final(self).line == old(self).line
                    &&& final(self).caret == if took {
                        old(self).caret + 1
                    } else {
                        old(self).caret as int
                    }
                },
                Err(e) => {
                    &&& old(self).caret == old(self).doc().len()
                    &&& *final(self) == *old(self)
                    &&& e@ == (ErrorModel {
                        line: old(self).line as int,
                        error: ErrorTypeModel::UnexpectedEndOfFile,
                    })
                },
            }),
    {
        let b = match self.peek() {
            Ok(b) => b,
            Err(e) => {
                return Err(e);
            },
        };
        if b != expected {
            return Ok(false);
        }
        self.caret = self.caret + 1;
        Ok(true)
    }

    /// Consumes the maximal run of whitespace under the caret, counting
    /// newlines into the line counter; fails exactly as [`spec_skip_ws`]
    /// says.
    pub fn skip_whitespace(&mut self) -> (r: Result<(), Error>)
        requires
            old(self).wf(),
        ensures
            final(self).wf(),
            final(self).document == old(self).document,
            old(self).line <= final(self).line,
            (match spec_skip_ws(old(self).doc(), old(self).st()) {
                StepResult::Done { st } => r is Ok && final(self).st() == st
                    && old(self).caret <= final(self).caret
                    && final(self).caret < final(self).doc().len(),
                StepResult::Failed { line, error } => r matches Err(e) && e@ == (ErrorModel {
                    line,
                    error,
                }) && old(self).caret <= final(self).caret && final(self).st() == (PState {
                    caret: final(self).doc().len() as int,
                    line,
                }),
            }),
    {
        loop
            invariant
                self.wf(),
                self.document == old(self).document,
                old(self).caret <= self.caret,
                old(self).line <= self.line,
                spec_skip_ws(self.doc(), self.st()) == spec_skip_ws(
                    old(self).doc(),
                    old(self).st(),
                ),
            decreases self.doc().len() - self.caret,
        {
            if self.caret >= self.document.len() {
                return Err(self.error(ErrorType::UnexpectedEndOfFile));
            }
            let b = self.document[self.caret];
            if b == NEWLINE {
                self.caret = self.caret + 1;
                self.line = self.line + 1;
            } else if b == SPACE || b == TAB {
                self.caret = self.caret + 1;
            } else {
                return Ok(());
            }
        }
    }

    /// Consumes exactly the bytes of `characters`; the first byte that
    /// differs is the unknown-keyword failure, which reports the expected
    /// literal, and running out of input is the end-of-input failure.  On
    /// failure the caret rests either at the end of the document — the
    /// input ran out with every remaining byte consumed — or just past the
    /// first mismatching byte.
    pub fn word(&mut self, characters: &[u8]) -> (r: Result<(), Error>)
        requires
            old(self).wf(),
            valid_utf8(characters@),
        ensures
            final(self).wf(),
            final(self).document == old(self).document,
            r is Ok ==> final(self).caret == old(self).caret + characters@.len(),
            final(self).line == old(self).line,
            old(self).caret <= final(self).caret,
            r is Err ==> final(self).caret == final(self).doc().len() || stopped_at_mismatch(
                old(self).doc(),
                old(self).caret as int,
                final(self).caret as int,
                characters@,
            ),
            (match spec_word(old(self).doc(), old(self).st(), characters@, 0) {
                StepResult::Done { st } => r is Ok && final(self).st() == st,
                StepResult::Failed { line, error } => r matches Err(e) && e@ == (ErrorModel {
                    line,
                    error,
                }),
            }),
    {
        let mut i: usize = 0;
        while i < characters.len()
            invariant
                self.wf(),
                self.document == old(self).document,
                i <= characters@.len(),
                self.caret == old(self).caret + i,
                self.line == old(self).line,
                forall|j: int| 0 <= j < i ==> #[trigger] old(self).doc()[old(self).caret + j]
                    == characters@[j],
                valid_utf8(characters@),
                spec_word(old(self).doc(), old(self).st(), characters@, 0) == spec_word(
                    self.doc(),
                    self.st(),
                    characters@,
                    i as int,
                ),
            decreases characters@.len() - i,
        {
            let expected = characters[i];
            match self.advance() {
                Ok(b) => {
                    if b != expected {
                        let kw = string_from_utf8(slice_to_vec(characters));
                        return Err(self.error(ErrorType::UnknownKeyword { keyword: kw }));
                    }
                },
                Err(e) => {
                    return Err(e);
                },
            }
            i = i + 1;
        }
        Ok(())
    }

    /// A quoted string under the caret: consumes the opening quote, scans to
    /// the matching unescaped closing quote, and returns the text between
    /// them; each newline byte inside the string advances the line counter;
/// the end-of-input failure when the document ends first.  The
    /// caret must stand on a quote (or at the end): starting inside the
    /// encoding of a multi-byte character could cut it apart, and the bytes
    /// between the quotes would not be text.
    pub fn string(&mut self) -> (r: Result<String, Error>)
        requires
            old(self).wf(),
            old(self).caret < old(self).doc().len() ==> old(self).doc()[old(self).caret
                as int] == QUOTE,
        ensures
            final(self).wf(),
            final(self).document == old(self).document,
            r is Ok ==> old(self).caret < final(self).caret,
            old(self).caret <= final(self).caret,
            old(self).line <= final(self).line,
            (match spec_string(old(self).doc(), old(self).st()) {
                TextResult::Done { text, st } => r matches Ok(s) && s@ == text
                    && final(self).st() == st,
                TextResult::Failed { line, error } => r matches Err(e) && e@ == (ErrorModel {
                    line,
                    error,
                }) && final(self).st() == (PState {
                    caret: final(self).doc().len() as int,
                    line,
                }),
            }),
    {
        match self.advance() {
            Ok(_) => (),
            Err(e) => {
                return Err(e);
            },
        }
        let start = self.caret;
        loop
            invariant
                self.wf(),
                self.document == old(self).document,
                old(self).caret < old(self).doc().len(),
                self.doc()[old(self).caret as int] == QUOTE,
                start == old(self).caret + 1,
                start <= self.caret <= self.doc().len(),
                old(self).line <= self.line,
                spec_string(old(self).doc(), old(self).st()) == spec_string_scan(
                    self.doc(),
                    start as int,
                    self.st(),
                ),
            decreases self.doc().len() - self.caret,
        {
            if self.caret >= self.document.len() {
                return Err(self.error(ErrorType::UnexpectedEndOfFile));
            }
            let b = self.document[self.caret];
            if b == QUOTE {
                let end = self.caret;
                self.caret = self.caret + 1;
                proof {
                    lemma_quoted_slice_valid(self.doc(), old(self).caret as int, end as int);
                }
                let content = slice_to_vec(slice_subrange(self.document.as_slice(), start, end));
                let text = string_from_utf8(content);
                return Ok(text);
            } else if b == BACKSLASH {
                self.caret = self.caret + 1;
                if self.caret < self.document.len() {
                    if self.document[self.caret] == NEWLINE {
                        self.line = self.line + 1;
                    }
                    self.caret = self.caret + 1;
                }
            } else {
                if b == NEWLINE {
                    self.line = self.line + 1;
                }
                self.caret = self.caret + 1;
            }
        }
    }

    /// Advances the caret to the end of the maximal digit run under it.
    fn digit_run(&mut self)
        requires
            old(self).wf(),
        ensures
            final(self).wf(),
            final(self).document == old(self).document,
            final(self).line == old(self).line,
            old(self).caret <= final(self).caret,
            final(self).caret == digit_run_end(old(self).doc(), old(self).caret as int),
    {
        loop
            invariant
                self.wf(),
                self.document == old(self).document,
                self.line == old(self).line,
                old(self).caret <= self.caret,
                digit_run_end(old(self).doc(), old(self).caret as int) == digit_run_end(
                    self.doc(),
                    self.caret as int,
                ),
            decreases self.doc().len() - self.caret,
        {
            if self.caret >= self.document.len() {
                return ;
            }
            let b = self.document[self.caret];
            if b >= DIGIT_ZERO && b <= DIGIT_NINE {
                self.caret = self.caret + 1;
            } else {
                return ;
            }
        }
    }

    /// The ASCII bytes `doc[start .. end)` as an owned string.
    fn ascii_text(&self, start: usize, end: usize) -> (r: String)
        requires
            self.wf(),
            start <= end <= self.doc().len(),
            forall|k: int| start <= k < end ==> self.doc()[k] < 128,
        ensures
            r@ == ascii_chars(self.doc().subrange(start as int, end as int)),
    {
        let bytes = slice_to_vec(slice_subrange(self.document.as_slice(), start, end));
        proof {
            lemma_ascii_valid(bytes@);
        }
        string_from_utf8(bytes)
    }

    /// A numeric literal under the caret: an optional minus, then either a
    /// single `0` or a digit run; without a dot the digits form an
    /// `Integer`, with a dot — and an optional exponent — the whole
    /// consumed slice is kept as the text of a `Float`.
    pub fn number(&mut self) -> (r: Result<Value, Error>)
        requires
            old(self).wf(),
        ensures
            final(self).wf(),
            final(self).document == old(self).document,
            r is Ok ==> old(self).caret < final(self).caret,
            old(self).caret <= final(self).caret,
            final(self).line == old(self).line,
            (match spec_number(old(self).doc(), old(self).st()) {
                ValueResult::Done { value, st } => r matches Ok(v) && v@ == value && v.wf()
                    && final(self).st() == st,
                ValueResult::Failed { line, error } => r matches Err(e) && e@ == (ErrorModel {
                    line,
                    error,
                }),
            }),
    {
        let start = self.caret;
        if self.caret >= self.document.len() {
            return Err(self.error(ErrorType::UnexpectedEndOfFile));
        }
        let neg = self.document[self.caret] == MINUS;
        if neg {
            self.caret = self.caret + 1;
        }
        let c0 = self.caret;
        if c0 >= self.document.len() {
            return Err(self.error(ErrorType::UnexpectedEndOfFile));
        }
        if self.document[c0] == DIGIT_ZERO {
            self.caret = c0 + 1;
        } else {
            self.digit_run();
        }
        let int_end = self.caret;
        proof {
            lemma_digit_run(self.doc(), c0 as int);
        }
        if int_end >= self.document.len() || self.document[int_end] != DOT {
            if int_end == c0 {
                return Err(self.error(ErrorType::InvalidInteger));
            }
            match parse_int_digits(&self.document, c0, int_end, neg) {
                Some(x) => {
                    return Ok(Value::Integer { value: x });
                },
                None => {
                    return Err(self.error(ErrorType::InvalidInteger));
                },
            }
        }
        self.caret = int_end + 1;
        self.digit_run();
        let frac_end = self.caret;
        proof {
            lemma_digit_run(self.doc(), int_end + 1);
        }
        let sig_ok = int_end > c0 || frac_end > int_end + 1;
        if frac_end < self.document.len() && (self.document[frac_end] == LOWER_E
            || self.document[frac_end] == UPPER_E) {
            self.caret = frac_end + 1;
            self.digit_run();
            let exp_end = self.caret;
            proof {
                lemma_digit_run(self.doc(), frac_end + 1);
            }
            if !sig_ok || exp_end == frac_end + 1 {
                return Err(self.error(ErrorType::InvalidFloat));
            }
            let text = self.ascii_text(start, exp_end);
            return Ok(Value::Float { value: text });
        }
        if !sig_ok {
            return Err(self.error(ErrorType::InvalidFloat));
        }
        let text = self.ascii_text(start, frac_end);
        Ok(Value::Float { value: text })
    }

    /// One value under the caret: skips leading whitespace, then dispatches
    /// on the next byte — `{` an object, `[` an array, `"` a string, `t`,
    /// `f` and `n` the fixed keywords, anything else a numeric literal.
    pub fn parse(&mut self) -> (r: Result<Value, Error>)
        requires
            old(self).wf(),
        ensures
            final(self).wf(),
            final(self).document == old(self).document,
            r is Ok ==> old(self).caret < final(self).caret,
            old(self).caret <= final(self).caret,
            old(self).line <= final(self).line,
            (match spec_parse(old(self).doc(), old(self).st()) {
                ValueResult::Done { value, st } => r matches Ok(v) && v@ == value && v.wf()
                    && final(self).st() == st,
                ValueResult::Failed { line, error } => r matches Err(e) && e@ == (ErrorModel {
                    line,
                    error,
                }),
            }),
        decreases self.doc().len() - self.caret, 1int,
    {
        match self.skip_whitespace() {
            Ok(u) => u,
            Err(e) => {
                return Err(e);
            },
        };
        let b = self.document[self.caret];
        if b == LEFT_BRACE {
            self.dict()
        } else if b == LEFT_BRACKET {
            self.array()
        } else if b == QUOTE {
            match self.string() {
                Ok(text) => Ok(Value::String { value: text }),
                Err(e) => Err(e),
            }
        } else if b == LOWER_T {
            let kw = keyword_true_bytes();
            match self.word(kw.as_slice()) {
                Ok(u) => Ok(Value::Boolean { value: true }),
                Err(e) => Err(e),
            }
        } else if b == LOWER_F {
            let kw = keyword_false_bytes();
            match self.word(kw.as_slice()) {
                Ok(u) => Ok(Value::Boolean { value: false }),
                Err(e) => Err(e),
            }
        } else if b == LOWER_N {
            let kw = keyword_null_bytes();
            match self.word(kw.as_slice()) {
                Ok(u) => Ok(Value::Null),
                Err(e) => Err(e),
            }
        } else {
            self.number()
        }
    }

    /// An array under the caret: consumes the opening bracket, then either
    /// the matching close — the empty array — or elements separated by
    /// commas.  A comma must be followed by another element.
    pub fn array(&mut self) -> (r: Result<Value, Error>)
        requires
            old(self).wf(),
            old(self).caret < old(self).doc().len(),
        ensures
            final(self).wf(),
            final(self).document == old(self).document,
            r is Ok ==> old(self).caret < final(self).caret,
            old(self).caret <= final(self).caret,
            old(self).line <= final(self).line,
            (match spec_array(old(self).doc(), old(self).st()) {
                ValueResult::Done { value, st } => r matches Ok(v) && v@ == value && v.wf()
                    && final(self).st() == st,
                ValueResult::Failed { line, error } => r matches Err(e) && e@ == (ErrorModel {
                    line,
                    error,
                }),
            }),
        decreases self.doc().len() - self.caret, 0int,
    {
        self.caret = self.caret + 1;
        let mut items: Vec<Value> = Vec::new();
        match self.skip_whitespace() {
            Ok(u) => u,
            Err(e) => {
                return Err(e);
            },
        };
        if self.document[self.caret] == RIGHT_BRACKET {
            self.caret = self.caret + 1;
            return Ok(Value::Array { value: items });
        }
        loop
            invariant
                self.wf(),
                self.document == old(self).document,
                old(self).caret < self.caret <= self.doc().len(),
                old(self).line <= self.line,
                forall|j: int| 0 <= j < items@.len() ==> (#[trigger] items@[j]).wf(),
                spec_array(old(self).doc(), old(self).st()) == spec_array_items(
                    self.doc(),
                    self.st(),
                    Value::models_of(items@),
                ),
            decreases self.doc().len() - self.caret,
        {
            let v = match self.parse() {
                Ok(v) => v,
                Err(e) => {
                    return Err(e);
                },
            };
            proof {
                lemma_models_of_push(items@, v);
            }
            items.push(v);
            match self.skip_whitespace() {
                Ok(u) => u,
                Err(e) => {
                    return Err(e);
                },
            };
            let b = self.document[self.caret];
            if b == RIGHT_BRACKET {
                self.caret = self.caret + 1;
                proof {
                    lemma_all_wf_iff(items@);
                }
                return Ok(Value::Array { value: items });
            }
            if b != COMMA {
                return Err(self.error(ErrorType::ExpectedArrayCloseOrComma));
            }
            self.caret = self.caret + 1;
        }
    }

    /// An object under the caret: consumes the opening brace, then either
    /// the matching close — the empty object — or quoted keys, each with a
    /// colon and a value, separated by commas.  A later entry with an
    /// already-present key overwrites it.
    pub fn dict(&mut self) -> (r: Result<Value, Error>)
        requires
            old(self).wf(),
            old(self).caret < old(self).doc().len(),
        ensures
            final(self).wf(),
            final(self).document == old(self).document,
            r is Ok ==> old(self).caret < final(self).caret,
            old(self).caret <= final(self).caret,
            old(self).line <= final(self).line,
            (match spec_dict(old(self).doc(), old(self).st()) {
                ValueResult::Done { value, st } => r matches Ok(v) && v@ == value && v.wf()
                    && final(self).st() == st,
                ValueResult::Failed { line, error } => r matches Err(e) && e@ == (ErrorModel {
                    line,
                    error,
                }),
            }),
        decreases self.doc().len() - self.caret, 0int,
    {
        self.caret = self.caret + 1;
        let mut entries: Vec<DictEntry> = Vec::new();
        match self.skip_whitespace() {
            Ok(u) => u,
            Err(e) => {
                return Err(e);
            },
        };
        if self.document[self.caret] == RIGHT_BRACE {
            self.caret = self.caret + 1;
            return Ok(Value::Dict { value: entries });
        }
        loop
            invariant
                self.wf(),
                self.document == old(self).document,
                old(self).caret < self.caret <= self.doc().len(),
                old(self).line <= self.line,
                keys_distinct(entries@),
                forall|j: int| 0 <= j < entries@.len() ==> (#[trigger] entries@[j]).value.wf(),
                spec_dict(old(self).doc(), old(self).st()) == spec_dict_items(
                    self.doc(),
                    self.st(),
                    kvs_to_map(Value::entry_models_of(entries@)),
                ),
            decreases self.doc().len() - self.caret,
        {
            match self.skip_whitespace() {
                Ok(u) => u,
                Err(e) => {
                    return Err(e);
                },
            };
            if self.document[self.caret] != QUOTE {
                return Err(self.error(ErrorType::ExpectedDictKey));
            }
            let key = match self.string() {
                Ok(k) => k,
                Err(e) => {
                    return Err(e);
                },
            };
            match self.skip_whitespace() {
                Ok(u) => u,
                Err(e) => {
                    return Err(e);
                },
            };
            if self.document[self.caret] != COLON {
                return Err(self.error(ErrorType::ExpectedDictColonAfterKey { key }));
            }
            self.caret = self.caret + 1;
            let v = match self.parse() {
                Ok(v) => v,
                Err(e) => {
                    return Err(e);
                },
            };
            dict_insert(&mut entries, key, v);
            match self.skip_whitespace() {
                Ok(u) => u,
                Err(e) => {
                    return Err(e);
                },
            };
            let b = self.document[self.caret];
            if b == RIGHT_BRACE {
                self.caret = self.caret + 1;
                proof {
                    lemma_entries_wf_iff(entries@);
                }
                return Ok(Value::Dict { value: entries });
            }
            if b != COMMA {
                return Err(self.error(ErrorType::ExpectedDictCloseOrComma));
            }
            self.caret = self.caret + 1;
        }
    }
}

/// Parses a whole document: the single entry point of the library.
pub fn parse_string<'a>(document: &'a String) -> (r: Result<Value, Error>)
    ensures
        (match spec_parse_document(document@) {
            ValueResult::Done { value, st } => r matches Ok(v) && v@ == value && v.wf(),
            ValueResult::Failed { line, error } => r matches Err(e) && e@ == (ErrorModel {
                line,
                error,
            }),
        }),
{
    let mut parser = Parser::new(document);
    parser.parse()
}

/// Inserts `key → value` into a dictionary node's entries: the entry that
/// carries the same key, if any, is overwritten in place, otherwise the new
/// entry is appended at the end.
fn dict_insert(entries: &mut Vec<DictEntry>, key: String, value: Value)
    requires
        keys_distinct(old(entries)@),
        forall|j: int| 0 <= j < old(entries)@.len() ==> (#[trigger] old(entries)@[j]).value.wf(),
        value.wf(),
    ensures
        keys_distinct(final(entries)@),
        forall|j: int| 0 <= j < final(entries)@.len()
            ==> (#[trigger] final(entries)@[j]).value.wf(),
        kvs_to_map(Value::entry_models_of(final(entries)@)) == kvs_to_map(
            Value::entry_models_of(old(entries)@),
        ).insert(key@, value.model()),
{
    let ghost gkey = key@;
    let ghost gval = value.model();
    let ghost oldseq = entries@;
    match find_key(entries, &key) {
        Some(i) => {
            let e = DictEntry { key: key, value: value };
            let ghost ge = e;
            let _replaced = entries.remove(i);
            entries.insert(i, e);
            proof {
                oldseq.remove_ensures(i as int);
                oldseq.remove(i as int).insert_ensures(i as int, ge);
                assert(entries@ =~= oldseq.update(i as int, ge));
                let ms = Value::entry_models_of(oldseq);
                lemma_entry_models_of(oldseq);
                lemma_entry_models_of(entries@);
                assert(Value::entry_models_of(entries@) =~= ms.update(i as int, (gkey, gval)));
                assert(firsts_distinct(ms));
                assert(ms[i as int].0 == gkey);
                lemma_kvs_update(ms, i as int, (gkey, gval));
            }
        },
        None => {
            let e = DictEntry { key: key, value: value };
            let ghost ge = e;
            entries.push(e);
            proof {
                assert(entries@ == oldseq.push(ge));
                let ms = Value::entry_models_of(oldseq);
                lemma_entry_models_of(oldseq);
                lemma_entry_models_push(oldseq, ge);
                assert(Value::entry_models_of(entries@) == ms.push((gkey, gval)));
                lemma_kvs_push(ms, (gkey, gval));
            }
        },
    }
}

/// The position of the entry that carries `key`, if any.
fn find_key(entries: &Vec<DictEntry>, key: &String) -> (r: Option<usize>)
    ensures
        (match r {
            Some(i) => i < entries@.len() && entries@[i as int].key@ == key@,
            None => forall|j: int| 0 <= j < entries@.len() ==> (#[trigger] entries@[j]).key@
                != key@,
        }),
{
    let n = entries.len();
    let mut i: usize = 0;
    while i < n
        invariant
            n == entries@.len(),
            i <= n,
            forall|j: int| 0 <= j < i ==> (#[trigger] entries@[j]).key@ != key@,
        decreases n - i,
    {
        if entries[i].key == *key {
            return Some(i);
        }
        i = i + 1;
    }
    None
}

/// The bytes of the keyword `true`, for the scanner.
fn keyword_true_bytes() -> (r: Vec<u8>)
    ensures
        r@ == keyword_true(),
        valid_utf8(r@),
{
    let mut v: Vec<u8> = Vec::new();
    v.push(116);
    v.push(114);
    v.push(117);
    v.push(101);
    proof {
        assert(v@ =~= keyword_true());
        lemma_ascii_valid(v@);
    }
    v
}

/// The bytes of the keyword `false`, for the scanner.
fn keyword_false_bytes() -> (r: Vec<u8>)
    ensures
        r@ == keyword_false(),
        valid_utf8(r@),
{
    let mut v: Vec<u8> = Vec::new();
    v.push(102);
    v.push(97);
    v.push(108);
    v.push(115);
    v.push(101);
    proof {
        assert(v@ =~= keyword_false());
        lemma_ascii_valid(v@);
    }
    v
}

/// The bytes of the keyword `null`, for the scanner.
fn keyword_null_bytes() -> (r: Vec<u8>)
    ensures
        r@ == keyword_null(),
        valid_utf8(r@),
{
    let mut v: Vec<u8> = Vec::new();
    v.push(110);
    v.push(117);
    v.push(108);
    v.push(108);
    proof {
        assert(v@ =~= keyword_null());
        lemma_ascii_valid(v@);
    }
    v
}

/// Relies on `String::from_utf8`: on bytes that are a valid UTF-8 encoding
/// it returns the text those bytes encode.
#[verifier::external_body]
fn string_from_utf8(bytes: Vec<u8>) -> (r: String)
    requires
        valid_utf8(bytes@),
    ensures
        r@ == decode_utf8(bytes@),
{
    match String::from_utf8(bytes) {
        Ok(s) => s,
        Err(_) => String::new(),
    }
}

/// The run of digits that starts at `c` ends at `digit_run_end`: everything
/// before it is a digit, and the byte at it — if any — is not.
proof fn lemma_digit_run(doc: Seq<u8>, c: int)
    requires
        0 <= c <= doc.len(),
    ensures
        c <= digit_run_end(doc, c) <= doc.len(),
        forall|k: int| c <= k < digit_run_end(doc, c) ==> is_digit(doc[k]),
        digit_run_end(doc, c) < doc.len() ==> !is_digit(doc[digit_run_end(doc, c)]),
    decreases doc.len() - c,
{
    if c < doc.len() && is_digit(doc[c]) {
        lemma_digit_run(doc, c + 1);
    }
}

/// The value of a prefix of a digit sequence is no larger than the value of
/// the whole sequence.
proof fn lemma_digits_value_prefix(s: Seq<u8>, m: int)
    requires
        0 <= m <= s.len(),
        forall|k: int| 0 <= k < s.len() ==> is_digit(s[k]),
    ensures
        digits_value(s.subrange(0, m)) <= digits_value(s),
    decreases s.len() - m,
{
    if m == s.len() {
        assert(s.subrange(0, m) =~= s);
    } else {
        lemma_digits_value_prefix(s, m + 1);
        let q = s.subrange(0, m + 1);
        assert(q.subrange(0, q.len() - 1) =~= s.subrange(0, m));
        assert(digits_value(q) == digits_value(s.subrange(0, m)) * 10 + (q[m] - DIGIT_ZERO));
        let a = digits_value(s.subrange(0, m));
        lemma_digits_value_nonneg(s.subrange(0, m));
        assert(a * 10 >= a) by (nonlinear_arith)
            requires
                a >= 0,
        ;
    }
}

/// The bytes strictly between two quote bytes of a valid UTF-8 document are
/// themselves valid UTF-8: an ASCII quote can never stand inside the
/// encoding of another character, so both ends of the slice fall on
/// character boundaries.
proof fn lemma_quoted_slice_valid(doc: Seq<u8>, q1: int, q2: int)
    requires
        valid_utf8(doc),
        0 <= q1 < q2 < doc.len(),
        doc[q1] == QUOTE,
        doc[q2] == QUOTE,
    ensures
        valid_utf8(doc.subrange(q1 + 1, q2)),
{
    vstd::utf8::is_char_boundary_iff_not_is_continuation_byte(doc, q1);
    vstd::utf8::valid_utf8_split(doc, q1);
    let tail = doc.subrange(q1, doc.len() as int);
    assert(tail.len() > 0);
    assert(tail[0] == QUOTE);
    assert(vstd::utf8::length_of_first_scalar(tail) == 1);
    let rest = doc.subrange(q1 + 1, doc.len() as int);
    assert(vstd::utf8::pop_first_scalar(tail) =~= rest);
    assert(valid_utf8(rest));
    assert(rest[q2 - q1 - 1] == QUOTE);
    vstd::utf8::is_char_boundary_iff_not_is_continuation_byte(rest, q2 - q1 - 1);
    vstd::utf8::valid_utf8_split(rest, q2 - q1 - 1);
    assert(rest.subrange(0, q2 - q1 - 1) =~= doc.subrange(q1 + 1, q2));
}

/// The digit bytes `doc[start .. end)`, read as a decimal number with the
/// given sign, as a 64-bit signed integer; `None` when the value does not
/// fit.
fn parse_int_digits(doc: &Vec<u8>, start: usize, end: usize, neg: bool) -> (r: Option<i64>)
    requires
        start < end <= doc@.len(),
        forall|k: int| start <= k < end ==> is_digit(doc@[k]),
    ensures
        ({
            let digs = doc@.subrange(start as int, end as int);
            let v = if neg {
                -digits_value(digs)
            } else {
                digits_value(digs)
            };
            match r {
                Some(x) => x as int == v,
                None => !(i64::MIN <= v <= i64::MAX),
            }
        }),
{
    let ghost digs = doc@.subrange(start as int, end as int);
    let bound: u64 = if neg {
        9223372036854775808
    } else {
        9223372036854775807
    };
    let mut acc: u64 = 0;
    let mut i: usize = start;
    while i < end
        invariant
            start <= i <= end <= doc@.len(),
            forall|k: int| start <= k < end ==> is_digit(doc@[k]),
            digs == doc@.subrange(start as int, end as int),
            bound == if neg { 9223372036854775808u64 } else { 9223372036854775807u64 },
            acc as int == digits_value(digs.subrange(0, i - start)),
            acc <= bound,
        decreases end - i,
    {
        let d = doc[i] - 48;
        if acc > (bound - (d as u64)) / 10 {
            proof {
                assert(acc * 10 + d > bound) by (nonlinear_arith)
                    requires
                        acc > (bound - (d as u64)) / 10,
                        d <= 9,
                        bound >= 9,
                ;
                let p = digs.subrange(0, i - start + 1);
                assert(p.subrange(0, p.len() - 1) =~= digs.subrange(0, i - start));
                assert(p[p.len() - 1] == doc@[i as int]);
                assert(digits_value(p) == acc * 10 + d);
                assert(forall|k: int| 0 <= k < digs.len() ==> is_digit(digs[k]));
                lemma_digits_value_prefix(digs, i - start + 1);
                assert(digits_value(digs) >= digits_value(p));
            }
            return None;
        }
        proof {
            assert(acc * 10 + d <= bound) by (nonlinear_arith)
                requires
                    acc <= (bound - (d as u64)) / 10,
                    d <= 9,
                    bound >= 9,
            ;
            let p = digs.subrange(0, i - start + 1);
            assert(p.subrange(0, p.len() - 1) =~= digs.subrange(0, i - start));
            assert(p[p.len() - 1] == doc@[i as int]);
        }
        acc = acc * 10 + (d as u64);
        i = i + 1;
    }
    proof {
        assert(digs.subrange(0, digs.len() as int) =~= digs);
        assert(digs.subrange(0, i - start) =~= digs);
    }
    if neg {
        if acc == 9223372036854775808 {
            Some(i64::MIN)
        } else {
            Some(-(acc as i64))
        }
    } else {
        Some(acc as i64)
    }
}

/// A sequence of bytes below 128 is valid UTF-8, and decodes to exactly
/// those bytes read as characters.
proof fn lemma_ascii_valid(s: Seq<u8>)
    requires
        forall|k: int| 0 <= k < s.len() ==> s[k] < 128,
    ensures
        valid_utf8(s),
        decode_utf8(s) == ascii_chars(s),
{
    let cs = ascii_chars(s);
    assert(vstd::utf8::is_ascii_chars(cs)) by {
        assert forall|i: int| 0 <= i < cs.len() implies '\0' <= #[trigger] cs[i] <= '\u{7f}' by {
            assert(s[i] < 128);
            assert(cs[i] == s[i] as char);
        };
    };
    vstd::utf8::is_ascii_chars_encode_utf8(cs);
    assert(encode_utf8(cs) =~= s) by {
        assert forall|i: int| 0 <= i < s.len() implies encode_utf8(cs)[i] == s[i] by {
            assert(encode_utf8(cs)[i] == cs[i] as u8);
            assert(cs[i] == s[i] as char);
        };
    };
    vstd::utf8::encode_utf8_valid_utf8(cs);
    vstd::utf8::encode_utf8_decode_utf8(cs);
}

} // verus!
