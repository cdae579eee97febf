//! The value tree a parse produces, the errors it reports, and the
//! mathematical models of both.
//!
//! A [`Value`] is one parsed node.  Its model, [`ValueModel`], replaces every
//! executable container by its mathematical counterpart: a `Vec` of children
//! by a `Seq`, the key/value entries of a dictionary by a `Map`, and each
//! `String` by its sequence of characters.  A floating-point literal is kept
//! as the exact text that was consumed, so the tree itself stays free of
//! machine floating point; callers interpret that text numerically.

use vstd::prelude::*;

verus! {

broadcast use
    vstd::std_specs::vec::axiom_vec_index_decreases,
    vstd::std_specs::vec::axiom_vec_decreases_to_view,
    vstd::seq::axiom_seq_index_decreases;

/// One parsed node of the document.
///
/// A dictionary holds its entries as key/value pairs with pairwise distinct
/// keys; a later duplicate key in the input silently overwrites the earlier
/// entry.  A `Float` holds the numeric literal exactly as it stood in the
/// document.
#[derive(Debug, PartialEq)]
pub enum Value {
    Array { value: Vec<Value> },
    Boolean { value: bool },
    Dict { value: Vec<DictEntry> },
    Float { value: String },
    Integer { value: i64 },
    Null,
    String { value: String },
}

/// The mathematical model of a [`Value`].
pub enum ValueModel {
    Array { value: Seq<ValueModel> },
    Boolean { value: bool },
    Dict { value: Map<Seq<char>, ValueModel> },
    Float { value: Seq<char> },
    Integer { value: i64 },
    Null,
    String { value: Seq<char> },
}

/// The mapping described by a sequence of key/value pairs, where a later
/// pair with the same key overwrites an earlier one.
pub open spec fn kvs_to_map(s: Seq<(Seq<char>, ValueModel)>) -> Map<Seq<char>, ValueModel>
    decreases s.len(),
{
    if s.len() == 0 {
        Map::empty()
    } else {
        kvs_to_map(s.drop_last()).insert(s.last().0, s.last().1)
    }
}

/// One key/value entry of a dictionary node.
#[derive(Debug, PartialEq)]
pub struct DictEntry {
    pub key: String,
    pub value: Value,
}

/// True when no two entries of a dictionary carry the same key.
pub open spec fn keys_distinct(s: Seq<DictEntry>) -> bool {
    forall|i: int, j: int| 0 <= i < j < s.len() ==> s[i].key@ != s[j].key@
}

impl Value {
    /// The model of this node and of its whole subtree.
    pub open spec fn model(self) -> ValueModel
        decreases self, 1int,
    {
        if self is Array {
            ValueModel::Array { value: Value::models_of(self->Array_value@) }
        } else if self is Dict {
            ValueModel::Dict { value: kvs_to_map(Value::entry_models_of(self->Dict_value@)) }
        } else {
            match self {
                Value::Boolean { value } => ValueModel::Boolean { value },
                Value::Float { value } => ValueModel::Float { value: value@ },
                Value::Integer { value } => ValueModel::Integer { value },
                Value::String { value } => ValueModel::String { value: value@ },
                _ => ValueModel::Null,
            }
        }
    }

    /// The models of a sequence of nodes, in order.
    pub open spec fn models_of(s: Seq<Value>) -> Seq<ValueModel>
        decreases s, 0int,
    {
        if s.len() == 0 {
            Seq::empty()
        } else {
            Value::models_of(s.subrange(0, s.len() - 1)).push(s[s.len() - 1].model())
        }
    }

    /// The modelled key/value pairs of a sequence of dictionary entries, in
    /// order.
    pub open spec fn entry_models_of(s: Seq<DictEntry>) -> Seq<(Seq<char>, ValueModel)>
        decreases s, 0int,
    {
        if s.len() == 0 {
            Seq::empty()
        } else {
            Value::entry_models_of(s.subrange(0, s.len() - 1)).push(
                (s[s.len() - 1].key@, s[s.len() - 1].value.model()),
            )
        }
    }

    /// Well-formedness of the tree: every dictionary node keeps its keys
    /// pairwise distinct, down to the leaves.
    pub open spec fn wf(self) -> bool
        decreases self, 1int,
    {
        if self is Array {
            Value::all_wf(self->Array_value@)
        } else if self is Dict {
            keys_distinct(self->Dict_value@) && Value::entries_wf(self->Dict_value@)
        } else {
            true
        }
    }

    /// Well-formedness of every node in a sequence.
    pub open spec fn all_wf(s: Seq<Value>) -> bool
        decreases s, 0int,
    {
        s.len() == 0 || (Value::all_wf(s.subrange(0, s.len() - 1)) && s[s.len() - 1].wf())
    }

    /// Well-formedness of every value in a sequence of dictionary entries.
    pub open spec fn entries_wf(s: Seq<DictEntry>) -> bool
        decreases s, 0int,
    {
        s.len() == 0 || (Value::entries_wf(s.subrange(0, s.len() - 1)) && s[s.len()
            - 1].value.wf())
    }
}

impl View for Value {
    type V = ValueModel;

    open spec fn view(&self) -> ValueModel {
        self.model()
    }
}

/// True when no two pairs of a modelled entry sequence carry the same key.
pub open spec fn firsts_distinct(s: Seq<(Seq<char>, ValueModel)>) -> bool {
    forall|i: int, j: int| 0 <= i < j < s.len() ==> s[i].0 != s[j].0
}

/// Appending a node appends its model.
pub proof fn lemma_models_of_push(s: Seq<Value>, v: Value)
    ensures
        Value::models_of(s.push(v)) == Value::models_of(s).push(v.model()),
{
    let t = s.push(v);
    assert(t.subrange(0, t.len() - 1) =~= s);
    assert(t[t.len() - 1] == v);
}

/// A sequence of nodes is well-formed exactly when each node is.
pub proof fn lemma_all_wf_iff(s: Seq<Value>)
    ensures
        Value::all_wf(s) <==> (forall|j: int| 0 <= j < s.len() ==> (#[trigger] s[j]).wf()),
    decreases s.len(),
{
    if s.len() > 0 {
        let t = s.subrange(0, s.len() - 1);
        lemma_all_wf_iff(t);
        assert(forall|j: int| 0 <= j < t.len() ==> t[j] == s[j]);
    }
}

/// A sequence of entries is well-formed exactly when each entry's value is.
pub proof fn lemma_entries_wf_iff(s: Seq<DictEntry>)
    ensures
        Value::entries_wf(s) <==> (forall|j: int|
            0 <= j < s.len() ==> (#[trigger] s[j]).value.wf()),
    decreases s.len(),
{
    if s.len() > 0 {
        let t = s.subrange(0, s.len() - 1);
        lemma_entries_wf_iff(t);
        assert(forall|j: int| 0 <= j < t.len() ==> t[j] == s[j]);
    }
}

/// The modelled entries, pair by pair.
pub proof fn lemma_entry_models_of(s: Seq<DictEntry>)
    ensures
        Value::entry_models_of(s).len() == s.len(),
        forall|j: int| 0 <= j < s.len() ==> Value::entry_models_of(s)[j] == (
            s[j].key@,
            s[j].value.model(),
        ),
    decreases s.len(),
{
    if s.len() > 0 {
        lemma_entry_models_of(s.subrange(0, s.len() - 1));
    }
}

/// Appending an entry appends its modelled pair.
pub proof fn lemma_entry_models_push(s: Seq<DictEntry>, e: DictEntry)
    ensures
        Value::entry_models_of(s.push(e)) == Value::entry_models_of(s).push(
            (e.key@, e.value.model()),
        ),
{
    let t = s.push(e);
    assert(t.subrange(0, t.len() - 1) =~= s);
    assert(t[t.len() - 1] == e);
}

/// Appending a pair inserts it into the described mapping.
pub proof fn lemma_kvs_push(ms: Seq<(Seq<char>, ValueModel)>, p: (Seq<char>, ValueModel))
    ensures
        kvs_to_map(ms.push(p)) == kvs_to_map(ms).insert(p.0, p.1),
{
    let t = ms.push(p);
    assert(t.drop_last() =~= ms);
    assert(t.last() == p);
}

/// Overwriting the pair that carries a key, in place, inserts the new pair
/// into the described mapping, provided the keys are pairwise distinct.
pub proof fn lemma_kvs_update(ms: Seq<(Seq<char>, ValueModel)>, i: int, p: (Seq<char>, ValueModel))
    requires
        0 <= i < ms.len(),
        ms[i].0 == p.0,
        firsts_distinct(ms),
    ensures
        kvs_to_map(ms.update(i, p)) == kvs_to_map(ms).insert(p.0, p.1),
    decreases ms.len(),
{
    let t = ms.update(i, p);
    if i == ms.len() - 1 {
        assert(t.drop_last() =~= ms.drop_last());
        assert(t.last() == p);
        assert(kvs_to_map(t) =~= kvs_to_map(ms).insert(p.0, p.1));
    } else {
        assert(t.drop_last() =~= ms.drop_last().update(i, p));
        assert(t.last() == ms.last());
        lemma_kvs_update(ms.drop_last(), i, p);
        assert(ms.last().0 != p.0);
        assert(kvs_to_map(t) =~= kvs_to_map(ms).insert(p.0, p.1));
    }
    assert(kvs_to_map(ms.update(i, p)) == kvs_to_map(ms).insert(p.0, p.1));
}

/// The reason a parse failed.
///
/// A colon error carries the object key that was parsed just before the
/// missing colon; a keyword error carries the literal that was expected.
/// `InvalidInteger` and `InvalidFloat` report numeric text that does not
/// form a value of the target type.
#[derive(Debug, PartialEq)]
pub enum ErrorType {
    ExpectedArrayCloseOrComma,
    ExpectedDictKey,
    ExpectedDictColonAfterKey { key: String },
    ExpectedDictCloseOrComma,
    UnexpectedEndOfFile,
    UnknownKeyword { keyword: String },
    InvalidInteger,
    InvalidFloat,
}

/// The mathematical model of an [`ErrorType`].
pub enum ErrorTypeModel {
    ExpectedArrayCloseOrComma,
    ExpectedDictKey,
    ExpectedDictColonAfterKey { key: Seq<char> },
    ExpectedDictCloseOrComma,
    UnexpectedEndOfFile,
    UnknownKeyword { keyword: Seq<char> },
    InvalidInteger,
    InvalidFloat,
}

impl View for ErrorType {
    type V = ErrorTypeModel;

    open spec fn view(&self) -> ErrorTypeModel {
        match *self {
            ErrorType::ExpectedArrayCloseOrComma => ErrorTypeModel::ExpectedArrayCloseOrComma,
            ErrorType::ExpectedDictKey => ErrorTypeModel::ExpectedDictKey,
            ErrorType::ExpectedDictColonAfterKey { key } => (ErrorTypeModel::ExpectedDictColonAfterKey {
                key: key@,
            }),
            ErrorType::ExpectedDictCloseOrComma => ErrorTypeModel::ExpectedDictCloseOrComma,
            ErrorType::UnexpectedEndOfFile => ErrorTypeModel::UnexpectedEndOfFile,
            ErrorType::UnknownKeyword { keyword } => (ErrorTypeModel::UnknownKeyword {
                keyword: keyword@,
            }),
            ErrorType::InvalidInteger => ErrorTypeModel::InvalidInteger,
            ErrorType::InvalidFloat => ErrorTypeModel::InvalidFloat,
        }
    }
}

/// A grammar violation together with the 0-based line on which it was
/// detected.
#[derive(Debug, PartialEq)]
pub struct Error {
    pub line: usize,
    pub error: ErrorType,
}

/// The mathematical model of an [`Error`].
pub struct ErrorModel {
    pub line: int,
    pub error: ErrorTypeModel,
}

impl View for Error {
    type V = ErrorModel;

    open spec fn view(&self) -> ErrorModel {
        ErrorModel { line: self.line as int, error: self.error@ }
    }
}

} // verus!
