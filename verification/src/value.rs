//! Loosely-typed entity records: a tagged value that is a string, an
//! integer, a boolean, an ordered record of named fields, or null.
use vstd::prelude::*;

verus! {

broadcast use vstd::std_specs::vec::group_vec_axioms, vstd::seq::group_seq_axioms;

/// An executable, loosely-typed value. A record keeps its fields in
/// insertion order; field access goes by the first occurrence of a name.
pub enum Value {
    Null,
    Bool(bool),
    Int(i64),
    Str(String),
    Record(Vec<(String, Value)>),
}

/// The mathematical shape of a `Value`: strings become sequences of
/// characters, machine integers become unbounded integers.
pub ghost enum ValueModel {
    Null,
    Bool(bool),
    Int(int),
    Str(Seq<char>),
    Record(Seq<(Seq<char>, ValueModel)>),
}

impl Value {
    /// The model of this value, with every nested string abstracted to
    /// its character sequence.
    pub open spec fn model(self) -> ValueModel
        decreases self,
    {
        match self {
            Value::Null => ValueModel::Null,
            Value::Bool(b) => ValueModel::Bool(b),
            Value::Int(i) => ValueModel::Int(i as int),
            Value::Str(s) => ValueModel::Str(s@),
            Value::Record(fields) => ValueModel::Record(fields_model(fields@)),
        }
    }
}

/// The models of a sequence of named fields, in order.
pub open spec fn fields_model(s: Seq<(String, Value)>) -> Seq<(Seq<char>, ValueModel)>
    decreases s,
{
    if s.len() == 0 {
        Seq::empty()
    } else {
        seq![(s[0].0@, s[0].1.model())] + fields_model(s.drop_first())
    }
}

/// A field sequence models to a sequence of the same length whose entry
/// at each index is the modelled name/value pair at that index.
pub proof fn lemma_fields_model(s: Seq<(String, Value)>)
    ensures
        fields_model(s).len() == s.len(),
        forall|i: int|
            0 <= i < s.len() ==> #[trigger] fields_model(s)[i] == (s[i].0@, s[i].1.model()),
    decreases s,
{
    if s.len() > 0 {
        lemma_fields_model(s.drop_first());
    }
}

/// The value of the first field named `name` in `fields`, searched from
/// position `i` on; `None` when no such field exists.
pub open spec fn record_get_from(
    fields: Seq<(Seq<char>, ValueModel)>,
    name: Seq<char>,
    i: int,
) -> Option<ValueModel>
    decreases fields.len() - i,
{
    if i < 0 || i >= fields.len() {
        None
    } else if fields[i].0 == name {
        Some(fields[i].1)
    } else {
        record_get_from(fields, name, i + 1)
    }
}

/// The field sequence with the value of the first field named `name`
/// (searched from position `i` on) replaced by `v`; unchanged when no
/// field of that name exists.
pub open spec fn record_set_from(
    fields: Seq<(Seq<char>, ValueModel)>,
    name: Seq<char>,
    v: ValueModel,
    i: int,
) -> Seq<(Seq<char>, ValueModel)>
    decreases fields.len() - i,
{
    if i < 0 || i >= fields.len() {
        fields
    } else if fields[i].0 == name {
        fields.update(i, (name, v))
    } else {
        record_set_from(fields, name, v, i + 1)
    }
}

/// When `k` is the first position at or after `i` whose field is named
/// `name`, replacing that field is one point update at `k`.
pub proof fn lemma_record_set_from(
    fields: Seq<(Seq<char>, ValueModel)>,
    name: Seq<char>,
    v: ValueModel,
    i: int,
    k: int,
)
    requires
        0 <= i <= k < fields.len(),
        fields[k].0 == name,
        forall|j: int| i <= j < k ==> (#[trigger] fields[j]).0 != name,
    ensures
        record_set_from(fields, name, v, i) == fields.update(k, (name, v)),
    decreases k - i,
{
    if i < k {
        lemma_record_set_from(fields, name, v, i + 1, k);
    }
}

/// A search over fields none of which carries the name finds nothing.
pub proof fn lemma_record_get_none(fields: Seq<(Seq<char>, ValueModel)>, name: Seq<char>, i: int)
    requires
        forall|j: int| i <= j < fields.len() ==> (#[trigger] fields[j]).0 != name,
    ensures
        record_get_from(fields, name, i) is None,
    decreases fields.len() - i,
{
    if !(i < 0 || i >= fields.len()) {
        lemma_record_get_none(fields, name, i + 1);
    }
}

/// Field access on a model: the first field of that name on a record,
/// `None` on every other shape of value.
pub open spec fn get_field_model(v: ValueModel, name: Seq<char>) -> Option<ValueModel> {
    match v {
        ValueModel::Record(fields) => record_get_from(fields, name, 0),
        _ => None,
    }
}

/// Character-for-character equality of two string slices.
pub fn str_eq(a: &str, b: &str) -> (r: bool)
    ensures
        r == (a@ == b@),
{
    let la = a.unicode_len();
    let lb = b.unicode_len();
    if la != lb {
        return false;
    }
    let mut i: usize = 0;
    while i < la
        invariant
            i <= la,
            la == a@.len(),
            lb == b@.len(),
            la == lb,
            forall|k: int| 0 <= k < i ==> a@[k] == b@[k],
        decreases la - i,
    {
        if a.get_char(i) != b.get_char(i) {
            return false;
        }
        i += 1;
    }
    proof {
        assert(a@ =~= b@);
    }
    true
}

impl Value {
    /// A borrow of the first field named `name`, or `None` when this
    /// value is not a record or has no field of that name.
    pub fn get_field<'a>(&'a self, name: &str) -> (r: Option<&'a Value>)
        ensures
            match r {
                Some(v) => get_field_model(self.model(), name@) == Some(v.model()),
                None => get_field_model(self.model(), name@) is None,
            },
    {
        match self {
            Value::Record(fields) => {
                proof {
                    lemma_fields_model(fields@);
                    assert(self.model() == ValueModel::Record(fields_model(fields@)));
                }
                let ghost m = fields_model(fields@);
                let mut i: usize = 0;
                while i < fields.len()
                    invariant
                        i <= fields@.len(),
                        m == fields_model(fields@),
                        self.model() == ValueModel::Record(m),
                        m.len() == fields@.len(),
                        forall|k: int|
                            0 <= k < fields@.len() ==> #[trigger] m[k] == (
                                fields@[k].0@,
                                fields@[k].1.model(),
                            ),
                        record_get_from(m, name@, 0) == record_get_from(m, name@, i as int),
                    decreases fields@.len() - i,
                {
                    if str_eq(fields[i].0.as_str(), name) {
                        proof {
                            assert(m[i as int] == (fields@[i as int].0@, fields@[i as int].1.model()));
                            assert(record_get_from(m, name@, i as int) == Some(m[i as int].1));
                        }
                        return Some(&fields[i].1);
                    }
                    i += 1;
                }
                None
            },
            _ => None,
        }
    }
}

impl Value {
    /// A structurally identical copy of this value.
    #[verifier::loop_isolation(false)]
    pub fn duplicate(&self) -> (r: Value)
        ensures
            r.model() == self.model(),
        decreases self,
    {
        match self {
            Value::Null => Value::Null,
            Value::Bool(b) => Value::Bool(*b),
            Value::Int(i) => Value::Int(*i),
            Value::Str(s) => Value::Str(s.clone()),
            Value::Record(fields) => {
                let mut out: Vec<(String, Value)> = Vec::new();
                let mut i: usize = 0;
                while i < fields.len()
                    invariant
                        *self == Value::Record(*fields),
                        i <= fields@.len(),
                        out@.len() == i,
                        forall|k: int|
                            0 <= k < i ==> #[trigger] out@[k].0@ == fields@[k].0@
                                && out@[k].1.model() == fields@[k].1.model(),
                    decreases fields@.len() - i,
                {
                    let name = fields[i].0.clone();
                    let dup = fields[i].1.duplicate();
                    out.push((name, dup));
                    i += 1;
                }
                proof {
                    lemma_fields_model(out@);
                    lemma_fields_model(fields@);
                    assert(fields_model(out@) =~= fields_model(fields@));
                }
                Value::Record(out)
            },
        }
    }

    /// Whether this value and `other` have the same model, that is, the
    /// same structure with the same field names, strings, integers and
    /// booleans throughout.
    pub fn equals(&self, other: &Value) -> (r: bool)
        ensures
            r == (self.model() == other.model()),
        decreases self,
    {
        match (self, other) {
            (Value::Null, Value::Null) => true,
            (Value::Bool(a), Value::Bool(b)) => a == b,
            (Value::Int(a), Value::Int(b)) => a == b,
            (Value::Str(a), Value::Str(b)) => str_eq(a.as_str(), b.as_str()),
            (Value::Record(a), Value::Record(b)) => {
                proof {
                    lemma_fields_model(a@);
                    lemma_fields_model(b@);
                }
                let ghost ma = fields_model(a@);
                let ghost mb = fields_model(b@);
                if a.len() != b.len() {
                    proof {
                        assert(ma.len() != mb.len());
                    }
                    return false;
                }
                let mut i: usize = 0;
                while i < a.len()
                    invariant
                        *self == Value::Record(*a),
                        *other == Value::Record(*b),
                        i <= a@.len(),
                        a@.len() == b@.len(),
                        ma == fields_model(a@),
                        mb == fields_model(b@),
                        ma.len() == a@.len(),
                        mb.len() == b@.len(),
                        self.model() == ValueModel::Record(ma),
                        other.model() == ValueModel::Record(mb),
                        forall|k: int|
                            0 <= k < a@.len() ==> #[trigger] ma[k] == (
                                a@[k].0@,
                                a@[k].1.model(),
                            ),
                        forall|k: int|
                            0 <= k < b@.len() ==> #[trigger] mb[k] == (
                                b@[k].0@,
                                b@[k].1.model(),
                            ),
                        forall|k: int| 0 <= k < i ==> #[trigger] ma[k] == mb[k],
                    decreases a@.len() - i,
                {
                    if !str_eq(a[i].0.as_str(), b[i].0.as_str()) {
                        proof {
                            assert(ma[i as int].0 != mb[i as int].0);
                        }
                        return false;
                    }
                    if !a[i].1.equals(&b[i].1) {
                        proof {
                            assert(ma[i as int].1 != mb[i as int].1);
                        }
                        return false;
                    }
                    i += 1;
                }
                proof {
                    assert(ma =~= mb);
                }
                true
            },
            _ => {
                proof {
                    assert(self.model() != other.model());
                }
                false
            },
        }
    }
}

} // verus!
