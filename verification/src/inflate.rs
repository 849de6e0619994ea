//! The field inflator: replace a scalar identifier field on a record
//! with the full entity record the directory holds under that
//! identifier, and leave the record untouched in every other case.
use vstd::prelude::*;

use crate::directory::Directory;
use crate::value::{
    fields_model, get_field_model, lemma_fields_model, lemma_record_set_from, record_set_from,
    str_eq, Value, ValueModel,
};

verus! {

broadcast use vstd::std_specs::vec::group_vec_axioms, vstd::seq::group_seq_axioms;

/// The model with the value of the first field named `name` replaced
/// by `v`; unchanged when the model is no record or has no such field.
pub open spec fn set_field_model(root: ValueModel, name: Seq<char>, v: ValueModel) -> ValueModel {
    match root {
        ValueModel::Record(fields) => ValueModel::Record(record_set_from(fields, name, v, 0)),
        _ => root,
    }
}

/// The inflation of `root` at `name` under `dir`: when the field is
/// present, is a string, and that string is a directory key, the field
/// value becomes the full entity; otherwise `root` is unchanged.
pub open spec fn inflate_model(
    root: ValueModel,
    name: Seq<char>,
    dir: Map<Seq<char>, ValueModel>,
) -> ValueModel {
    match get_field_model(root, name) {
        Some(f) => match f {
            ValueModel::Str(id) => if dir.contains_key(id) {
                set_field_model(root, name, dir[id])
            } else {
                root
            },
            _ => root,
        },
        None => root,
    }
}

/// The position of the first field named `key`, or `None`.
fn find_field(fields: &Vec<(String, Value)>, key: &str) -> (r: Option<usize>)
    ensures
        match r {
            Some(k) => k < fields@.len() && fields@[k as int].0@ == key@ && forall|j: int|
                0 <= j < k ==> (#[trigger] fields@[j]).0@ != key@,
            None => forall|j: int| 0 <= j < fields@.len() ==> (#[trigger] fields@[j]).0@ != key@,
        },
{
    let mut i: usize = 0;
    while i < fields.len()
        invariant
            i <= fields@.len(),
            forall|j: int| 0 <= j < i ==> (#[trigger] fields@[j]).0@ != key@,
        decreases fields@.len() - i,
    {
        if str_eq(fields[i].0.as_str(), key) {
            return Some(i);
        }
        i += 1;
    }
    None
}

/// Inflate the field `key` of `root` in place: when its value is a
/// string identifier the directory knows, the identifier is replaced
/// by a copy of the full entity; in every other case (field absent,
/// not a string, identifier unknown, or `root` not a record) the value
/// is left exactly as it was.
pub fn inflate_field(root: &mut Value, key: &str, directory: &Directory)
    ensures
        final(root).model() == inflate_model(old(root).model(), key@, directory@),
{
    let ghost dir = directory@;
    let replacement: Option<Value> = match root.get_field(key) {
        Some(f) => match f {
            Value::Str(id) => match directory.lookup(id.as_str()) {
                Some(entity) => Some(entity.duplicate()),
                None => None,
            },
            _ => None,
        },
        None => None,
    };
    match replacement {
        None => {
            assert(inflate_model(old(root).model(), key@, dir) == old(root).model());
        },
        Some(newv) => {
            let mut work = Value::Null;
            core::mem::swap(root, &mut work);
            proof {
                assert(work == *old(root));
            }
            match work {
                Value::Record(mut fields) => {
                    let ghost m0 = fields_model(fields@);
                    proof {
                        lemma_fields_model(fields@);
                    }
                    match find_field(&fields, key) {
                        Some(idx) => {
                            let ghost pre = fields@;
                            let pair = fields.remove(idx);
                            fields.insert(idx, (pair.0, newv));
                            proof {
                                assert(fields@ =~= pre.update(idx as int, (pair.0, newv)));
                                lemma_fields_model(fields@);
                                lemma_record_set_from(m0, key@, newv.model(), 0, idx as int);
                                assert(forall|j: int|
                                    0 <= j < idx ==> (#[trigger] m0[j]).0 != key@);
                                assert(fields_model(fields@) =~= m0.update(
                                    idx as int,
                                    (key@, newv.model()),
                                ));
                            }
                            *root = Value::Record(fields);
                        },
                        None => {
                            // unreachable: the field was found above
                            proof {
                                assert(forall|j: int|
                                    0 <= j < m0.len() ==> (#[trigger] m0[j]).0 != key@);
                                crate::value::lemma_record_get_none(m0, key@, 0);
                                assert(false);
                            }
                            *root = Value::Record(fields);
                        },
                    }
                },
                other => {
                    // unreachable: only a record can have a field
                    proof {
                        assert(false);
                    }
                    *root = other;
                },
            }
        },
    }
}

} // verus!
