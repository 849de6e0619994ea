//! The reference directory: a read-only mapping from identifier to
//! entity, built once from a startup snapshot of five optional entity
//! sequences, merged in a fixed order with last-write-wins on duplicate
//! identifiers.
use vstd::prelude::*;

use crate::value::{get_field_model, str_eq, Value, ValueModel};

verus! {

broadcast use vstd::std_specs::vec::group_vec_axioms, vstd::seq::group_seq_axioms;

/// The startup snapshot: five optional ordered sequences of entity
/// records, merged into the directory in this field order.
pub struct Snapshot {
    pub users: Option<Vec<Value>>,
    pub channels: Option<Vec<Value>>,
    pub groups: Option<Vec<Value>>,
    pub mpims: Option<Vec<Value>>,
    pub ims: Option<Vec<Value>>,
}

/// The entities of one optional sequence, in order; an absent sequence
/// contributes nothing.
pub open spec fn seq_of(o: Option<Vec<Value>>) -> Seq<Value> {
    match o {
        Some(v) => v@,
        None => Seq::empty(),
    }
}

/// The models of a sequence of entities, in order.
pub open spec fn models_of(s: Seq<Value>) -> Seq<ValueModel> {
    Seq::new(s.len(), |i: int| s[i].model())
}

/// The identifier of an entity: the string value of its first `id`
/// field, or `None` when that field is absent or not a string.
pub open spec fn id_of(v: ValueModel) -> Option<Seq<char>> {
    match get_field_model(v, "id"@) {
        Some(f) => match f {
            ValueModel::Str(s) => Some(s),
            _ => None,
        },
        None => None,
    }
}

/// The map `m` extended by every entity of `s` that has an identifier,
/// in order, a later entity overwriting an earlier entry with the same
/// identifier.
pub open spec fn dir_extend(
    m: Map<Seq<char>, ValueModel>,
    s: Seq<ValueModel>,
) -> Map<Seq<char>, ValueModel>
    decreases s,
{
    if s.len() == 0 {
        m
    } else {
        match id_of(s.last()) {
            Some(id) => dir_extend(m, s.drop_last()).insert(id, s.last()),
            None => dir_extend(m, s.drop_last()),
        }
    }
}

/// The directory arising from a sequence of entities alone.
pub open spec fn dir_of_models(s: Seq<ValueModel>) -> Map<Seq<char>, ValueModel> {
    dir_extend(Map::empty(), s)
}

/// Extending by a concatenation is extending by each part in turn.
pub proof fn lemma_dir_extend_concat(
    m: Map<Seq<char>, ValueModel>,
    a: Seq<ValueModel>,
    b: Seq<ValueModel>,
)
    ensures
        dir_extend(m, a + b) == dir_extend(dir_extend(m, a), b),
    decreases b,
{
    if b.len() == 0 {
        assert(a + b =~= a);
    } else {
        lemma_dir_extend_concat(m, a, b.drop_last());
        assert((a + b).drop_last() =~= a + b.drop_last());
        assert((a + b).last() == b.last());
    }
}

impl Snapshot {
    /// All entities of the snapshot, in merge order: users, channels,
    /// groups, multi-party conversations, direct conversations.
    pub open spec fn entities(self) -> Seq<ValueModel> {
        models_of(seq_of(self.users)) + models_of(seq_of(self.channels)) + models_of(
            seq_of(self.groups),
        ) + models_of(seq_of(self.mpims)) + models_of(seq_of(self.ims))
    }
}

/// The directory. Its view is the finite map from identifier to entity
/// model that the snapshot merge produced; it is never changed after
/// construction.
pub struct Directory {
    entries: Vec<(String, Value)>,
}

/// The map described by a key-entity list, a later pair overwriting an
/// earlier one with the same key.
pub open spec fn dir_of_entries(s: Seq<(String, Value)>) -> Map<Seq<char>, ValueModel>
    decreases s,
{
    if s.len() == 0 {
        Map::empty()
    } else {
        dir_of_entries(s.drop_last()).insert(s.last().0@, s.last().1.model())
    }
}

impl View for Directory {
    type V = Map<Seq<char>, ValueModel>;

    closed spec fn view(&self) -> Map<Seq<char>, ValueModel> {
        dir_of_entries(self.entries@)
    }
}

/// Append every entity of `items` that carries a string `id` field to
/// the key-entity list, keyed by that identifier.
fn push_entities(entries: &mut Vec<(String, Value)>, items: &Option<Vec<Value>>)
    ensures
        dir_of_entries(final(entries)@) == dir_extend(
            dir_of_entries(old(entries)@),
            models_of(seq_of(*items)),
        ),
{
    let ghost base = dir_of_entries(entries@);
    match items {
        None => {
            proof {
                assert(models_of(seq_of(*items)).len() == 0);
            }
        },
        Some(v) => {
            let mut i: usize = 0;
            while i < v.len()
                invariant
                    i <= v@.len(),
                    *items == Some(*v),
                    dir_of_entries(entries@) == dir_extend(
                        base,
                        models_of(v@.subrange(0, i as int)),
                    ),
                decreases v@.len() - i,
            {
                let ghost pre = entries@;
                let ghost prefix = models_of(v@.subrange(0, i as int));
                let ghost prefix1 = models_of(v@.subrange(0, i as int + 1));
                let entity = &v[i];
                match entity.get_field("id") {
                    Some(f) => match f {
                        Value::Str(id) => {
                            entries.push((id.clone(), entity.duplicate()));
                            proof {
                                assert(id_of(entity.model()) == Some(id@));
                                assert(entries@.drop_last() =~= pre);
                                assert(entries@.last().0@ == id@);
                                assert(entries@.last().1.model() == entity.model());
                            }
                        },
                        _ => {
                            proof {
                                assert(id_of(entity.model()) is None);
                            }
                        },
                    },
                    None => {
                        proof {
                            assert(id_of(entity.model()) is None);
                        }
                    },
                }
                proof {
                    assert(prefix1.drop_last() =~= prefix);
                    assert(prefix1.last() == v@[i as int].model());
                }
                i += 1;
            }
            proof {
                assert(v@.subrange(0, v@.len() as int) =~= v@);
            }
        },
    }
}

impl Directory {
    /// Build the directory from a snapshot: walk the five sequences in
    /// their fixed order and enter every entity that has a string `id`
    /// field under that identifier, a later entity replacing an earlier
    /// one with the same identifier. Total: entities without a usable
    /// identifier are skipped, and nothing fails.
    pub fn build(snapshot: &Snapshot) -> (r: Directory)
        ensures
            r@ == dir_of_models(snapshot.entities()),
    {
        let mut entries: Vec<(String, Value)> = Vec::new();
        proof {
            assert(dir_of_entries(entries@) == Map::<Seq<char>, ValueModel>::empty());
        }
        push_entities(&mut entries, &snapshot.users);
        push_entities(&mut entries, &snapshot.channels);
        push_entities(&mut entries, &snapshot.groups);
        push_entities(&mut entries, &snapshot.mpims);
        push_entities(&mut entries, &snapshot.ims);
        proof {
            let u = models_of(seq_of(snapshot.users));
            let c = models_of(seq_of(snapshot.channels));
            let g = models_of(seq_of(snapshot.groups));
            let m = models_of(seq_of(snapshot.mpims));
            let d = models_of(seq_of(snapshot.ims));
            lemma_dir_extend_concat(Map::empty(), u, c);
            lemma_dir_extend_concat(Map::empty(), u + c, g);
            lemma_dir_extend_concat(Map::empty(), u + c + g, m);
            lemma_dir_extend_concat(Map::empty(), u + c + g + m, d);
        }
        Directory { entries }
    }

    /// Look the identifier up: the entity entered last under `id`, or
    /// `None` when no entity was entered under it.
    pub fn lookup<'a>(&'a self, id: &str) -> (r: Option<&'a Value>)
        ensures
            match r {
                Some(v) => self@.contains_key(id@) && self@[id@] == v.model(),
                None => !self@.contains_key(id@),
            },
    {
        let ghost full = self.entries@;
        let mut i: usize = self.entries.len();
        proof {
            assert(full.subrange(0, full.len() as int) =~= full);
        }
        while i > 0
            invariant
                i <= full.len(),
                full == self.entries@,
                self@ == dir_of_entries(full),
                self@.contains_key(id@) == dir_of_entries(full.subrange(0, i as int)).contains_key(
                    id@,
                ),
                self@.contains_key(id@) ==> self@[id@] == dir_of_entries(
                    full.subrange(0, i as int),
                )[id@],
            decreases i,
        {
            let ghost pre = full.subrange(0, i as int);
            proof {
                assert(pre.drop_last() =~= full.subrange(0, i as int - 1));
                assert(pre.last() == full[i as int - 1]);
            }
            i = i - 1;
            if str_eq(self.entries[i].0.as_str(), id) {
                return Some(&self.entries[i].1);
            }
        }
        proof {
            assert(full.subrange(0, 0) =~= Seq::<(String, Value)>::empty());
        }
        None
    }
}

/// Last write wins: when position `i` holds the last entity of `s`
/// carrying identifier `id`, the directory of `s` maps `id` to exactly
/// that entity.
pub proof fn lemma_last_write_wins(s: Seq<ValueModel>, i: int, id: Seq<char>)
    requires
        0 <= i < s.len(),
        id_of(s[i]) == Some(id),
        forall|k: int| i < k < s.len() ==> id_of(#[trigger] s[k]) != Some(id),
    ensures
        dir_of_models(s).contains_key(id),
        dir_of_models(s)[id] == s[i],
    decreases s.len(),
{
    if i == s.len() - 1 {
        assert(s.last() == s[i]);
    } else {
        lemma_last_write_wins(s.drop_last(), i, id);
        assert(s.drop_last()[i] == s[i]);
        assert(id_of(s.last()) != Some(id));
    }
}

} // verus!
