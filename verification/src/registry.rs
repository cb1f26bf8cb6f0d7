//! The domain registry: the fixed mapping from domain name to initial value
//! and transformation, and the transformations themselves.

use vstd::prelude::*;

use crate::errors::StoreError;
use crate::json::{
    JsonValue, JsonModel, jmodel, jmodel_items, jmodel_entries, lemma_jmodel_entries,
    dec_digits, lemma_dec_digits_injective, text_of, jclone, str_eq, u64_to_string,
};
use crate::parse::{parse, parseable};

verus! {

broadcast use vstd::std_specs::vec::group_vec_axioms, vstd::seq::group_seq_axioms;

/// The record a source entry holds: its numeric identifier and the source
/// itself, under those two keys.
pub open spec fn source_record(id: nat, source: JsonModel) -> JsonModel {
    JsonModel::Obj(seq![("id"@, JsonModel::Int(id as i64)), ("source"@, source)])
}

/// The record one reading holds: the raw payload, verbatim, under the one
/// key `reading`.
pub open spec fn reading_record(payload: Seq<char>) -> JsonModel {
    JsonModel::Obj(seq![("reading"@, JsonModel::Str(payload))])
}

/// Insertion into an object: the first entry with the same key is replaced
/// in place; a fresh key is appended at the end.
pub open spec fn obj_insert(
    es: Seq<(Seq<char>, JsonModel)>,
    key: Seq<char>,
    val: JsonModel,
) -> Seq<(Seq<char>, JsonModel)>
    decreases es.len(),
{
    if es.len() == 0 {
        seq![(key, val)]
    } else if es[0].0 == key {
        seq![(key, val)] + es.drop_first()
    } else {
        seq![es[0]] + obj_insert(es.drop_first(), key, val)
    }
}

pub proof fn lemma_obj_insert_fresh(
    es: Seq<(Seq<char>, JsonModel)>,
    key: Seq<char>,
    val: JsonModel,
)
    requires
        forall|i: int| 0 <= i < es.len() ==> es[i].0 != key,
    ensures
        obj_insert(es, key, val) == es.push((key, val)),
    decreases es.len(),
{
    if es.len() == 0 {
        assert(obj_insert(es, key, val) =~= es.push((key, val)));
    } else {
        assert(forall|i: int|
            0 <= i < es.drop_first().len() ==> es.drop_first()[i].0 != key);
        lemma_obj_insert_fresh(es.drop_first(), key, val);
        assert(obj_insert(es, key, val) =~= es.push((key, val)));
    }
}

pub proof fn lemma_obj_insert_at(
    es: Seq<(Seq<char>, JsonModel)>,
    key: Seq<char>,
    val: JsonModel,
    k: int,
)
    requires
        0 <= k < es.len(),
        es[k].0 == key,
        forall|i: int| 0 <= i < k ==> es[i].0 != key,
    ensures
        obj_insert(es, key, val) == es.update(k, (key, val)),
    decreases es.len(),
{
    if k == 0 {
        assert(obj_insert(es, key, val) =~= es.update(0, (key, val)));
    } else {
        lemma_obj_insert_at(es.drop_first(), key, val, k - 1);
        assert(obj_insert(es, key, val) =~= es.update(k, (key, val)));
    }
}

/// The result of a transformation, seen at the model level.
pub open spec fn res_model(r: Result<JsonValue, StoreError>) -> Result<JsonModel, StoreError> {
    match r {
        Ok(v) => Ok(jmodel(v)),
        Err(e) => Err(e),
    }
}

/// What the sources transformation returns, both ways.
///
/// Any event other than `add_source` leaves the value untouched. On
/// `add_source` over an object whose payload is some value's canonical text
/// and whose entry count the machine can still number, the result is owed:
/// the object with a record for that value, keyed by the decimal text of
/// the entry count. In every other case — a payload that is no value's
/// canonical text, an entry count past the machine's range, or a value of
/// any other shape — the result is exactly a parse failure.
pub open spec fn sources_rel(
    old: JsonModel,
    ev: Seq<char>,
    pl: Seq<char>,
    r: Result<JsonModel, StoreError>,
) -> bool {
    if ev != "add_source"@ {
        r == Ok::<JsonModel, StoreError>(old)
    } else {
        match old {
            JsonModel::Obj(es) => if parseable(pl) && es.len() < 9223372036854775808 {
                exists|pv: JsonModel|
                    text_of(pv) == pl && r == Ok::<JsonModel, StoreError>(
                        JsonModel::Obj(
                            obj_insert(es, dec_digits(es.len()), source_record(es.len(), pv)),
                        ),
                    )
            } else {
                r == Err::<JsonModel, StoreError>(StoreError::Parse)
            },
            _ => r == Err::<JsonModel, StoreError>(StoreError::Parse),
        }
    }
}

/// Whether a transformation succeeds on this input: unrecognized events
/// always do; `add_source` needs an object state, a canonical payload and a
/// countable entry count; `add_reading` needs a sequence state.
pub open spec fn domain_ok(t: Transform, old: JsonModel, ev: Seq<char>, pl: Seq<char>) -> bool {
    match t {
        Transform::Sources => ev != "add_source"@ || (match old {
            JsonModel::Obj(es) => parseable(pl) && es.len() < 9223372036854775808,
            _ => false,
        }),
        Transform::Readings => ev != "add_reading"@ || (old matches JsonModel::Arr(_)),
        Transform::Identity => true,
    }
}

/// What the readings transformation returns, exactly.
pub open spec fn spec_readings(
    old: JsonModel,
    ev: Seq<char>,
    pl: Seq<char>,
) -> Result<JsonModel, StoreError> {
    if ev != "add_reading"@ {
        Ok(old)
    } else {
        match old {
            JsonModel::Arr(items) => Ok(JsonModel::Arr(items.push(reading_record(pl)))),
            _ => Err(StoreError::Parse),
        }
    }
}

fn obj_insert_exec(entries: Vec<(String, JsonValue)>, key: String, val: JsonValue) -> (r: Vec<
    (String, JsonValue),
>)
    ensures
        jmodel_entries(r@) == obj_insert(jmodel_entries(entries@), key@, jmodel(val)),
{
    let ghost ms = jmodel_entries(entries@);
    proof {
        lemma_jmodel_entries(entries@);
    }
    let mut i: usize = 0;
    let mut es = entries;
    while i < es.len()
        invariant
            i <= es@.len(),
            es@ == entries@,
            ms == jmodel_entries(entries@),
            forall|j: int| 0 <= j < i ==> es@[j].0@ != key@,
        decreases es@.len() - i,
    {
        if str_eq(es[i].0.as_str(), key.as_str()) {
            proof {
                lemma_jmodel_entries(entries@);
                lemma_obj_insert_at(ms, key@, jmodel(val), i as int);
            }
            es[i] = (key, val);
            proof {
                lemma_jmodel_entries(es@);
                assert(jmodel_entries(es@) =~= ms.update(i as int, (key@, jmodel(val))));
            }
            return es;
        }
        i = i + 1;
    }
    proof {
        lemma_jmodel_entries(entries@);
        lemma_obj_insert_fresh(ms, key@, jmodel(val));
    }
    es.push((key, val));
    proof {
        lemma_jmodel_entries(es@);
        assert(jmodel_entries(es@) =~= ms.push((key@, jmodel(val))));
    }
    es
}

/// Files an already-parsed source in a sources object: the new record gets
/// the identifier equal to the current number of entries and is inserted
/// under that identifier's decimal text. Succeeds exactly when the state is
/// an object whose entry count the machine can still number; any other
/// shape is reported as a parse failure.
pub fn sources_apply(state: &JsonValue, source: JsonValue) -> (r: Result<JsonValue, StoreError>)
    ensures
        (match state@ {
            JsonModel::Obj(es) => {
                if es.len() < 9223372036854775808 {
                    res_model(r) == Ok::<JsonModel, StoreError>(
                        JsonModel::Obj(
                            obj_insert(es, dec_digits(es.len()), source_record(es.len(), source@)),
                        ),
                    )
                } else {
                    r == Err::<JsonValue, StoreError>(StoreError::Parse)
                }
            },
            _ => r == Err::<JsonValue, StoreError>(StoreError::Parse),
        }),
{
    let c = jclone(state);
    match c {
        JsonValue::Obj(entries) => {
            proof {
                lemma_jmodel_entries(entries@);
            }
            let id: usize = entries.len();
            if id as u64 > 9223372036854775807u64 {
                return Err(StoreError::Parse);
            }
            let key = u64_to_string(id as u64);
            let mut rec: Vec<(String, JsonValue)> = Vec::new();
            rec.push((String::from_str("id"), JsonValue::Int(id as i64)));
            rec.push((String::from_str("source"), source));
            let ghost recm = rec@;
            let ghost src_model = jmodel(recm[1].1);
            let record = JsonValue::Obj(rec);
            proof {
                lemma_jmodel_entries(recm);
                assert(jmodel_entries(recm) =~= seq![
                    ("id"@, JsonModel::Int(id as i64)),
                    ("source"@, src_model),
                ]);
                assert(jmodel(record) == JsonModel::Obj(jmodel_entries(recm)));
                lemma_jmodel_entries(entries@);
                assert(jmodel(record) == source_record(jmodel_entries(entries@).len(), src_model));
            }
            let inserted = obj_insert_exec(entries, key, record);
            Ok(JsonValue::Obj(inserted))
        },
        _ => Err(StoreError::Parse),
    }
}

/// The sources transformation: `add_source` parses the payload, gives it
/// the next sequential identifier and files it under that identifier's
/// decimal text; every other event returns the value unchanged.
pub fn sources_reducer(state: &JsonValue, event: &str, payload: &str) -> (r: Result<
    JsonValue,
    StoreError,
>)
    ensures
        sources_rel(state@, event@, payload@, res_model(r)),
{
    if !str_eq(event, "add_source") {
        return Ok(jclone(state));
    }
    let source = match parse(payload) {
        Ok(v) => v,
        Err(_) => {
            return Err(StoreError::Parse);
        },
    };
    let ghost src_model = jmodel(source);
    let r = sources_apply(state, source);
    proof {
        match state@ {
            JsonModel::Obj(es) => {
                if es.len() < 9223372036854775808 {
                    match res_model(r) {
                        Ok(v) => {
                            assert(text_of(src_model) == payload@);
                            assert(v == JsonModel::Obj(
                                obj_insert(
                                    es,
                                    dec_digits(es.len()),
                                    source_record(es.len(), src_model),
                                ),
                            ));
                        },
                        _ => {},
                    }
                }
            },
            _ => {},
        }
    }
    r
}

/// The readings transformation: `add_reading` appends a record holding the
/// raw payload; every other event returns the value unchanged.
pub fn readings_reducer(state: &JsonValue, event: &str, payload: &str) -> (r: Result<
    JsonValue,
    StoreError,
>)
    ensures
        res_model(r) == spec_readings(state@, event@, payload@),
{
    if !str_eq(event, "add_reading") {
        return Ok(jclone(state));
    }
    let c = jclone(state);
    match c {
        JsonValue::Arr(items) => {
            let mut rec: Vec<(String, JsonValue)> = Vec::new();
            rec.push((String::from_str("reading"), JsonValue::Str(String::from_str(payload))));
            let ghost recm = rec@;
            let record = JsonValue::Obj(rec);
            proof {
                lemma_jmodel_entries(recm);
                assert(jmodel_entries(recm) =~= seq![("reading"@, JsonModel::Str(payload@))]);
                assert(jmodel(record) == JsonModel::Obj(jmodel_entries(recm)));
                assert(jmodel(record) == reading_record(payload@));
            }
            let mut items2 = items;
            let ghost old_items = items2@;
            items2.push(record);
            proof {
                assert(items2@.drop_last() =~= old_items);
                assert(jmodel_items(items2@) == jmodel_items(old_items).push(jmodel(record)));
            }
            Ok(JsonValue::Arr(items2))
        },
        _ => Err(StoreError::Parse),
    }
}

/// The transformation for domains that have no mutation rules yet: every
/// event returns the value unchanged.
#[allow(unused_variables)]
pub fn state_identity(state: &JsonValue, event: &str, payload: &str) -> (r: JsonValue)
    ensures
        r@ == state@,
{
    jclone(state)
}

/// A transformation, tagged by the domain it serves.
#[derive(Clone, Copy, Debug, PartialEq, Eq, Structural)]
pub enum Transform {
    Sources,
    Readings,
    Identity,
}

/// What applying a transformation may yield, per tag.
pub open spec fn apply_rel(
    t: Transform,
    old: JsonModel,
    ev: Seq<char>,
    pl: Seq<char>,
    r: Result<JsonModel, StoreError>,
) -> bool {
    match t {
        Transform::Sources => sources_rel(old, ev, pl, r),
        Transform::Readings => r == spec_readings(old, ev, pl),
        Transform::Identity => r == Ok::<JsonModel, StoreError>(old),
    }
}

/// A transformation's relation decides success: the result is `Ok` exactly
/// when the input is one the transformation succeeds on, and otherwise it
/// is exactly a parse failure.
pub proof fn lemma_apply_rel_cases(
    t: Transform,
    old: JsonModel,
    ev: Seq<char>,
    pl: Seq<char>,
    r: Result<JsonModel, StoreError>,
)
    requires
        apply_rel(t, old, ev, pl, r),
    ensures
        domain_ok(t, old, ev, pl) <==> (r is Ok),
        !domain_ok(t, old, ev, pl) ==> r == Err::<JsonModel, StoreError>(StoreError::Parse),
{
    match t {
        Transform::Sources => {
            if ev == "add_source"@ {
                match old {
                    JsonModel::Obj(es) => {
                        if parseable(pl) && es.len() < 9223372036854775808 {
                            let pv = choose|pv: JsonModel|
                                text_of(pv) == pl && r == Ok::<JsonModel, StoreError>(
                                    JsonModel::Obj(
                                        obj_insert(
                                            es,
                                            dec_digits(es.len()),
                                            source_record(es.len(), pv),
                                        ),
                                    ),
                                );
                            assert(r is Ok);
                        }
                    },
                    _ => {},
                }
            }
        },
        Transform::Readings => {},
        Transform::Identity => {},
    }
}

impl Transform {
    /// Applies this transformation to a domain's current value.
    pub fn apply(&self, state: &JsonValue, event: &str, payload: &str) -> (r: Result<
        JsonValue,
        StoreError,
    >)
        ensures
            apply_rel(*self, state@, event@, payload@, res_model(r)),
    {
        match self {
            Transform::Sources => sources_reducer(state, event, payload),
            Transform::Readings => readings_reducer(state, event, payload),
            Transform::Identity => Ok(state_identity(state, event, payload)),
        }
    }
}

/// One registry entry: a domain's name, its initial value and its
/// transformation.
pub struct RegistryEntry {
    pub name: String,
    pub initial: JsonValue,
    pub transform: Transform,
}

/// The fixed domain registry: `readings` starts as an empty sequence,
/// `sources` as an empty object. The set of domains never changes at
/// runtime.
pub fn get_state_keys() -> (r: Vec<RegistryEntry>)
    ensures
        r@.len() == 2,
        r@[0].name@ == "readings"@,
        r@[0].transform == Transform::Readings,
        r@[0].initial@ == JsonModel::Arr(Seq::<JsonModel>::empty()),
        r@[1].name@ == "sources"@,
        r@[1].transform == Transform::Sources,
        r@[1].initial@ == JsonModel::Obj(Seq::<(Seq<char>, JsonModel)>::empty()),
{
    let mut r: Vec<RegistryEntry> = Vec::new();
    let readings_initial: Vec<JsonValue> = Vec::new();
    proof {
        assert(jmodel_items(readings_initial@) =~= Seq::<JsonModel>::empty());
    }
    r.push(
        RegistryEntry {
            name: String::from_str("readings"),
            initial: JsonValue::Arr(readings_initial),
            transform: Transform::Readings,
        },
    );
    let sources_initial: Vec<(String, JsonValue)> = Vec::new();
    proof {
        assert(jmodel_entries(sources_initial@) =~= Seq::<(Seq<char>, JsonModel)>::empty());
    }
    r.push(
        RegistryEntry {
            name: String::from_str("sources"),
            initial: JsonValue::Obj(sources_initial),
            transform: Transform::Sources,
        },
    );
    r
}

/// A sources object numbered in order — the shape the store itself builds
/// from an empty object, where entry `i` sits under the decimal text of
/// `i` — never renumbers: the next add keeps every existing entry exactly
/// as it is and appends the new record, under the next count's text, at
/// the end. The identifier derives from the loaded count, never resets.
pub proof fn lemma_numbered_sources_append(es: Seq<(Seq<char>, JsonModel)>, pv: JsonModel)
    requires
        forall|i: int| 0 <= i < es.len() ==> (#[trigger] es[i]).0 == dec_digits(i as nat),
    ensures
        obj_insert(es, dec_digits(es.len()), source_record(es.len(), pv)) == es.push(
            (dec_digits(es.len()), source_record(es.len(), pv)),
        ),
{
    assert forall|i: int| 0 <= i < es.len() implies es[i].0 != dec_digits(es.len()) by {
        if es[i].0 == dec_digits(es.len()) {
            lemma_dec_digits_injective(i as nat, es.len());
        }
    }
    lemma_obj_insert_fresh(es, dec_digits(es.len()), source_record(es.len(), pv));
}

} // verus!
