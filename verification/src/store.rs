//! The state store and its dispatcher.
//!
//! The store owns one value per registered domain. A dispatch is computed in
//! two steps so the caller can persist before committing: `dispatch` applies
//! the event to every domain and returns a plan — the new values, one file
//! write per domain, and the serialized snapshot — without touching the
//! store; `commit` then replaces the live values in one step. A caller that
//! writes the plan's files between the two, holding the store exclusively
//! for the whole sequence, never commits a value whose file write failed and
//! never loses a concurrent update.

use vstd::prelude::*;

use crate::errors::StoreError;
use crate::json::{
    JsonValue, JsonModel, jmodel, jmodel_entries, lemma_jmodel_entries, text_of, render, jclone,
};
use crate::registry::{Transform, get_state_keys, apply_rel, domain_ok, lemma_apply_rel_cases};

verus! {

broadcast use vstd::std_specs::vec::group_vec_axioms, vstd::seq::group_seq_axioms;

/// One domain held by the store.
pub struct DomainEntry {
    pub name: String,
    pub transform: Transform,
    pub value: JsonValue,
}

/// The model of one domain.
#[verifier::ext_equal]
pub ghost struct DomainModel {
    pub name: Seq<char>,
    pub transform: Transform,
    pub value: JsonModel,
}

impl View for DomainEntry {
    type V = DomainModel;

    open spec fn view(&self) -> DomainModel {
        DomainModel { name: self.name@, transform: self.transform, value: self.value@ }
    }
}

/// The in-memory store: one value per domain, in registry order.
pub struct StateStore {
    entries: Vec<DomainEntry>,
}

impl View for StateStore {
    type V = Seq<DomainModel>;

    closed spec fn view(&self) -> Seq<DomainModel> {
        Seq::new(self.entries@.len(), |i: int| self.entries@[i]@)
    }
}

/// The domain names and transformations the registry fixes, by position.
pub open spec fn registry_name(i: int) -> Seq<char> {
    if i == 0 {
        "readings"@
    } else {
        "sources"@
    }
}

pub open spec fn registry_transform(i: int) -> Transform {
    if i == 0 {
        Transform::Readings
    } else {
        Transform::Sources
    }
}

/// The store's invariant: its domains are exactly the registry's, in order.
pub open spec fn wf_store(s: Seq<DomainModel>) -> bool {
    &&& s.len() == 2
    &&& forall|i: int|
        0 <= i < s.len() ==> #[trigger] s[i].name == registry_name(i) && s[i].transform
            == registry_transform(i)
}

/// One pending file write: the file's name and its full new content.
pub struct FileWrite {
    pub name: String,
    pub content: String,
}

impl View for FileWrite {
    type V = (Seq<char>, Seq<char>);

    open spec fn view(&self) -> (Seq<char>, Seq<char>) {
        (self.name@, self.content@)
    }
}

/// Everything one dispatch produces: the new value of every domain, the file
/// write each domain owes, and the serialized snapshot of the whole map.
pub struct DispatchPlan {
    pub new_values: Vec<JsonValue>,
    pub files: Vec<FileWrite>,
    pub snapshot: String,
}

/// The model of a plan.
#[verifier::ext_equal]
pub ghost struct PlanModel {
    pub new_values: Seq<JsonModel>,
    pub files: Seq<(Seq<char>, Seq<char>)>,
    pub snapshot: Seq<char>,
}

impl View for DispatchPlan {
    type V = PlanModel;

    open spec fn view(&self) -> PlanModel {
        PlanModel {
            new_values: Seq::new(self.new_values@.len(), |i: int| self.new_values@[i]@),
            files: Seq::new(self.files@.len(), |i: int| self.files@[i]@),
            snapshot: self.snapshot@,
        }
    }
}

/// The payload a dispatch sees: the empty string when none was supplied.
pub open spec fn payload_view(payload: Option<&str>) -> Seq<char> {
    match payload {
        Some(p) => p@,
        None => Seq::empty(),
    }
}

/// The snapshot of a store whose domains hold the given new values: the
/// object mapping each domain's name to its value, in registry order.
pub open spec fn snapshot_model(s: Seq<DomainModel>, nv: Seq<JsonModel>) -> JsonModel {
    JsonModel::Obj(Seq::new(s.len(), |i: int| (s[i].name, nv[i])))
}

/// What a successful dispatch promises: every domain's new value is related
/// to its old one by its own transformation; every domain owes one write,
/// of its canonical text, to the file named after it; and the snapshot is
/// the canonical text of the whole updated map.
pub open spec fn dispatch_ok(
    s: Seq<DomainModel>,
    ev: Seq<char>,
    pl: Seq<char>,
    p: PlanModel,
) -> bool {
    &&& p.new_values.len() == s.len()
    &&& forall|i: int|
        0 <= i < s.len() ==> apply_rel(
            s[i].transform,
            s[i].value,
            ev,
            pl,
            Ok(#[trigger] p.new_values[i]),
        )
    &&& p.files.len() == s.len()
    &&& forall|i: int|
        0 <= i < s.len() ==> (#[trigger] p.files[i]).0 == s[i].name + ".json"@ && p.files[i].1
            == text_of(p.new_values[i])
    &&& p.snapshot == text_of(snapshot_model(s, p.new_values))
}

impl StateStore {
    /// Builds the store from the values loaded from each domain's file, in
    /// registry order: the readings value first, the sources value second.
    /// A set of values that does not line up with the registry is the
    /// startup-time invariant violation.
    pub fn startup(values: Vec<JsonValue>) -> (r: Result<StateStore, StoreError>)
        ensures
            values@.len() == 2 ==> (r matches Ok(s) && wf_store(s@) && s@[0].value
                == values@[0]@ && s@[1].value == values@[1]@),
            values@.len() != 2 ==> (r matches Err(e) && e == StoreError::MissingDomain),
    {
        let mut reg = get_state_keys();
        let mut vals = values;
        if vals.len() != reg.len() {
            return Err(StoreError::MissingDomain);
        }
        let v1 = match vals.pop() {
            Some(v) => v,
            None => {
                return Err(StoreError::MissingDomain);
            },
        };
        let v0 = match vals.pop() {
            Some(v) => v,
            None => {
                return Err(StoreError::MissingDomain);
            },
        };
        let r1 = match reg.pop() {
            Some(e) => e,
            None => {
                return Err(StoreError::MissingDomain);
            },
        };
        let r0 = match reg.pop() {
            Some(e) => e,
            None => {
                return Err(StoreError::MissingDomain);
            },
        };
        let mut entries: Vec<DomainEntry> = Vec::new();
        entries.push(DomainEntry { name: r0.name, transform: r0.transform, value: v0 });
        entries.push(DomainEntry { name: r1.name, transform: r1.transform, value: v1 });
        let s = StateStore { entries };
        proof {
            assert(s@.len() == 2);
        }
        Ok(s)
    }

    /// Computes one dispatch without touching the store: looks up each
    /// domain's transformation, applies it to the domain's current value
    /// with the event and the payload (the empty string if none was
    /// supplied), and collects the new values, the file each domain owes,
    /// and the snapshot. The first domain whose transformation fails fails
    /// the whole dispatch, and the store is left exactly as it was.
    ///
    /// A domain without a registry entry cannot arise here: every domain
    /// carries its transformation from startup, so the missing-domain
    /// failure is confined to startup, where it belongs.
    pub fn dispatch(&self, event: &str, payload: Option<&str>) -> (r: Result<
        DispatchPlan,
        StoreError,
    >)
        ensures
            r matches Ok(p) ==> dispatch_ok(self@, event@, payload_view(payload), p@),
            (forall|i: int|
                0 <= i < self@.len() ==> #[trigger] domain_ok(
                    self@[i].transform,
                    self@[i].value,
                    event@,
                    payload_view(payload),
                )) ==> r is Ok,
            r matches Err(e) ==> e == StoreError::Parse && (exists|i: int|
                0 <= i < self@.len() && !(#[trigger] domain_ok(
                    self@[i].transform,
                    self@[i].value,
                    event@,
                    payload_view(payload),
                )) && (forall|j: int|
                    0 <= j < i ==> domain_ok(
                        self@[j].transform,
                        self@[j].value,
                        event@,
                        payload_view(payload),
                    ))),
    {
        let pl: &str = match payload {
            Some(p) => p,
            None => "",
        };
        proof {
            reveal_strlit("");
            assert(pl@ =~= payload_view(payload));
        }
        let mut new_values: Vec<JsonValue> = Vec::new();
        let mut files: Vec<FileWrite> = Vec::new();
        let mut snap_entries: Vec<(String, JsonValue)> = Vec::new();
        let mut i: usize = 0;
        while i < self.entries.len()
            invariant
                i <= self.entries@.len(),
                pl@ == payload_view(payload),
                new_values@.len() == i,
                files@.len() == i,
                snap_entries@.len() == i,
                forall|j: int|
                    0 <= j < i ==> apply_rel(
                        self@[j].transform,
                        self@[j].value,
                        event@,
                        pl@,
                        Ok(#[trigger] new_values@[j]@),
                    ),
                forall|j: int|
                    0 <= j < i ==> #[trigger] domain_ok(
                        self@[j].transform,
                        self@[j].value,
                        event@,
                        pl@,
                    ),
                forall|j: int|
                    0 <= j < i ==> (#[trigger] files@[j])@.0 == self@[j].name + ".json"@
                        && files@[j]@.1 == text_of(new_values@[j]@),
                forall|j: int|
                    0 <= j < i ==> (#[trigger] snap_entries@[j]).0@ == self@[j].name
                        && snap_entries@[j].1@ == new_values@[j]@,
            decreases self.entries@.len() - i,
        {
            let e = &self.entries[i];
            let nv = match e.transform.apply(&e.value, event, pl) {
                Ok(v) => v,
                Err(err) => {
                    proof {
                        assert(apply_rel(
                            self@[i as int].transform,
                            self@[i as int].value,
                            event@,
                            payload_view(payload),
                            Err(err),
                        ));
                        lemma_apply_rel_cases(
                            self@[i as int].transform,
                            self@[i as int].value,
                            event@,
                            payload_view(payload),
                            Err(err),
                        );
                        assert(!domain_ok(
                            self@[i as int].transform,
                            self@[i as int].value,
                            event@,
                            payload_view(payload),
                        ));
                        assert(err == StoreError::Parse);
                    }
                    return Err(err);
                },
            };
            proof {
                lemma_apply_rel_cases(
                    self@[i as int].transform,
                    self@[i as int].value,
                    event@,
                    payload_view(payload),
                    Ok(nv@),
                );
            }
            let fname = e.name.clone().concat(".json");
            let content = render(&nv);
            files.push(FileWrite { name: fname, content });
            snap_entries.push((e.name.clone(), jclone(&nv)));
            new_values.push(nv);
            i = i + 1;
        }
        let snap_value = JsonValue::Obj(snap_entries);
        let snapshot = render(&snap_value);
        let plan = DispatchPlan { new_values, files, snapshot };
        proof {
            lemma_jmodel_entries(snap_value->Obj_0@);
            let sm = snapshot_model(self@, plan@.new_values)->Obj_0;
            let jm = jmodel_entries(snap_value->Obj_0@);
            assert(jm.len() == sm.len());
            assert(forall|j: int| 0 <= j < sm.len() ==> #[trigger] sm[j] == (
                self@[j].name,
                plan@.new_values[j],
            ));
            assert forall|j: int| 0 <= j < jm.len() implies #[trigger] jm[j] == sm[j] by {
                assert(jm[j] == (snap_value->Obj_0@[j].0@, jmodel(snap_value->Obj_0@[j].1)));
            }
            assert(jm =~= sm);
            assert(jmodel(snap_value) == snapshot_model(self@, plan@.new_values));
            assert(dispatch_ok(self@, event@, payload_view(payload), plan@));
        }
        Ok(plan)
    }

    /// Replaces the live values with a plan's new values in one step; names
    /// and transformations stay as they are. A plan for a different number
    /// of domains is refused and the store is left untouched.
    #[verifier::loop_isolation(false)]
    pub fn commit(&mut self, plan: DispatchPlan) -> (r: Result<(), StoreError>)
        ensures
            plan@.new_values.len() == old(self)@.len() ==> (r matches Ok(u)
                && final(self)@.len() == old(self)@.len()
                && (forall|i: int| 0 <= i < old(self)@.len()
                    ==> (#[trigger] final(self)@[i]).name == old(self)@[i].name
                        && final(self)@[i].transform == old(self)@[i].transform
                        && final(self)@[i].value == plan@.new_values[i])),
            plan@.new_values.len() != old(self)@.len() ==> (r matches Err(e)
                && e == StoreError::MissingDomain && final(self)@ == old(self)@),
    {
        if plan.new_values.len() != self.entries.len() {
            proof {
                assert(self@ =~= old(self)@);
            }
            return Err(StoreError::MissingDomain);
        }
        let ghost planm = plan@;
        let mut vals = plan.new_values;
        let mut i: usize = self.entries.len();
        while i > 0
            invariant
                i <= self.entries@.len(),
                self.entries@.len() == old(self).entries@.len(),
                vals@.len() == i,
                forall|j: int| 0 <= j < i ==> vals@[j]@ == planm.new_values[j],
                forall|j: int| 0 <= j < i ==> #[trigger] self.entries@[j] == old(self).entries@[j],
                forall|j: int|
                    i <= j < self.entries@.len() ==> (#[trigger] self.entries@[j]).name@ == old(
                        self,
                    ).entries@[j].name@ && self.entries@[j].transform == old(
                        self,
                    ).entries@[j].transform && jmodel(self.entries@[j].value)
                        == planm.new_values[j],
            decreases i,
        {
            i = i - 1;
            let v = match vals.pop() {
                Some(v) => v,
                None => {
                    return Err(StoreError::MissingDomain);
                },
            };
            let name = self.entries[i].name.clone();
            let transform = self.entries[i].transform;
            self.entries[i] = DomainEntry { name, transform, value: v };
        }
        proof {
            assert forall|j: int| 0 <= j < old(self)@.len() implies (#[trigger] self@[j]).name
                == old(self)@[j].name && self@[j].transform == old(self)@[j].transform
                && self@[j].value == planm.new_values[j] by {
                assert(self@[j] == self.entries@[j]@);
                assert(old(self)@[j] == old(self).entries@[j]@);
            }
        }
        Ok(())
    }
}

/// An event no transformation recognizes is a safe no-op: every domain's
/// new value is its old value, and the file each domain owes holds exactly
/// the canonical text of the value it already had — the rewrite changes no
/// file's content. By the parser's two-sided contract a later reload of
/// that text always succeeds and yields a value with that very text, so a
/// restart reproduces a map that serializes identically.
pub proof fn lemma_unknown_event_is_noop(
    s: Seq<DomainModel>,
    ev: Seq<char>,
    pl: Seq<char>,
    p: PlanModel,
)
    requires
        dispatch_ok(s, ev, pl, p),
        ev != "add_source"@,
        ev != "add_reading"@,
    ensures
        forall|i: int| 0 <= i < s.len() ==> #[trigger] p.new_values[i] == s[i].value,
        forall|i: int| 0 <= i < s.len() ==> (#[trigger] p.files[i]).1 == text_of(s[i].value),
        p.snapshot == text_of(snapshot_model(s, p.new_values)),
{
    assert forall|i: int| 0 <= i < s.len() implies #[trigger] p.new_values[i] == s[i].value by {
        assert(apply_rel(s[i].transform, s[i].value, ev, pl, Ok(p.new_values[i])));
    }
}

/// Two dispatches in sequence whose events touch disjoint domains keep
/// both updates: the first event's sources update survives the second
/// dispatch untouched, and the second event's readings update applies to
/// the very readings value the first dispatch left alone — neither update
/// is lost. This is what a caller gets by running each whole dispatch
/// inside one exclusive critical section.
pub proof fn lemma_disjoint_dispatches_keep_both(
    s0: Seq<DomainModel>,
    e1: Seq<char>,
    p1: Seq<char>,
    plan1: PlanModel,
    s1: Seq<DomainModel>,
    e2: Seq<char>,
    p2: Seq<char>,
    plan2: PlanModel,
)
    requires
        wf_store(s0),
        dispatch_ok(s0, e1, p1, plan1),
        s1.len() == s0.len(),
        forall|i: int|
            0 <= i < s0.len() ==> (#[trigger] s1[i]).name == s0[i].name && s1[i].transform
                == s0[i].transform && s1[i].value == plan1.new_values[i],
        dispatch_ok(s1, e2, p2, plan2),
        e1 != "add_reading"@,
        e2 != "add_source"@,
    ensures
        plan2.new_values[1] == plan1.new_values[1],
        plan1.new_values[0] == s0[0].value,
        apply_rel(Transform::Readings, s0[0].value, e2, p2, Ok(plan2.new_values[0])),
{
    assert(apply_rel(s0[0].transform, s0[0].value, e1, p1, Ok(plan1.new_values[0])));
    assert(apply_rel(s1[1].transform, s1[1].value, e2, p2, Ok(plan2.new_values[1])));
    assert(apply_rel(s1[0].transform, s1[0].value, e2, p2, Ok(plan2.new_values[0])));
}

} // verus!
