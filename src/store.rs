//! The record store: profiles and health records in two stable maps, identifiers from one
//! persisted counter shared by both kinds.
use vstd::prelude::*;
use crate::classify::{
    analyze_health_status, calculate_pregnancy_stage, health_status_spec, lowered_all,
    stage_for_weeks, strings_view, trim_of, trimmed, weeks_until, HealthStatus,
};
use crate::codec::{list_fits, text_fits, texts_view};
use crate::records::{
    decode_profile, decode_record, enc_profile, enc_record, encode_profile, encode_record,
    encodes_profile, encodes_record, profile_fits, record_fits, HealthRecord, MotherProfile,
    ProfileView, RecordView, MAX_VALUE_BYTES,
};
use crate::stable::{
    cell_get, cell_init, cell_reload, cell_set, cell_value, default_memory, keys_ascending, lists_entries,
    manager_init, map_contains, map_entries, map_entries_ascending, map_get, map_init, map_insert, map_reload,
    region, Backing, ByteMap, IdCell,
};
use crate::codec::{list_ok, text_ok};
use crate::text::chars_of;

verus! {

/// Why a request failed.
#[derive(Clone, Debug)]
pub enum Error {
    NotFound { msg: String },
    InvalidInput { msg: String },
    SystemError { msg: String },
    AuthorizationError { msg: String },
    ValidationError { msg: String },
}

/// What a caller gives to create a profile.
#[derive(Clone, Debug)]
pub struct MotherProfilePayload {
    pub name: String,
    pub age: u8,
    pub blood_type: String,
    pub expected_delivery_date: u64,
    pub medical_history: Vec<String>,
    pub emergency_contact: String,
}

/// What a caller gives to add a health record. Weight is in grams.
#[derive(Clone, Debug)]
pub struct HealthRecordPayload {
    pub mother_id: u64,
    pub blood_pressure: String,
    pub weight_grams: u32,
    pub symptoms: Vec<String>,
    pub notes: String,
    pub next_appointment: u64,
}

/// The eight accepted blood types.
pub open spec fn blood_types() -> Seq<Seq<char>> {
    seq!["A+"@, "A-"@, "B+"@, "B-"@, "AB+"@, "AB-"@, "O+"@, "O-"@]
}

/// A profile payload that may be stored at time `now`.
pub open spec fn valid_profile_payload(p: MotherProfilePayload, now: u64) -> bool {
    &&& 13 <= p.age <= 65
    &&& blood_types().contains(p.blood_type@)
    &&& p.expected_delivery_date > now
    &&& trim_of(p.emergency_contact@).len() > 0
}

/// All profiles and records, their identifiers, and the shared counter.
pub struct Store {
    memory: Backing,
    ids: IdCell,
    profiles: ByteMap,
    records: ByteMap,
    profile_model: Ghost<Map<u64, ProfileView>>,
    record_model: Ghost<Map<u64, RecordView>>,
}

impl Store {
    /// The value of the identifier counter: the last identifier handed out.
    pub closed spec fn counter(&self) -> u64 {
        cell_value(self.ids)
    }

    /// The stored profiles, by identifier.
    pub closed spec fn profiles(&self) -> Map<u64, ProfileView> {
        self.profile_model@
    }

    /// The stored health records, by identifier.
    pub closed spec fn records(&self) -> Map<u64, RecordView> {
        self.record_model@
    }

    /// Every stored value is the encoding of the modelled one and sits under its own identifier,
    /// which the counter has passed; no identifier names both a profile and a record; every
    /// record names a stored profile.
    pub closed spec fn wf(&self) -> bool {
        let pm = map_entries(self.profiles);
        let rm = map_entries(self.records);
        let pv = self.profile_model@;
        let rv = self.record_model@;
        &&& pm.dom() == pv.dom()
        &&& rm.dom() == rv.dom()
        &&& pv.dom().finite()
        &&& rv.dom().finite()
        &&& forall|k: u64| #[trigger]
            pm.contains_key(k) ==> {
                &&& k <= cell_value(self.ids)
                &&& !rm.contains_key(k)
                &&& encodes_profile(pm[k], pv[k])
                &&& pv[k].id == k
            }
        &&& forall|k: u64| #[trigger]
            rm.contains_key(k) ==> {
                &&& k <= cell_value(self.ids)
                &&& encodes_record(rm[k], rv[k])
                &&& rv[k].id == k
                &&& pm.contains_key(rv[k].mother_id)
            }
    }

    /// Both maps, their models and the memory are those of `o`.
    /// The memory that the store lives in.
    pub closed spec fn memory(&self) -> Backing {
        self.memory
    }

    pub closed spec fn same_maps(&self, o: Store) -> bool {
        &&& self.profiles == o.profiles
        &&& self.records == o.records
        &&& self.memory == o.memory
        &&& self.profile_model == o.profile_model
        &&& self.record_model == o.record_model
    }

    /// The store on the host's memory: whatever an earlier run left there is read back and
    /// checked, and an empty memory gives an empty store.
    pub fn new() -> (r: Result<Store, Error>)
        ensures
            r matches Ok(s) ==> s.wf(),
            r is Err ==> r matches Err(Error::SystemError { .. }),
    {
        Store::attach(default_memory())
    }

    /// This store read back from memory, as after a restart: the counter and both maps are
    /// re-read from their regions and checked. The old handles are given up, so no two stores
    /// work on one region. A well-formed store comes back with the same contents.
    pub fn reopen(self) -> (r: Result<Store, Error>)
        ensures
            r matches Ok(s) ==> s.wf(),
            r is Err ==> r matches Err(Error::SystemError { .. }),
            self.wf() ==> (r matches Ok(s) && s.profiles() == self.profiles() && s.records()
                == self.records() && s.counter() == self.counter()),
    {
        let ghost old_self = self;
        let Store { memory, ids, profiles, records, profile_model, record_model } = self;
        let ids = match cell_reload(ids) {
            Ok(c) => c,
            Err(_) => {
                return Err(Error::SystemError { msg: "cannot reopen the id counter".to_owned() });
            },
        };
        let profiles = map_reload(profiles);
        let records = map_reload(records);
        proof {
            if old_self.wf() {
                let pm = map_entries(profiles);
                let rm = map_entries(records);
                assert forall|k: u64| #[trigger] pm.contains_key(k) implies k <= cell_value(ids)
                    && !rm.contains_key(k) && exists|p: ProfileView| encodes_profile(pm[k], p)
                    && p.id == k by {
                    assert(encodes_profile(pm[k], profile_model@[k]));
                }
                assert forall|k: u64| #[trigger] rm.contains_key(k) implies k <= cell_value(ids)
                    && exists|r: RecordView| encodes_record(rm[k], r) && r.id == k
                    && pm.contains_key(r.mother_id) by {
                    assert(encodes_record(rm[k], record_model@[k]));
                }
            }
        }
        let r = Store::from_parts(memory, ids, profiles, records);
        proof {
            if old_self.wf() {
                let s = r->Ok_0;
                assert(s.profiles() =~= old_self.profiles());
                assert(s.records() =~= old_self.records());
            }
        }
        r
    }

    fn attach(memory: Backing) -> (r: Result<Store, Error>)
        ensures
            r matches Ok(s) ==> s.wf() && s.memory() == memory,
            r is Err ==> r matches Err(Error::SystemError { .. }),
    {
        let manager = manager_init(&memory);
        let ids = match cell_init(region(&manager, COUNTER_REGION), 0) {
            Ok(c) => c,
            Err(_) => {
                return Err(Error::SystemError { msg: "cannot open the id counter".to_owned() });
            },
        };
        let profiles = map_init(region(&manager, PROFILE_REGION));
        let records = map_init(region(&manager, RECORD_REGION));
        Store::from_parts(memory, ids, profiles, records)
    }

    /// A store over a loaded counter and maps, accepted exactly when they hold together: every
    /// value encodes a profile or record under its own identifier, the counter has passed every
    /// identifier, no identifier is used twice, every record names a stored profile.
    pub fn from_parts(memory: Backing, ids: IdCell, profiles: ByteMap, records: ByteMap) -> (r:
        Result<Store, Error>)
        ensures
            r is Ok <==> consistent(map_entries(profiles), map_entries(records), cell_value(ids)),
            r is Err ==> r matches Err(Error::SystemError { .. }),
            r matches Ok(s) ==> {
                &&& s.wf()
                &&& s.memory() == memory
                &&& s.counter() == cell_value(ids)
                &&& s.profiles().dom() == map_entries(profiles).dom()
                &&& s.records().dom() == map_entries(records).dom()
                &&& forall|k: u64| #[trigger] s.profiles().contains_key(k) ==> encodes_profile(
                    map_entries(profiles)[k],
                    s.profiles()[k],
                )
                &&& forall|k: u64, p: ProfileView| s.profiles().contains_key(k) && #[trigger]
                    encodes_profile(map_entries(profiles)[k], p) ==> s.profiles()[k] == p
                &&& forall|k: u64, q: RecordView| s.records().contains_key(k) && #[trigger]
                    encodes_record(map_entries(records)[k], q) ==> s.records()[k] == q
                &&& forall|k: u64| #[trigger] s.records().contains_key(k) ==> encodes_record(
                    map_entries(records)[k],
                    s.records()[k],
                )
            },
    {
        let counter = cell_get(&ids);
        let ghost pm = map_entries(profiles);
        let ghost rm = map_entries(records);
        let pentries = map_entries_ascending(&profiles);
        let ghost mut pmodel: Map<u64, ProfileView> = Map::empty();
        let mut i: usize = 0;
        while i < pentries.len()
            invariant
                pm == map_entries(profiles),
                rm == map_entries(records),
                counter == cell_value(ids),
                lists_entries(pentries@, pm),
                i <= pentries@.len(),
                pmodel.dom().finite(),
                forall|k: u64| #[trigger] pmodel.contains_key(k) ==> exists|j: int| 0 <= j < i && pentries@[j].0 == k,
                forall|j: int| 0 <= j < i ==> pmodel.contains_key(#[trigger] pentries@[j].0),
                forall|k: u64, q: ProfileView| pmodel.contains_key(k) && #[trigger] encodes_profile(pm[k], q) ==> pmodel[k] == q,
                forall|k: u64| #[trigger] pmodel.contains_key(k) ==> {
                    &&& pm.contains_key(k)
                    &&& k <= counter
                    &&& !rm.contains_key(k)
                    &&& encodes_profile(pm[k], pmodel[k])
                    &&& pmodel[k].id == k
                },
            decreases pentries@.len() - i,
        {
            let key = pentries[i].0;
            assert(pm.contains_key(key) && pm[key] == pentries@[i as int].1@);
            let p = match decode_profile(pentries[i].1.as_slice()) {
                Some(p) => p,
                None => {
                    assert(!consistent(pm, rm, counter)) by {
                        if consistent(pm, rm, counter) {
                            assert(pm.contains_key(key));
                        }
                    }
                    return Err(Error::SystemError { msg: "stored profile is corrupt".to_owned() });
                },
            };
            if p.id != key || key > counter || map_contains(&records, key) {
                assert(!consistent(pm, rm, counter)) by {
                    if consistent(pm, rm, counter) {
                        assert(pm.contains_key(key));
                    }
                }
                return Err(Error::SystemError { msg: "stored profiles are inconsistent".to_owned() });
            }
            proof {
                pmodel = pmodel.insert(key, p@);
            }
            i = i + 1;
        }
        proof {
            assert forall|k: u64| #[trigger] pm.contains_key(k) implies pmodel.contains_key(k) by {
                let j = choose|j: int| 0 <= j < pentries@.len() && pentries@[j].0 == k;
            }
            assert(pm.dom() =~= pmodel.dom());
        }
        let rentries = map_entries_ascending(&records);
        let ghost mut rmodel: Map<u64, RecordView> = Map::empty();
        let mut i: usize = 0;
        while i < rentries.len()
            invariant
                pm == map_entries(profiles),
                rm == map_entries(records),
                pm.dom() == pmodel.dom(),
                forall|k: u64, q: ProfileView| pmodel.contains_key(k) && #[trigger] encodes_profile(pm[k], q) ==> pmodel[k] == q,
                forall|k: u64| #[trigger] pmodel.contains_key(k) ==> encodes_profile(pm[k], pmodel[k]) && pmodel[k].id == k && k <= counter && !rm.contains_key(k),
                pmodel.dom().finite(),
                counter == cell_value(ids),
                lists_entries(rentries@, rm),
                i <= rentries@.len(),
                rmodel.dom().finite(),
                forall|k: u64| #[trigger] rmodel.contains_key(k) ==> exists|j: int| 0 <= j < i && rentries@[j].0 == k,
                forall|j: int| 0 <= j < i ==> rmodel.contains_key(#[trigger] rentries@[j].0),
                forall|k: u64, q: RecordView| rmodel.contains_key(k) && #[trigger] encodes_record(rm[k], q) ==> rmodel[k] == q,
                forall|k: u64| #[trigger] rmodel.contains_key(k) ==> {
                    &&& rm.contains_key(k)
                    &&& k <= counter
                    &&& encodes_record(rm[k], rmodel[k])
                    &&& rmodel[k].id == k
                    &&& pm.contains_key(rmodel[k].mother_id)
                },
            decreases rentries@.len() - i,
        {
            let key = rentries[i].0;
            assert(rm.contains_key(key) && rm[key] == rentries@[i as int].1@);
            let rec = match decode_record(rentries[i].1.as_slice()) {
                Some(rec) => rec,
                None => {
                    assert(!consistent(pm, rm, counter)) by {
                        if consistent(pm, rm, counter) {
                            assert(rm.contains_key(key));
                        }
                    }
                    return Err(Error::SystemError { msg: "stored record is corrupt".to_owned() });
                },
            };
            if rec.id != key || key > counter || !map_contains(&profiles, rec.mother_id) {
                assert(!consistent(pm, rm, counter)) by {
                    if consistent(pm, rm, counter) {
                        assert(rm.contains_key(key));
                    }
                }
                return Err(Error::SystemError { msg: "stored records are inconsistent".to_owned() });
            }
            proof {
                rmodel = rmodel.insert(key, rec@);
            }
            i = i + 1;
        }
        proof {
            assert forall|k: u64| #[trigger] rm.contains_key(k) implies rmodel.contains_key(k) by {
                let j = choose|j: int| 0 <= j < rentries@.len() && rentries@[j].0 == k;
            }
            assert(rm.dom() =~= rmodel.dom());
            assert forall|k: u64| #[trigger] pm.contains_key(k) implies k <= counter && !rm.contains_key(k)
                && exists|p: ProfileView| encodes_profile(pm[k], p) && p.id == k by {
                assert(pmodel.contains_key(k));
            }
            assert forall|k: u64| #[trigger] rm.contains_key(k) implies k <= counter && exists|
                r: RecordView,
            | encodes_record(rm[k], r) && r.id == k && pm.contains_key(r.mother_id) by {
                assert(rmodel.contains_key(k));
            }
        }
        Ok(
            Store {
                memory,
                ids,
                profiles,
                records,
                profile_model: Ghost(pmodel),
                record_model: Ghost(rmodel),
            },
        )
    }

    /// Hands out the next identifier: the counter plus one, persisted before it is returned.
    pub fn generate_new_id(&mut self) -> (r: Result<u64, Error>)
        ensures
            final(self).same_maps(*old(self)),
            final(self).profiles() == old(self).profiles(),
            final(self).records() == old(self).records(),
            old(self).wf() ==> final(self).wf(),
            r matches Ok(id) ==> id == old(self).counter() + 1 && final(self).counter() == id,
            r is Err ==> final(self).counter() == old(self).counter() && r matches Err(
                Error::SystemError { .. },
            ),
            r is Err <==> old(self).counter() == u64::MAX,
    {
        let current = cell_get(&self.ids);
        if current == u64::MAX {
            return Err(Error::SystemError { msg: "identifier space exhausted".to_owned() });
        }
        match cell_set(&mut self.ids, current + 1) {
            Ok(_) => Ok(current + 1),
            Err(_) => Err(Error::SystemError { msg: "failed to increment id counter".to_owned() }),
        }
    }

    /// The stored profile under `id`, if any.
    pub fn get_mother_profile(&self, id: u64) -> (r: Result<MotherProfile, Error>)
        requires
            self.wf(),
        ensures
            r matches Ok(p) ==> self.profiles().contains_key(id) && p@ == self.profiles()[id],
            r is Err ==> !self.profiles().contains_key(id) && r matches Err(Error::NotFound { .. }),
    {
        match map_get(&self.profiles, id) {
            Some(bytes) => {
                assert(map_entries(self.profiles).contains_key(id));
                match decode_profile(bytes.as_slice()) {
                    Some(p) => Ok(p),
                    None => Err(Error::SystemError { msg: "stored profile is corrupt".to_owned() }),
                }
            },
            None => Err(Error::NotFound { msg: "mother not found".to_owned() }),
        }
    }

    /// Creates a profile from a payload at time `now`: checks the payload, takes a new
    /// identifier, derives the stage from the delivery date, and stores the profile with status
    /// `Normal`.
    pub fn create_mother_profile(&mut self, payload: MotherProfilePayload, now: u64) -> (r: Result<
        MotherProfile,
        Error,
    >)
        requires
            old(self).wf(),
        ensures
            final(self).wf(),
            !valid_profile_payload(payload, now) ==> r matches Err(Error::InvalidInput { .. }),
            valid_profile_payload(payload, now) && stored_size_ok(payload, now) && old(self).counter()
                < u64::MAX ==> r is Ok,
            r matches Err(Error::SystemError { .. }) ==> old(self).counter() == u64::MAX,
            r matches Err(Error::InvalidInput { .. }) <==> !valid_profile_payload(payload, now)
                || !stored_size_ok(payload, now),
            r matches Ok(p) ==> {
                &&& p@ == new_profile(payload, p.id, now)
                &&& p.id == old(self).counter() + 1
                &&& final(self).counter() == p.id
                &&& !old(self).profiles().contains_key(p.id)
                &&& !old(self).records().contains_key(p.id)
                &&& final(self).profiles() == old(self).profiles().insert(p.id, p@)
                &&& final(self).records() == old(self).records()
            },
            r is Err ==> final(self).profiles() == old(self).profiles() && final(self).records()
                == old(self).records() && final(self).counter() == old(self).counter(),
            final(self).counter() >= old(self).counter(),
    {
        match validate_mother_profile(&payload, now) {
            Ok(()) => {},
            Err(e) => {
                return Err(e);
            },
        }
        if !(text_ok(&payload.name) && text_ok(&payload.blood_type) && list_ok(
            &payload.medical_history,
        ) && text_ok(&payload.emergency_contact)) {
            return Err(Error::InvalidInput { msg: "profile too large to store".to_owned() });
        }
        let stage = calculate_pregnancy_stage(payload.expected_delivery_date, now);
        let mut profile = MotherProfile {
            id: 0,
            name: payload.name,
            age: payload.age,
            blood_type: payload.blood_type,
            expected_delivery_date: payload.expected_delivery_date,
            stage,
            health_status: HealthStatus::Normal,
            created_at: now,
            last_checkup: now,
            medical_history: payload.medical_history,
            emergency_contact: payload.emergency_contact,
        };
        assert(profile@ == new_profile(payload, 0, now));
        if encode_profile(&profile).len() > MAX_VALUE_BYTES {
            return Err(Error::InvalidInput { msg: "profile too large to store".to_owned() });
        }
        let id = match self.generate_new_id() {
            Ok(id) => id,
            Err(e) => {
                return Err(e);
            },
        };
        profile.id = id;
        let bytes = encode_profile(&profile);
        map_insert(&mut self.profiles, id, bytes);
        proof {
            self.profile_model@ = self.profile_model@.insert(id, profile@);
            assert(map_entries(self.profiles).dom() =~= self.profile_model@.dom());
        }
        Ok(profile)
    }

    /// Sets the status and last checkup time of the profile under `mother_id`.
    pub fn update_mother_status(&mut self, mother_id: u64, status: HealthStatus, now: u64) -> (r:
        Result<(), Error>)
        requires
            old(self).wf(),
        ensures
            final(self).wf(),
            final(self).counter() == old(self).counter(),
            final(self).records() == old(self).records(),
            r is Ok <==> old(self).profiles().contains_key(mother_id),
            final(self).profiles().dom() == old(self).profiles().dom(),
            r is Err ==> final(self).profiles() == old(self).profiles() && r matches Err(
                Error::NotFound { .. },
            ),
            r is Ok ==> final(self).profiles() == old(self).profiles().insert(
                mother_id,
                with_checkup(old(self).profiles()[mother_id], status, now),
            ),
    {
        let mut profile = match self.get_mother_profile(mother_id) {
            Ok(p) => p,
            Err(e) => {
                return Err(e);
            },
        };
        profile.health_status = status;
        profile.last_checkup = now;
        assert(profile@ == with_checkup(self.profiles()[mother_id], status, now));
        let bytes = encode_profile(&profile);
        map_insert(&mut self.profiles, mother_id, bytes);
        proof {
            self.profile_model@ = self.profile_model@.insert(mother_id, profile@);
            assert(map_entries(self.profiles).dom() =~= self.profile_model@.dom());
        }
        Ok(())
    }

    /// Adds a health record at time `now` for an existing mother: classifies the checkup, takes
    /// a new identifier, stores the record with that status, and sets the mother's status and
    /// last checkup. A record for an unknown mother is refused before any identifier is taken.
    pub fn add_health_record(&mut self, payload: HealthRecordPayload, now: u64) -> (r: Result<
        HealthRecord,
        Error,
    >)
        requires
            old(self).wf(),
        ensures
            final(self).wf(),
            !old(self).profiles().contains_key(payload.mother_id) ==> {
                &&& r matches Err(Error::NotFound { .. })
                &&& final(self).counter() == old(self).counter()
            },
            r matches Err(Error::InvalidInput { .. }) <==> old(self).profiles().contains_key(
                payload.mother_id,
            ) && !record_size_ok(payload, now),
            old(self).profiles().contains_key(payload.mother_id) && record_size_ok(payload, now)
                && old(self).counter() < u64::MAX ==> r is Ok,
            r matches Err(Error::SystemError { .. }) ==> old(self).counter() == u64::MAX,
            r matches Ok(rec) ==> {
                &&& rec@ == new_record(payload, rec.id, now)
                &&& rec.id == old(self).counter() + 1
                &&& final(self).counter() == rec.id
                &&& !old(self).profiles().contains_key(rec.id)
                &&& !old(self).records().contains_key(rec.id)
                &&& final(self).records() == old(self).records().insert(rec.id, rec@)
                &&& final(self).profiles() == old(self).profiles().insert(
                    payload.mother_id,
                    with_checkup(old(self).profiles()[payload.mother_id], rec.health_status, now),
                )
            },
            r is Err ==> final(self).profiles() == old(self).profiles() && final(self).records()
                == old(self).records() && final(self).counter() == old(self).counter(),
            final(self).counter() >= old(self).counter(),
    {
        if !map_contains(&self.profiles, payload.mother_id) {
            return Err(Error::NotFound { msg: "mother not found".to_owned() });
        }
        if !(text_ok(&payload.blood_pressure) && list_ok(&payload.symptoms) && text_ok(
            &payload.notes,
        )) {
            return Err(Error::InvalidInput { msg: "record too large to store".to_owned() });
        }
        let status = analyze_health_status(
            payload.blood_pressure.as_str(),
            payload.weight_grams,
            &payload.symptoms,
        );
        let mother_id = payload.mother_id;
        let mut record = HealthRecord {
            id: 0,
            mother_id: payload.mother_id,
            date: now,
            blood_pressure: payload.blood_pressure,
            weight_grams: payload.weight_grams,
            symptoms: payload.symptoms,
            notes: payload.notes,
            next_appointment: payload.next_appointment,
            health_status: status,
        };
        assert(record@ == new_record(payload, 0, now));
        if encode_record(&record).len() > MAX_VALUE_BYTES {
            return Err(Error::InvalidInput { msg: "record too large to store".to_owned() });
        }
        let id = match self.generate_new_id() {
            Ok(id) => id,
            Err(e) => {
                return Err(e);
            },
        };
        record.id = id;
        let bytes = encode_record(&record);
        match self.update_mother_status(mother_id, status, now) {
            Ok(()) => {},
            Err(e) => {
                return Err(e);
            },
        }
        map_insert(&mut self.records, id, bytes);
        proof {
            self.record_model@ = self.record_model@.insert(id, record@);
            assert(map_entries(self.records).dom() =~= self.record_model@.dom());
        }
        Ok(record)
    }

    /// The stored profiles whose status is `Critical`, in ascending identifier order.
    pub fn get_critical_cases(&self) -> (r: Vec<MotherProfile>)
        requires
            self.wf(),
        ensures
            lists_critical(profiles_view(r@), self.profiles()),
    {
        let entries = map_entries_ascending(&self.profiles);
        let ghost m = self.profiles();
        let ghost pm = map_entries(self.profiles);
        let mut out: Vec<MotherProfile> = Vec::new();
        let mut i: usize = 0;
        while i < entries.len()
            invariant
                self.wf(),
                m == self.profiles(),
                pm == map_entries(self.profiles),
                keys_ascending(entries@),
                lists_entries(entries@, pm),
                i <= entries@.len(),
                forall|a: int, b: int| 0 <= a < b < out@.len() ==> out@[a].id < out@[b].id,
                i < entries@.len() ==> forall|a: int|
                    0 <= a < out@.len() ==> out@[a].id < entries@[i as int].0,
                forall|a: int|
                    0 <= a < out@.len() ==> #[trigger] m.contains_key(out@[a].id) && m[out@[a].id]
                        == out@[a]@ && is_critical(out@[a]@),
                forall|j: int|
                    0 <= j < i && is_critical(m[#[trigger] entries@[j].0]) ==> exists|a: int|
                        0 <= a < out@.len() && out@[a].id == entries@[j].0,
            decreases entries@.len() - i,
        {
            let key = entries[i].0;
            assert(pm.contains_key(key));
            assert(encodes_profile(pm[key], m[key]));
            let ghost before = out@;
            match decode_profile(entries[i].1.as_slice()) {
                Some(p) => {
                    assert(p@ == m[key]);
                    if p.health_status == HealthStatus::Critical {
                        out.push(p);
                        assert(out@[out@.len() - 1].id == key);
                    }
                },
                None => {},
            }
            assert forall|a: int| 0 <= a < out@.len() implies #[trigger] m.contains_key(out@[a].id)
                && m[out@[a].id] == out@[a]@ && is_critical(out@[a]@) by {
                if a < before.len() {
                    assert(out@[a] == before[a]);
                    assert(m.contains_key(before[a].id));
                }
            }
            assert forall|j: int|
                0 <= j <= i && is_critical(m[#[trigger] entries@[j].0]) implies exists|a: int|
                0 <= a < out@.len() && out@[a].id == entries@[j].0 by {
                if j < i {
                    let a = choose|a: int| 0 <= a < before.len() && before[a].id == entries@[j].0;
                    assert(out@[a] == before[a]);
                }
            }
            if i + 1 < entries.len() {
                assert(entries@[i as int].0 < entries@[i + 1].0);
            }
            i = i + 1;
        }
        proof {
            assert forall|k: u64| #[trigger] m.contains_key(k) && is_critical(m[k]) implies exists|
                a: int,
            | 0 <= a < out@.len() && out@[a].id == k by {
                assert(pm.contains_key(k));
                let j = choose|j: int| 0 <= j < entries@.len() && entries@[j].0 == k;
                assert(is_critical(m[entries@[j].0]));
            }
            let v = profiles_view(out@);
            assert forall|a: int| 0 <= a < v.len() implies v[a] == out@[a]@ by {}
            assert forall|a: int, b: int| 0 <= a < b < v.len() implies v[a].id < v[b].id by {
                assert(v[a] == out@[a]@);
                assert(v[b] == out@[b]@);
            }
            assert forall|a: int| 0 <= a < v.len() implies #[trigger] m.contains_key(v[a].id)
                && m[v[a].id] == v[a] && is_critical(v[a]) by {
                assert(m.contains_key(out@[a].id));
            }
            assert forall|k: u64| #[trigger] m.contains_key(k) && is_critical(m[k]) implies exists|
                a: int,
            | 0 <= a < v.len() && v[a].id == k by {
                let a = choose|a: int| 0 <= a < out@.len() && out@[a].id == k;
                assert(v[a].id == k);
            }
        }
        out
    }

    /// The health records of one mother, in ascending identifier order; `NotFound` when she has
    /// none.
    pub fn get_mother_health_records(&self, mother_id: u64) -> (r: Result<Vec<HealthRecord>, Error>)
        requires
            self.wf(),
        ensures
            r matches Ok(v) ==> v@.len() > 0 && lists_of_mother(records_view(v@), self.records(), mother_id),
            r is Err <==> !exists|k: u64| #[trigger] self.records().contains_key(k) && self.records()[k].mother_id == mother_id,
            r is Err ==> r matches Err(Error::NotFound { .. }),
    {
        let entries = map_entries_ascending(&self.records);
        let ghost m = self.records();
        let ghost rm = map_entries(self.records);
        let mut out: Vec<HealthRecord> = Vec::new();
        let mut i: usize = 0;
        while i < entries.len()
            invariant
                self.wf(),
                m == self.records(),
                rm == map_entries(self.records),
                keys_ascending(entries@),
                lists_entries(entries@, rm),
                i <= entries@.len(),
                forall|a: int, b: int| 0 <= a < b < out@.len() ==> out@[a].id < out@[b].id,
                i < entries@.len() ==> forall|a: int|
                    0 <= a < out@.len() ==> out@[a].id < entries@[i as int].0,
                forall|a: int|
                    0 <= a < out@.len() ==> #[trigger] m.contains_key(out@[a].id) && m[out@[a].id]
                        == out@[a]@ && out@[a]@.mother_id == mother_id,
                forall|j: int|
                    0 <= j < i && m[#[trigger] entries@[j].0].mother_id == mother_id ==> exists|a: int|
                        0 <= a < out@.len() && out@[a].id == entries@[j].0,
            decreases entries@.len() - i,
        {
            let key = entries[i].0;
            assert(rm.contains_key(key));
            assert(encodes_record(rm[key], m[key]));
            let ghost before = out@;
            match decode_record(entries[i].1.as_slice()) {
                Some(rec) => {
                    assert(rec@ == m[key]);
                    if rec.mother_id == mother_id {
                        out.push(rec);
                        assert(out@[out@.len() - 1].id == key);
                    }
                },
                None => {},
            }
            assert forall|a: int| 0 <= a < out@.len() implies #[trigger] m.contains_key(out@[a].id)
                && m[out@[a].id] == out@[a]@ && out@[a]@.mother_id == mother_id by {
                if a < before.len() {
                    assert(out@[a] == before[a]);
                    assert(m.contains_key(before[a].id));
                }
            }
            assert forall|j: int|
                0 <= j <= i && m[#[trigger] entries@[j].0].mother_id == mother_id implies exists|a: int|
                0 <= a < out@.len() && out@[a].id == entries@[j].0 by {
                if j < i {
                    let a = choose|a: int| 0 <= a < before.len() && before[a].id == entries@[j].0;
                    assert(out@[a] == before[a]);
                }
            }
            if i + 1 < entries.len() {
                assert(entries@[i as int].0 < entries@[i + 1].0);
            }
            i = i + 1;
        }
        let ghost v = records_view(out@);
        proof {
            assert forall|a: int| 0 <= a < v.len() implies v[a] == out@[a]@ by {}
            assert forall|a: int, b: int| 0 <= a < b < v.len() implies v[a].id < v[b].id by {
                assert(v[a] == out@[a]@);
                assert(v[b] == out@[b]@);
            }
            assert forall|a: int| 0 <= a < v.len() implies #[trigger] m.contains_key(v[a].id)
                && m[v[a].id] == v[a] && v[a].mother_id == mother_id by {
                assert(m.contains_key(out@[a].id));
            }
            assert forall|k: u64| #[trigger] m.contains_key(k) && m[k].mother_id == mother_id implies exists|
                a: int,
            | 0 <= a < v.len() && v[a].id == k by {
                assert(rm.contains_key(k));
                let j = choose|j: int| 0 <= j < entries@.len() && entries@[j].0 == k;
                assert(m[entries@[j].0].mother_id == mother_id);
                let a = choose|a: int| 0 <= a < out@.len() && out@[a].id == k;
                assert(v[a].id == k);
            }
        }
        if out.len() == 0 {
            proof {
                assert forall|k: u64| #[trigger] m.contains_key(k) implies m[k].mother_id != mother_id by {
                    if m[k].mother_id == mother_id {
                        let a = choose|a: int| 0 <= a < v.len() && v[a].id == k;
                    }
                }
            }
            return Err(Error::NotFound { msg: "no health records for this mother".to_owned() });
        }
        assert(m.contains_key(out@[0].id));
        Ok(out)
    }

    /// Pairs of profile and record for the records whose next appointment falls after `now` and
    /// before `days` days have passed (the bound saturates at the largest time), in ascending record
    /// identifier order. A record whose mother cannot be found is left out.
    #[verifier::spinoff_prover]
    #[verifier::rlimit(50)]
    pub fn get_upcoming_appointments(&self, days: u64, now: u64) -> (r: Vec<(MotherProfile, HealthRecord)>)
        requires
            self.wf(),
        ensures
            lists_upcoming(pairs_view(r@), self.records(), self.profiles(), now, horizon(now, days)),
    {
        let target = match days.checked_mul(NANOS_PER_DAY) {
            Some(span) => now.saturating_add(span),
            None => u64::MAX,
        };
        assert(target == horizon(now, days));
        let entries = map_entries_ascending(&self.records);
        let ghost m = self.records();
        let ghost pr = self.profiles();
        let ghost rm = map_entries(self.records);
        let mut out: Vec<(MotherProfile, HealthRecord)> = Vec::new();
        let mut i: usize = 0;
        while i < entries.len()
            invariant
                self.wf(),
                m == self.records(),
                pr == self.profiles(),
                rm == map_entries(self.records),
                keys_ascending(entries@),
                lists_entries(entries@, rm),
                i <= entries@.len(),
                forall|a: int, b: int| 0 <= a < b < out@.len() ==> out@[a].1.id < out@[b].1.id,
                i < entries@.len() ==> forall|a: int|
                    0 <= a < out@.len() ==> out@[a].1.id < entries@[i as int].0,
                forall|a: int|
                    0 <= a < out@.len() ==> #[trigger] m.contains_key(out@[a].1.id) && m[out@[a].1.id]
                        == out@[a].1@ && is_due(out@[a].1@, now, target) && pr.contains_key(out@[a].1@.mother_id)
                        && pr[out@[a].1@.mother_id] == out@[a].0@,
                forall|j: int|
                    0 <= j < i && is_due(m[#[trigger] entries@[j].0], now, target) && pr.contains_key(m[entries@[j].0].mother_id) ==> exists|a: int|
                        0 <= a < out@.len() && out@[a].1.id == entries@[j].0,
            decreases entries@.len() - i,
        {
            let key = entries[i].0;
            assert(rm.contains_key(key));
            assert(encodes_record(rm[key], m[key]));
            let ghost before = out@;
            match decode_record(entries[i].1.as_slice()) {
                Some(rec) => {
                    assert(rec@ == m[key]);
                    if rec.next_appointment > now && rec.next_appointment < target {
                        match self.get_mother_profile(rec.mother_id) {
                            Ok(p) => {
                                out.push((p, rec));
                                assert(out@[out@.len() - 1].1.id == key);
                            },
                            Err(_) => {},
                        }
                    }
                },
                None => {},
            }
            assert forall|a: int| 0 <= a < out@.len() implies #[trigger] m.contains_key(out@[a].1.id) && m[out@[a].1.id]
                        == out@[a].1@ && is_due(out@[a].1@, now, target) && pr.contains_key(out@[a].1@.mother_id)
                        && pr[out@[a].1@.mother_id] == out@[a].0@ by {
                if a < before.len() {
                    assert(out@[a] == before[a]);
                    assert(m.contains_key(before[a].1.id));
                }
            }
            assert forall|j: int|
                0 <= j <= i && is_due(m[#[trigger] entries@[j].0], now, target) && pr.contains_key(m[entries@[j].0].mother_id) implies exists|a: int|
                0 <= a < out@.len() && out@[a].1.id == entries@[j].0 by {
                if j < i {
                    let a = choose|a: int| 0 <= a < before.len() && before[a].1.id == entries@[j].0;
                    assert(out@[a] == before[a]);
                }
            }
            if i + 1 < entries.len() {
                assert(entries@[i as int].0 < entries@[i + 1].0);
            }
            i = i + 1;
        }
        let ghost v = pairs_view(out@);
        proof {
            assert forall|a: int| 0 <= a < v.len() implies v[a] == (out@[a].0@, out@[a].1@) by {}
            assert forall|a: int, b: int| 0 <= a < b < v.len() implies v[a].1.id < v[b].1.id by {
                assert(v[a] == (out@[a].0@, out@[a].1@));
                assert(v[b] == (out@[b].0@, out@[b].1@));
            }
            assert forall|a: int| 0 <= a < v.len() implies #[trigger] m.contains_key(v[a].1.id)
                && m[v[a].1.id] == v[a].1 && is_due(v[a].1, now, target) && pr.contains_key(v[a].1.mother_id)
                && pr[v[a].1.mother_id] == v[a].0 by {
                assert(m.contains_key(out@[a].1.id));
            }
            assert forall|k: u64| #[trigger] m.contains_key(k) && is_due(m[k], now, target) && pr.contains_key(m[k].mother_id) implies exists|
                a: int,
            | 0 <= a < v.len() && v[a].1.id == k by {
                assert(rm.contains_key(k));
                let j = choose|j: int| 0 <= j < entries@.len() && entries@[j].0 == k;
                assert(is_due(m[entries@[j].0], now, target));
                let a = choose|a: int| 0 <= a < out@.len() && out@[a].1.id == k;
                assert(v[a].1.id == k);
            }
        }
        out
    }

    /// The same list as `get_critical_cases`: the profiles at high risk.
    pub fn get_high_risk_profiles(&self) -> (r: Vec<MotherProfile>)
        requires
            self.wf(),
        ensures
            lists_critical(profiles_view(r@), self.profiles()),
    {
        self.get_critical_cases()
    }


    /// Identifiers are unique across both kinds: each stored profile and record sits under its
    /// own identifier, no identifier names both a profile and a record, and none exceeds the
    /// counter.
    pub proof fn lemma_ids_distinct(&self)
        requires
            self.wf(),
        ensures
            forall|k: u64| #[trigger] self.profiles().contains_key(k) ==> {
                &&& !self.records().contains_key(k)
                &&& self.profiles()[k].id == k
                &&& k <= self.counter()
            },
            forall|k: u64| #[trigger] self.records().contains_key(k) ==> {
                &&& self.records()[k].id == k
                &&& k <= self.counter()
            },
    {
        assert forall|k: u64| #[trigger] self.profiles().contains_key(k) implies !self.records().contains_key(k)
            && self.profiles()[k].id == k && k <= self.counter() by {
            assert(map_entries(self.profiles).contains_key(k));
        }
        assert forall|k: u64| #[trigger] self.records().contains_key(k) implies self.records()[k].id == k
            && k <= self.counter() by {
            assert(map_entries(self.records).contains_key(k));
        }
    }

    /// The next identifier, one past the counter, is not in use by any profile or record.
    pub proof fn lemma_next_id_fresh(&self)
        requires
            self.wf(),
            self.counter() < u64::MAX,
        ensures
            !self.profiles().contains_key((self.counter() + 1) as u64),
            !self.records().contains_key((self.counter() + 1) as u64),
    {
        self.lemma_ids_distinct();
    }

}

/// Region of the identifier counter.
pub const COUNTER_REGION: u8 = 0;

/// Region of the profile map.
pub const PROFILE_REGION: u8 = 1;

/// Region of the health-record map.
pub const RECORD_REGION: u8 = 2;

/// A loaded counter and pair of maps hold together: each profile value encodes a profile with its
/// key as identifier, each record value a record with its key as identifier whose mother is
/// stored, no key is in both maps, and the counter has passed every key.
pub open spec fn consistent(pm: Map<u64, Seq<u8>>, rm: Map<u64, Seq<u8>>, counter: u64) -> bool {
    &&& forall|k: u64| #[trigger]
        pm.contains_key(k) ==> {
            &&& k <= counter
            &&& !rm.contains_key(k)
            &&& exists|p: ProfileView| encodes_profile(pm[k], p) && p.id == k
        }
    &&& forall|k: u64| #[trigger]
        rm.contains_key(k) ==> {
            &&& k <= counter
            &&& exists|r: RecordView| encodes_record(rm[k], r) && r.id == k && pm.contains_key(r.mother_id)
        }
}

/// A profile whose current status is `Critical`.
pub open spec fn is_critical(p: ProfileView) -> bool {
    p.health_status == HealthStatus::Critical
}

/// The views of the profiles.
pub open spec fn profiles_view(v: Seq<MotherProfile>) -> Seq<ProfileView> {
    v.map_values(|p: MotherProfile| p@)
}

/// `out` lists, in strictly ascending identifier order, exactly the profiles of `m` whose
/// status is `Critical`.
pub open spec fn lists_critical(out: Seq<ProfileView>, m: Map<u64, ProfileView>) -> bool {
    &&& forall|a: int, b: int| 0 <= a < b < out.len() ==> out[a].id < out[b].id
    &&& forall|a: int|
        0 <= a < out.len() ==> #[trigger] m.contains_key(out[a].id) && m[out[a].id] == out[a]
            && is_critical(out[a])
    &&& forall|k: u64| #[trigger] m.contains_key(k) && is_critical(m[k]) ==> exists|a: int|
        0 <= a < out.len() && out[a].id == k
}

/// The views of the records.
pub open spec fn records_view(v: Seq<HealthRecord>) -> Seq<RecordView> {
    v.map_values(|r: HealthRecord| r@)
}

/// The views of profile and record pairs.
pub open spec fn pairs_view(v: Seq<(MotherProfile, HealthRecord)>) -> Seq<(ProfileView, RecordView)> {
    v.map_values(|x: (MotherProfile, HealthRecord)| (x.0@, x.1@))
}

/// `out` lists, in strictly ascending identifier order, exactly the records of `m` that belong
/// to `mother_id`.
pub open spec fn lists_of_mother(out: Seq<RecordView>, m: Map<u64, RecordView>, mother_id: u64) -> bool {
    &&& forall|a: int, b: int| 0 <= a < b < out.len() ==> out[a].id < out[b].id
    &&& forall|a: int|
        0 <= a < out.len() ==> #[trigger] m.contains_key(out[a].id) && m[out[a].id] == out[a]
            && out[a].mother_id == mother_id
    &&& forall|k: u64| #[trigger] m.contains_key(k) && m[k].mother_id == mother_id ==> exists|a: int|
        0 <= a < out.len() && out[a].id == k
}

/// Nanoseconds in one day.
pub const NANOS_PER_DAY: u64 = 86400000000000;

/// `now` plus `days` days, saturating at the largest time.
pub open spec fn horizon(now: u64, days: u64) -> u64 {
    if days * NANOS_PER_DAY + now > u64::MAX {
        u64::MAX
    } else {
        (now + days * NANOS_PER_DAY) as u64
    }
}

/// The next appointment of `r` falls in the open window `(now, target)`.
pub open spec fn is_due(r: RecordView, now: u64, target: u64) -> bool {
    now < r.next_appointment < target
}

/// `out` lists, in strictly ascending record identifier order, each record of `recs` that is due
/// and whose mother is in `profs`, paired with that mother's profile, and nothing else.
pub open spec fn lists_upcoming(
    out: Seq<(ProfileView, RecordView)>,
    recs: Map<u64, RecordView>,
    profs: Map<u64, ProfileView>,
    now: u64,
    target: u64,
) -> bool {
    &&& forall|a: int, b: int| 0 <= a < b < out.len() ==> out[a].1.id < out[b].1.id
    &&& forall|a: int|
        0 <= a < out.len() ==> #[trigger] recs.contains_key(out[a].1.id) && recs[out[a].1.id] == out[a].1
            && is_due(out[a].1, now, target) && profs.contains_key(out[a].1.mother_id)
            && profs[out[a].1.mother_id] == out[a].0
    &&& forall|k: u64| #[trigger] recs.contains_key(k) && is_due(recs[k], now, target) && profs.contains_key(recs[k].mother_id) ==> exists|a: int|
        0 <= a < out.len() && out[a].1.id == k
}

/// A profile after a checkup at time `now` with result `status`.
pub open spec fn with_checkup(p: ProfileView, status: HealthStatus, now: u64) -> ProfileView {
    ProfileView { health_status: status, last_checkup: now, ..p }
}

/// The health record that a payload makes, with identifier `id`, at time `now`.
pub open spec fn new_record(p: HealthRecordPayload, id: u64, now: u64) -> RecordView {
    RecordView {
        id,
        mother_id: p.mother_id,
        date: now,
        blood_pressure: p.blood_pressure@,
        weight_grams: p.weight_grams,
        symptoms: texts_view(p.symptoms@),
        notes: p.notes@,
        next_appointment: p.next_appointment,
        health_status: health_status_spec(
            p.blood_pressure@,
            p.weight_grams as int,
            lowered_all(strings_view(p.symptoms@)),
        ),
    }
}

/// The record that a payload makes fits the stored format and its size bound.
pub open spec fn record_size_ok(p: HealthRecordPayload, now: u64) -> bool {
    record_fits(new_record(p, 0, now)) && enc_record(new_record(p, 0, now)).len()
        <= MAX_VALUE_BYTES
}

/// The profile that a payload makes, with identifier `id`, at time `now`.
pub open spec fn new_profile(p: MotherProfilePayload, id: u64, now: u64) -> ProfileView {
    ProfileView {
        id,
        name: p.name@,
        age: p.age,
        blood_type: p.blood_type@,
        expected_delivery_date: p.expected_delivery_date,
        stage: stage_for_weeks(weeks_until(p.expected_delivery_date as int, now as int)),
        health_status: HealthStatus::Normal,
        created_at: now,
        last_checkup: now,
        medical_history: texts_view(p.medical_history@),
        emergency_contact: p.emergency_contact@,
    }
}

/// The profile that a payload makes fits the stored format and its size bound.
pub open spec fn stored_size_ok(p: MotherProfilePayload, now: u64) -> bool {
    profile_fits(new_profile(p, 0, now)) && enc_profile(new_profile(p, 0, now)).len()
        <= MAX_VALUE_BYTES
}

fn same_text(a: &Vec<char>, b: &str) -> (r: bool)
    ensures
        r == (a@ == b@),
{
    let bc = chars_of(b);
    if a.len() != bc.len() {
        return false;
    }
    let mut i: usize = 0;
    while i < a.len()
        invariant
            i <= a@.len(),
            a@.len() == bc@.len(),
            bc@ == b@,
            forall|k: int| 0 <= k < i ==> a@[k] == bc@[k],
        decreases a@.len() - i,
    {
        if a[i] != bc[i] {
            assert(a@[i as int] != bc@[i as int]);
            return false;
        }
        i = i + 1;
    }
    assert(a@ =~= bc@);
    true
}

/// Checks a profile payload at time `now`: age 13 to 65, one of the eight blood types, a
/// delivery date after `now`, an emergency contact that is not blank.
pub fn validate_mother_profile(payload: &MotherProfilePayload, now: u64) -> (r: Result<(), Error>)
    ensures
        r is Ok <==> valid_profile_payload(*payload, now),
        r is Err ==> r matches Err(Error::InvalidInput { .. }),
{
    if payload.age < 13 || payload.age > 65 {
        return Err(Error::InvalidInput { msg: "age must be between 13 and 65".to_owned() });
    }
    let bt = chars_of(payload.blood_type.as_str());
    let types: Vec<&str> = vec!["A+", "A-", "B+", "B-", "AB+", "AB-", "O+", "O-"];
    let mut found = false;
    let mut i: usize = 0;
    assert(types@.map_values(|t: &str| t@) =~= blood_types());
    while i < types.len()
        invariant
            i <= types@.len(),
            bt@ == payload.blood_type@,
            types@.map_values(|t: &str| t@) == blood_types(),
            found <==> exists|k: int| 0 <= k < i && blood_types()[k] == bt@,
        decreases types@.len() - i,
    {
        assert(blood_types()[i as int] == types@.map_values(|t: &str| t@)[i as int]);
        if same_text(&bt, types[i]) {
            found = true;
        }
        i = i + 1;
    }
    if !found {
        return Err(Error::InvalidInput { msg: "invalid blood type".to_owned() });
    }
    if payload.expected_delivery_date <= now {
        return Err(Error::InvalidInput { msg: "expected delivery date must be in the future".to_owned() });
    }
    if trimmed(payload.emergency_contact.as_str()).as_str().unicode_len() == 0 {
        return Err(Error::InvalidInput { msg: "emergency contact is required".to_owned() });
    }
    Ok(())
}

/// Overwriting: two checkups of the same mother leave one profile under her identifier, the
/// second checkup's, and the set of profiles unchanged.
pub proof fn lemma_checkups_overwrite(
    s0: Map<u64, ProfileView>,
    s1: Map<u64, ProfileView>,
    s2: Map<u64, ProfileView>,
    id: u64,
    first: HealthStatus,
    t1: u64,
    second: HealthStatus,
    t2: u64,
)
    requires
        s0.contains_key(id),
        s1 == s0.insert(id, with_checkup(s0[id], first, t1)),
        s2 == s1.insert(id, with_checkup(s1[id], second, t2)),
    ensures
        s2.dom() == s0.dom(),
        s2[id] == with_checkup(s0[id], second, t2),
        s1[id] == with_checkup(s0[id], first, t1),
        forall|k: u64| k != id && #[trigger] s0.contains_key(k) ==> s2[k] == s0[k],
{
    assert(s2.dom() =~= s0.dom());
}

/// Persistence: once a profile is stored, the profiles read back hold it under its identifier,
/// and a record added for another mother leaves it as it was.
pub proof fn lemma_stored_profile_persists(
    s0: Map<u64, ProfileView>,
    s1: Map<u64, ProfileView>,
    s2: Map<u64, ProfileView>,
    p: ProfileView,
    other: u64,
    status: HealthStatus,
    now: u64,
)
    requires
        s1 == s0.insert(p.id, p),
        other != p.id,
        s1.contains_key(other),
        s2 == s1.insert(other, with_checkup(s1[other], status, now)),
    ensures
        s1.contains_key(p.id) && s1[p.id] == p,
        s2.contains_key(p.id) && s2[p.id] == p,
{
}

/// Uniqueness over a history of calls: when each identifier handed out is the counter before
/// its call plus one, the counter after its call equals it, and the counter never goes down
/// between calls (as `generate_new_id`, `create_mother_profile` and `add_health_record` ensure),
/// the identifiers strictly increase, so no two are equal.
pub proof fn lemma_handed_out_ids_distinct(ids: Seq<u64>, before: Seq<u64>, after: Seq<u64>)
    requires
        before.len() == ids.len(),
        after.len() == ids.len(),
        forall|j: int| 0 <= j < ids.len() ==> #[trigger] ids[j] == before[j] + 1,
        forall|j: int| 0 <= j < ids.len() ==> #[trigger] after[j] == ids[j],
        forall|j: int| 0 <= j < ids.len() - 1 ==> before[j + 1] >= #[trigger] after[j],
    ensures
        forall|a: int, b: int| 0 <= a < b < ids.len() ==> ids[a] < ids[b],
{
    assert forall|a: int, b: int| 0 <= a < b < ids.len() implies ids[a] < ids[b] by {
        lemma_ids_step(ids, before, after, a, b);
    }
}

proof fn lemma_ids_step(ids: Seq<u64>, before: Seq<u64>, after: Seq<u64>, a: int, b: int)
    requires
        before.len() == ids.len(),
        after.len() == ids.len(),
        forall|j: int| 0 <= j < ids.len() ==> #[trigger] ids[j] == before[j] + 1,
        forall|j: int| 0 <= j < ids.len() ==> #[trigger] after[j] == ids[j],
        forall|j: int| 0 <= j < ids.len() - 1 ==> before[j + 1] >= #[trigger] after[j],
        0 <= a < b < ids.len(),
    ensures
        ids[a] < ids[b],
    decreases b - a,
{
    assert(after[b - 1] == ids[b - 1]);
    assert(before[b] >= after[b - 1]);
    assert(ids[b] == before[b] + 1);
    if b - 1 > a {
        lemma_ids_step(ids, before, after, a, b - 1);
    }
}

/// The status that the last event for `m` set, if any event names `m`. Each event is a
/// profile identifier and the status a call gave it: `Normal` at creation, the record's status
/// at a checkup.
pub open spec fn last_status(events: Seq<(u64, HealthStatus)>, m: u64) -> Option<HealthStatus>
    decreases events.len(),
{
    if events.len() == 0 {
        None
    } else if events.last().0 == m {
        Some(events.last().1)
    } else {
        last_status(events.drop_last(), m)
    }
}

/// One call's effect on the profiles: the profile under `e.0` now has status `e.1`, and every
/// other profile is as it was.
pub open spec fn sets_status(
    before: Map<u64, ProfileView>,
    after: Map<u64, ProfileView>,
    e: (u64, HealthStatus),
) -> bool {
    &&& after.contains_key(e.0)
    &&& after[e.0].health_status == e.1
    &&& forall|k: u64| k != e.0 ==> (#[trigger] after.contains_key(k) <==> before.contains_key(k))
    &&& forall|k: u64| k != e.0 && #[trigger] before.contains_key(k) ==> after[k] == before[k]
}

/// Critical list over any interleaving: starting from no profiles, after any run of creations
/// and checkups, a stored profile is `Critical` exactly when the last event for it set
/// `Critical`; `get_critical_cases` lists exactly those profiles.
pub proof fn lemma_critical_follows_last_checkup(
    states: Seq<Map<u64, ProfileView>>,
    events: Seq<(u64, HealthStatus)>,
)
    requires
        states.len() == events.len() + 1,
        states[0].dom().is_empty(),
        forall|j: int| 0 <= j < events.len() ==> sets_status(states[j], #[trigger] states[j + 1], events[j]),
    ensures
        forall|m: u64| #[trigger] states.last().contains_key(m) ==> {
            &&& last_status(events, m) is Some
            &&& is_critical(states.last()[m]) <==> last_status(events, m) == Some(HealthStatus::Critical)
        },
    decreases events.len(),
{
    let n = events.len();
    if n > 0 {
        let ps = states.drop_last();
        let es = events.drop_last();
        assert forall|j: int| 0 <= j < es.len() implies sets_status(ps[j], #[trigger] ps[j + 1], es[j]) by {
            assert(sets_status(states[j], states[j + 1], events[j]));
        }
        lemma_critical_follows_last_checkup(ps, es);
        assert(sets_status(states[n - 1], states[n as int], events[n - 1]));
        assert forall|m: u64| #[trigger] states.last().contains_key(m) implies {
            &&& last_status(events, m) is Some
            &&& is_critical(states.last()[m]) <==> last_status(events, m) == Some(HealthStatus::Critical)
        } by {
            if events.last().0 != m {
                assert(ps.last().contains_key(m));
            }
        }
    }
}

} // verus!
