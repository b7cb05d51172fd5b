//! Mother profiles and health records, and their stored form.
use vstd::prelude::*;
use vstd::slice::slice_to_vec;
use crate::classify::{HealthStatus, PregnancyStage};
use crate::codec::{
    enc_list, enc_text, enc_u32, enc_u64, lemma_starts_at_split, list_fits, put_list, put_text,
    put_u32, put_u64, same_bytes, starts_at, take_list, take_text, take_u32, take_u64, text_fits, texts_view, text_ok, list_ok,
};

verus! {

/// A mother's profile.
#[derive(Clone, Debug)]
pub struct MotherProfile {
    pub id: u64,
    pub name: String,
    pub age: u8,
    pub blood_type: String,
    pub expected_delivery_date: u64,
    pub stage: PregnancyStage,
    pub health_status: HealthStatus,
    pub created_at: u64,
    pub last_checkup: u64,
    pub medical_history: Vec<String>,
    pub emergency_contact: String,
}

/// One checkup of a mother. Weight is in grams.
#[derive(Clone, Debug)]
pub struct HealthRecord {
    pub id: u64,
    pub mother_id: u64,
    pub date: u64,
    pub blood_pressure: String,
    pub weight_grams: u32,
    pub symptoms: Vec<String>,
    pub notes: String,
    pub next_appointment: u64,
    pub health_status: HealthStatus,
}

/// A profile as plain values.
pub ghost struct ProfileView {
    pub id: u64,
    pub name: Seq<char>,
    pub age: u8,
    pub blood_type: Seq<char>,
    pub expected_delivery_date: u64,
    pub stage: PregnancyStage,
    pub health_status: HealthStatus,
    pub created_at: u64,
    pub last_checkup: u64,
    pub medical_history: Seq<Seq<char>>,
    pub emergency_contact: Seq<char>,
}

/// A health record as plain values.
pub ghost struct RecordView {
    pub id: u64,
    pub mother_id: u64,
    pub date: u64,
    pub blood_pressure: Seq<char>,
    pub weight_grams: u32,
    pub symptoms: Seq<Seq<char>>,
    pub notes: Seq<char>,
    pub next_appointment: u64,
    pub health_status: HealthStatus,
}

impl View for MotherProfile {
    type V = ProfileView;

    open spec fn view(&self) -> ProfileView {
        ProfileView {
            id: self.id,
            name: self.name@,
            age: self.age,
            blood_type: self.blood_type@,
            expected_delivery_date: self.expected_delivery_date,
            stage: self.stage,
            health_status: self.health_status,
            created_at: self.created_at,
            last_checkup: self.last_checkup,
            medical_history: texts_view(self.medical_history@),
            emergency_contact: self.emergency_contact@,
        }
    }
}

impl View for HealthRecord {
    type V = RecordView;

    open spec fn view(&self) -> RecordView {
        RecordView {
            id: self.id,
            mother_id: self.mother_id,
            date: self.date,
            blood_pressure: self.blood_pressure@,
            weight_grams: self.weight_grams,
            symptoms: texts_view(self.symptoms@),
            notes: self.notes@,
            next_appointment: self.next_appointment,
            health_status: self.health_status,
        }
    }
}

/// A single byte.
pub open spec fn one_byte(x: u8) -> Seq<u8> {
    seq![x]
}

pub open spec fn stage_tag(s: PregnancyStage) -> u8 {
    match s {
        PregnancyStage::FirstTrimester => 0,
        PregnancyStage::SecondTrimester => 1,
        PregnancyStage::ThirdTrimester => 2,
        PregnancyStage::PostPartum => 3,
    }
}

pub open spec fn status_tag(s: HealthStatus) -> u8 {
    match s {
        HealthStatus::Normal => 0,
        HealthStatus::NeedsAttention => 1,
        HealthStatus::Critical => 2,
    }
}

fn stage_to_tag(s: PregnancyStage) -> (r: u8)
    ensures
        r == stage_tag(s),
{
    match s {
        PregnancyStage::FirstTrimester => 0,
        PregnancyStage::SecondTrimester => 1,
        PregnancyStage::ThirdTrimester => 2,
        PregnancyStage::PostPartum => 3,
    }
}

fn status_to_tag(s: HealthStatus) -> (r: u8)
    ensures
        r == status_tag(s),
{
    match s {
        HealthStatus::Normal => 0,
        HealthStatus::NeedsAttention => 1,
        HealthStatus::Critical => 2,
    }
}

fn take_stage(b: &[u8], pos: usize) -> (r: Option<(PregnancyStage, usize)>)
    ensures
        forall|s: PregnancyStage| #[trigger] starts_at(b@, pos as int, one_byte(stage_tag(s))) ==> r == Some((s, (pos + 1) as usize)),
        r matches Some((_, e)) ==> e == pos + 1,
{
    reveal(starts_at);
    if pos >= b.len() {
        return None;
    }
    proof {
        assert forall|s: PregnancyStage| #[trigger] starts_at(b@, pos as int, one_byte(stage_tag(s))) implies b@[pos as int] == stage_tag(s) by {
            assert(b@.subrange(pos as int, pos + 1)[0] == b@[pos as int]);
        }
    }
    match b[pos] {
        0 => Some((PregnancyStage::FirstTrimester, pos + 1)),
        1 => Some((PregnancyStage::SecondTrimester, pos + 1)),
        2 => Some((PregnancyStage::ThirdTrimester, pos + 1)),
        3 => Some((PregnancyStage::PostPartum, pos + 1)),
        _ => None,
    }
}

fn take_status(b: &[u8], pos: usize) -> (r: Option<(HealthStatus, usize)>)
    ensures
        forall|s: HealthStatus| #[trigger] starts_at(b@, pos as int, one_byte(status_tag(s))) ==> r == Some((s, (pos + 1) as usize)),
        r matches Some((_, e)) ==> e == pos + 1,
{
    reveal(starts_at);
    if pos >= b.len() {
        return None;
    }
    proof {
        assert forall|s: HealthStatus| #[trigger] starts_at(b@, pos as int, one_byte(status_tag(s))) implies b@[pos as int] == status_tag(s) by {
            assert(b@.subrange(pos as int, pos + 1)[0] == b@[pos as int]);
        }
    }
    match b[pos] {
        0 => Some((HealthStatus::Normal, pos + 1)),
        1 => Some((HealthStatus::NeedsAttention, pos + 1)),
        2 => Some((HealthStatus::Critical, pos + 1)),
        _ => None,
    }
}

fn take_u8(b: &[u8], pos: usize) -> (r: Option<(u8, usize)>)
    ensures
        forall|x: u8| #[trigger] starts_at(b@, pos as int, one_byte(x)) ==> r == Some((x, (pos + 1) as usize)),
        r matches Some((_, e)) ==> e == pos + 1,
{
    reveal(starts_at);
    if pos >= b.len() {
        return None;
    }
    proof {
        assert forall|x: u8| #[trigger] starts_at(b@, pos as int, one_byte(x)) implies b@[pos as int] == x by {
            assert(b@.subrange(pos as int, pos + 1)[0] == b@[pos as int]);
        }
    }
    Some((b[pos], pos + 1))
}

/// Largest stored form of a value, in bytes.
pub const MAX_VALUE_BYTES: usize = 2048;

/// A profile whose texts the format can hold.
pub open spec fn profile_fits(p: ProfileView) -> bool {
    &&& text_fits(p.name)
    &&& text_fits(p.blood_type)
    &&& list_fits(p.medical_history)
    &&& text_fits(p.emergency_contact)
}

/// The stored form of a profile: its fields in declaration order.
pub open spec fn enc_profile(p: ProfileView) -> Seq<u8> {
    enc_u64(p.id) + enc_text(p.name) + one_byte(p.age) + enc_text(p.blood_type) + enc_u64(
        p.expected_delivery_date,
    ) + one_byte(stage_tag(p.stage)) + one_byte(status_tag(p.health_status)) + enc_u64(
        p.created_at,
    ) + enc_u64(p.last_checkup) + enc_list(p.medical_history) + enc_text(p.emergency_contact)
}

pub open spec fn encodes_profile(b: Seq<u8>, p: ProfileView) -> bool {
    profile_fits(p) && b == enc_profile(p)
}

#[verifier::spinoff_prover]
#[verifier::rlimit(50)]
proof fn lemma_profile_fields(b: Seq<u8>, p: ProfileView)
    requires
        encodes_profile(b, p),
    ensures
        ({
            let o1 = 8int;
            let o2 = o1 + enc_text(p.name).len();
            let o3 = o2 + 1;
            let o4 = o3 + enc_text(p.blood_type).len();
            let o5 = o4 + 8;
            let o6 = o5 + 1;
            let o7 = o6 + 1;
            let o8 = o7 + 8;
            let o9 = o8 + 8;
            let o10 = o9 + enc_list(p.medical_history).len();
            &&& starts_at(b, 0, enc_u64(p.id))
            &&& starts_at(b, o1, enc_text(p.name))
            &&& starts_at(b, o2, one_byte(p.age))
            &&& starts_at(b, o3, enc_text(p.blood_type))
            &&& starts_at(b, o4, enc_u64(p.expected_delivery_date))
            &&& starts_at(b, o5, one_byte(stage_tag(p.stage)))
            &&& starts_at(b, o6, one_byte(status_tag(p.health_status)))
            &&& starts_at(b, o7, enc_u64(p.created_at))
            &&& starts_at(b, o8, enc_u64(p.last_checkup))
            &&& starts_at(b, o9, enc_list(p.medical_history))
            &&& starts_at(b, o10, enc_text(p.emergency_contact))
            &&& b.len() == o10 + enc_text(p.emergency_contact).len()
        }),
{
    let l1 = enc_u64(p.id);
    let l2 = l1 + enc_text(p.name);
    let l3 = l2 + one_byte(p.age);
    let l4 = l3 + enc_text(p.blood_type);
    let l5 = l4 + enc_u64(p.expected_delivery_date);
    let l6 = l5 + one_byte(stage_tag(p.stage));
    let l7 = l6 + one_byte(status_tag(p.health_status));
    let l8 = l7 + enc_u64(p.created_at);
    let l9 = l8 + enc_u64(p.last_checkup);
    let l10 = l9 + enc_list(p.medical_history);
    reveal(starts_at);
    assert(b.subrange(0, b.len() as int) =~= b);
    lemma_starts_at_split(b, 0, l10, enc_text(p.emergency_contact));
    lemma_starts_at_split(b, 0, l9, enc_list(p.medical_history));
    lemma_starts_at_split(b, 0, l8, enc_u64(p.last_checkup));
    lemma_starts_at_split(b, 0, l7, enc_u64(p.created_at));
    lemma_starts_at_split(b, 0, l6, one_byte(status_tag(p.health_status)));
    lemma_starts_at_split(b, 0, l5, one_byte(stage_tag(p.stage)));
    lemma_starts_at_split(b, 0, l4, enc_u64(p.expected_delivery_date));
    lemma_starts_at_split(b, 0, l3, enc_text(p.blood_type));
    lemma_starts_at_split(b, 0, l2, one_byte(p.age));
    lemma_starts_at_split(b, 0, l1, enc_text(p.name));
}

/// The stored form of a profile.
pub fn encode_profile(p: &MotherProfile) -> (r: Vec<u8>)
    requires
        profile_fits(p@),
    ensures
        r@ == enc_profile(p@),
{
    let mut out: Vec<u8> = Vec::new();
    put_u64(&mut out, p.id);
    assert(out@ =~= enc_u64(p.id));
    put_text(&mut out, &p.name);
    out.push(p.age);
    assert(out@ =~= enc_u64(p.id) + enc_text(p.name@) + one_byte(p.age));
    put_text(&mut out, &p.blood_type);
    put_u64(&mut out, p.expected_delivery_date);
    let ghost l5 = out@;
    out.push(stage_to_tag(p.stage));
    assert(out@ =~= l5 + one_byte(stage_tag(p.stage)));
    let ghost l6 = out@;
    out.push(status_to_tag(p.health_status));
    assert(out@ =~= l6 + one_byte(status_tag(p.health_status)));
    put_u64(&mut out, p.created_at);
    put_u64(&mut out, p.last_checkup);
    put_list(&mut out, &p.medical_history);
    put_text(&mut out, &p.emergency_contact);
    out
}

/// Reads a profile back from its stored form: every profile comes back from its own bytes, and
/// only bytes that encode a profile give one.
pub fn decode_profile(b: &[u8]) -> (r: Option<MotherProfile>)
    ensures
        forall|p: ProfileView| #[trigger] encodes_profile(b@, p) ==> (r matches Some(q) && q@ == p),
        r matches Some(q) ==> encodes_profile(b@, q@),
{
    let q = match read_profile(b) {
        Some(q) => q,
        None => {
            return None;
        },
    };
    if !(text_ok(&q.name) && text_ok(&q.blood_type) && list_ok(&q.medical_history) && text_ok(
        &q.emergency_contact,
    )) {
        return None;
    }
    let again = encode_profile(&q);
    let whole = slice_to_vec(b);
    if !same_bytes(&again, &whole) {
        return None;
    }
    Some(q)
}

fn read_profile(b: &[u8]) -> (r: Option<MotherProfile>)
    ensures
        forall|p: ProfileView| #[trigger] encodes_profile(b@, p) ==> (r matches Some(q) && q@ == p),
{
    let ghost ok = exists|p: ProfileView| encodes_profile(b@, p);
    let ghost t = choose|p: ProfileView| encodes_profile(b@, p);
    proof {
        if ok {
            lemma_profile_fields(b@, t);
        }
    }
    let at: usize = 0;
    let ghost o1 = 8int;
    let (id, at) = match take_u64(b, at) {
        Some(x) => x,
        None => {
            return None;
        },
    };
    assert(ok ==> id == t.id && at == o1);
    let ghost o2 = 8 + enc_text(t.name).len();
    let (name, at) = match take_text(b, at) {
        Some(x) => x,
        None => {
            return None;
        },
    };
    assert(ok ==> name@ == t.name && at == o2);
    let ghost o3 = o2 + 1;
    let (age, at) = match take_u8(b, at) {
        Some(x) => x,
        None => {
            return None;
        },
    };
    assert(ok ==> age == t.age && at == o3);
    let ghost o4 = o3 + enc_text(t.blood_type).len();
    let (blood_type, at) = match take_text(b, at) {
        Some(x) => x,
        None => {
            return None;
        },
    };
    assert(ok ==> blood_type@ == t.blood_type && at == o4);
    let ghost o5 = o4 + 8;
    let (expected_delivery_date, at) = match take_u64(b, at) {
        Some(x) => x,
        None => {
            return None;
        },
    };
    assert(ok ==> expected_delivery_date == t.expected_delivery_date && at == o5);
    let ghost o6 = o5 + 1;
    let (stage, at) = match take_stage(b, at) {
        Some(x) => x,
        None => {
            return None;
        },
    };
    assert(ok ==> stage == t.stage && at == o6);
    let ghost o7 = o6 + 1;
    let (health_status, at) = match take_status(b, at) {
        Some(x) => x,
        None => {
            return None;
        },
    };
    assert(ok ==> health_status == t.health_status && at == o7);
    let ghost o8 = o7 + 8;
    let (created_at, at) = match take_u64(b, at) {
        Some(x) => x,
        None => {
            return None;
        },
    };
    assert(ok ==> created_at == t.created_at && at == o8);
    let ghost o9 = o8 + 8;
    let (last_checkup, at) = match take_u64(b, at) {
        Some(x) => x,
        None => {
            return None;
        },
    };
    assert(ok ==> last_checkup == t.last_checkup && at == o9);
    let ghost o10 = o9 + enc_list(t.medical_history).len();
    let (medical_history, at) = match take_list(b, at) {
        Some(x) => x,
        None => {
            return None;
        },
    };
    assert(ok ==> texts_view(medical_history@) == t.medical_history && at == o10);
    let ghost o11 = o10 + enc_text(t.emergency_contact).len();
    let (emergency_contact, at) = match take_text(b, at) {
        Some(x) => x,
        None => {
            return None;
        },
    };
    assert(ok ==> emergency_contact@ == t.emergency_contact && at == o11);
    if at != b.len() {
        return None;
    }
    let r = MotherProfile {
        id,
        name,
        age,
        blood_type,
        expected_delivery_date,
        stage,
        health_status,
        created_at,
        last_checkup,
        medical_history,
        emergency_contact,
    };
    assert forall|p: ProfileView| #[trigger] encodes_profile(b@, p) implies r@ == p by {
        lemma_profile_fields(b@, p);
    }
    Some(r)
}


/// A health record whose texts the format can hold.
pub open spec fn record_fits(r: RecordView) -> bool {
    &&& text_fits(r.blood_pressure)
    &&& list_fits(r.symptoms)
    &&& text_fits(r.notes)
}

/// The stored form of a health record: its fields in declaration order.
pub open spec fn enc_record(p: RecordView) -> Seq<u8> {
    enc_u64(p.id) + enc_u64(p.mother_id) + enc_u64(p.date) + enc_text(p.blood_pressure) + enc_u32(p.weight_grams) + enc_list(p.symptoms) + enc_text(p.notes) + enc_u64(p.next_appointment) + one_byte(status_tag(p.health_status))
}

pub open spec fn encodes_record(b: Seq<u8>, p: RecordView) -> bool {
    record_fits(p) && b == enc_record(p)
}

#[verifier::spinoff_prover]
#[verifier::rlimit(50)]
proof fn lemma_record_fields(b: Seq<u8>, p: RecordView)
    requires
        encodes_record(b, p),
    ensures
        ({
            let o0 = 0int;
            let o1 = o0 + 8;
            let o2 = o1 + 8;
            let o3 = o2 + 8;
            let o4 = o3 + enc_text(p.blood_pressure).len();
            let o5 = o4 + 4;
            let o6 = o5 + enc_list(p.symptoms).len();
            let o7 = o6 + enc_text(p.notes).len();
            let o8 = o7 + 8;
            &&& starts_at(b, o0, enc_u64(p.id))
            &&& starts_at(b, o1, enc_u64(p.mother_id))
            &&& starts_at(b, o2, enc_u64(p.date))
            &&& starts_at(b, o3, enc_text(p.blood_pressure))
            &&& starts_at(b, o4, enc_u32(p.weight_grams))
            &&& starts_at(b, o5, enc_list(p.symptoms))
            &&& starts_at(b, o6, enc_text(p.notes))
            &&& starts_at(b, o7, enc_u64(p.next_appointment))
            &&& starts_at(b, o8, one_byte(status_tag(p.health_status)))
            &&& b.len() == o8 + 1
        }),
{
    let l1 = enc_u64(p.id);
    let l2 = enc_u64(p.id) + enc_u64(p.mother_id);
    let l3 = enc_u64(p.id) + enc_u64(p.mother_id) + enc_u64(p.date);
    let l4 = enc_u64(p.id) + enc_u64(p.mother_id) + enc_u64(p.date) + enc_text(p.blood_pressure);
    let l5 = enc_u64(p.id) + enc_u64(p.mother_id) + enc_u64(p.date) + enc_text(p.blood_pressure) + enc_u32(p.weight_grams);
    let l6 = enc_u64(p.id) + enc_u64(p.mother_id) + enc_u64(p.date) + enc_text(p.blood_pressure) + enc_u32(p.weight_grams) + enc_list(p.symptoms);
    let l7 = enc_u64(p.id) + enc_u64(p.mother_id) + enc_u64(p.date) + enc_text(p.blood_pressure) + enc_u32(p.weight_grams) + enc_list(p.symptoms) + enc_text(p.notes);
    let l8 = enc_u64(p.id) + enc_u64(p.mother_id) + enc_u64(p.date) + enc_text(p.blood_pressure) + enc_u32(p.weight_grams) + enc_list(p.symptoms) + enc_text(p.notes) + enc_u64(p.next_appointment);
    reveal(starts_at);
    assert(b.subrange(0, b.len() as int) =~= b);
    lemma_starts_at_split(b, 0, l8, one_byte(status_tag(p.health_status)));
    lemma_starts_at_split(b, 0, l7, enc_u64(p.next_appointment));
    lemma_starts_at_split(b, 0, l6, enc_text(p.notes));
    lemma_starts_at_split(b, 0, l5, enc_list(p.symptoms));
    lemma_starts_at_split(b, 0, l4, enc_u32(p.weight_grams));
    lemma_starts_at_split(b, 0, l3, enc_text(p.blood_pressure));
    lemma_starts_at_split(b, 0, l2, enc_u64(p.date));
    lemma_starts_at_split(b, 0, l1, enc_u64(p.mother_id));
}

/// The stored form of a health record.
pub fn encode_record(p: &HealthRecord) -> (r: Vec<u8>)
    requires
        record_fits(p@),
    ensures
        r@ == enc_record(p@),
{
    let mut out: Vec<u8> = Vec::new();
    put_u64(&mut out, p.id);
    assert(out@ =~= enc_u64(p.id));
    put_u64(&mut out, p.mother_id);
    put_u64(&mut out, p.date);
    put_text(&mut out, &p.blood_pressure);
    put_u32(&mut out, p.weight_grams);
    put_list(&mut out, &p.symptoms);
    put_text(&mut out, &p.notes);
    put_u64(&mut out, p.next_appointment);
    let ghost l8 = out@;
    out.push(status_to_tag(p.health_status));
    assert(out@ =~= l8 + one_byte(status_tag(p.health_status)));
    out
}

/// Reads a health record back from its stored form: every record comes back from its own bytes,
/// and only bytes that encode a record give one.
pub fn decode_record(b: &[u8]) -> (r: Option<HealthRecord>)
    ensures
        forall|p: RecordView| #[trigger] encodes_record(b@, p) ==> (r matches Some(q) && q@ == p),
        r matches Some(q) ==> encodes_record(b@, q@),
{
    let q = match read_record(b) {
        Some(q) => q,
        None => {
            return None;
        },
    };
    if !(text_ok(&q.blood_pressure) && list_ok(&q.symptoms) && text_ok(&q.notes)) {
        return None;
    }
    let again = encode_record(&q);
    let whole = slice_to_vec(b);
    if !same_bytes(&again, &whole) {
        return None;
    }
    Some(q)
}

fn read_record(b: &[u8]) -> (r: Option<HealthRecord>)
    ensures
        forall|p: RecordView| #[trigger] encodes_record(b@, p) ==> (r matches Some(q) && q@ == p),
{
    let ghost ok = exists|p: RecordView| encodes_record(b@, p);
    let ghost t = choose|p: RecordView| encodes_record(b@, p);
    proof {
        if ok {
            lemma_record_fields(b@, t);
        }
    }
    let at: usize = 0;
    let ghost e0 = 0int + 8;
    let (id, at) = match take_u64(b, at) {
        Some(x) => x,
        None => {
            return None;
        },
    };
    assert(ok ==> id == t.id && at == e0);
    let ghost e1 = e0 + 8;
    let (mother_id, at) = match take_u64(b, at) {
        Some(x) => x,
        None => {
            return None;
        },
    };
    assert(ok ==> mother_id == t.mother_id && at == e1);
    let ghost e2 = e1 + 8;
    let (date, at) = match take_u64(b, at) {
        Some(x) => x,
        None => {
            return None;
        },
    };
    assert(ok ==> date == t.date && at == e2);
    let ghost e3 = e2 + enc_text(t.blood_pressure).len();
    let (blood_pressure, at) = match take_text(b, at) {
        Some(x) => x,
        None => {
            return None;
        },
    };
    assert(ok ==> blood_pressure@ == t.blood_pressure && at == e3);
    let ghost e4 = e3 + 4;
    let (weight_grams, at) = match take_u32(b, at) {
        Some(x) => x,
        None => {
            return None;
        },
    };
    assert(ok ==> weight_grams == t.weight_grams && at == e4);
    let ghost e5 = e4 + enc_list(t.symptoms).len();
    let (symptoms, at) = match take_list(b, at) {
        Some(x) => x,
        None => {
            return None;
        },
    };
    assert(ok ==> texts_view(symptoms@) == t.symptoms && at == e5);
    let ghost e6 = e5 + enc_text(t.notes).len();
    let (notes, at) = match take_text(b, at) {
        Some(x) => x,
        None => {
            return None;
        },
    };
    assert(ok ==> notes@ == t.notes && at == e6);
    let ghost e7 = e6 + 8;
    let (next_appointment, at) = match take_u64(b, at) {
        Some(x) => x,
        None => {
            return None;
        },
    };
    assert(ok ==> next_appointment == t.next_appointment && at == e7);
    let ghost e8 = e7 + 1;
    let (health_status, at) = match take_status(b, at) {
        Some(x) => x,
        None => {
            return None;
        },
    };
    assert(ok ==> health_status == t.health_status && at == e8);
    if at != b.len() {
        return None;
    }
    let r = HealthRecord {
        id,
        mother_id,
        date,
        blood_pressure,
        weight_grams,
        symptoms,
        notes,
        next_appointment,
        health_status,
    };
    assert forall|p: RecordView| #[trigger] encodes_record(b@, p) implies r@ == p by {
        lemma_record_fields(b@, p);
    }
    Some(r)
}

} // verus!
