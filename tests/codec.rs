use mama_pack::classify::{HealthStatus, PregnancyStage};
use mama_pack::records::{
    decode_profile, decode_record, encode_profile, encode_record, HealthRecord, MotherProfile,
};

fn profile() -> MotherProfile {
    MotherProfile {
        id: 7,
        name: "Amina Wanjiru".to_string(),
        age: 27,
        blood_type: "O+".to_string(),
        expected_delivery_date: 1_800_000_000_000_000_000,
        stage: PregnancyStage::SecondTrimester,
        health_status: HealthStatus::NeedsAttention,
        created_at: 1_700_000_000_000_000_000,
        last_checkup: 1_700_000_000_000_000_001,
        medical_history: vec!["asthma".to_string(), "naïve résumé ✓".to_string()],
        emergency_contact: "+254 700 000000".to_string(),
    }
}

fn record() -> HealthRecord {
    HealthRecord {
        id: 9,
        mother_id: 7,
        date: 1_700_000_000_000_000_000,
        blood_pressure: "120/80".to_string(),
        weight_grams: 68_500,
        symptoms: vec!["fatigue".to_string()],
        notes: String::new(),
        next_appointment: u64::MAX,
        health_status: HealthStatus::Critical,
    }
}

fn same_profile(a: &MotherProfile, b: &MotherProfile) -> bool {
    a.id == b.id
        && a.name == b.name
        && a.age == b.age
        && a.blood_type == b.blood_type
        && a.expected_delivery_date == b.expected_delivery_date
        && a.stage == b.stage
        && a.health_status == b.health_status
        && a.created_at == b.created_at
        && a.last_checkup == b.last_checkup
        && a.medical_history == b.medical_history
        && a.emergency_contact == b.emergency_contact
}

#[test]
fn profile_round_trip() {
    let p = profile();
    let bytes = encode_profile(&p);
    let q = decode_profile(&bytes).expect("decodes");
    assert!(same_profile(&p, &q));
}

#[test]
fn record_round_trip() {
    let r = record();
    let bytes = encode_record(&r);
    let q = decode_record(&bytes).expect("decodes");
    assert_eq!(q.id, r.id);
    assert_eq!(q.mother_id, r.mother_id);
    assert_eq!(q.date, r.date);
    assert_eq!(q.blood_pressure, r.blood_pressure);
    assert_eq!(q.weight_grams, r.weight_grams);
    assert_eq!(q.symptoms, r.symptoms);
    assert_eq!(q.notes, r.notes);
    assert_eq!(q.next_appointment, r.next_appointment);
    assert_eq!(q.health_status, r.health_status);
}

#[test]
fn integers_are_little_endian() {
    let bytes = encode_record(&record());
    assert_eq!(&bytes[0..8], &[9, 0, 0, 0, 0, 0, 0, 0]);
    assert_eq!(&bytes[8..16], &[7, 0, 0, 0, 0, 0, 0, 0]);
    assert_eq!(bytes[bytes.len() - 1], 2);
}

#[test]
fn truncated_bytes_do_not_decode() {
    let bytes = encode_profile(&profile());
    assert!(decode_profile(&bytes[..bytes.len() - 1]).is_none());
    assert!(decode_profile(&[]).is_none());
}

#[test]
fn trailing_bytes_do_not_decode() {
    let mut bytes = encode_record(&record());
    bytes.push(0);
    assert!(decode_record(&bytes).is_none());
}

#[test]
fn bad_tag_does_not_decode() {
    let mut bytes = encode_record(&record());
    let n = bytes.len();
    bytes[n - 1] = 9;
    assert!(decode_record(&bytes).is_none());
}

#[test]
fn invalid_utf8_does_not_decode() {
    let mut bytes = encode_profile(&profile());
    // first byte of the name, after the id and its length prefix
    bytes[12] = 0xff;
    assert!(decode_profile(&bytes).is_none());
}
