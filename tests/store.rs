use mama_pack::classify::{HealthStatus, PregnancyStage, NANOS_PER_WEEK};
use mama_pack::store::{Error, HealthRecordPayload, MotherProfilePayload, Store, NANOS_PER_DAY};

const NOW: u64 = 1_700_000_000_000_000_000;

fn payload(name: &str) -> MotherProfilePayload {
    MotherProfilePayload {
        name: name.to_string(),
        age: 28,
        blood_type: "AB-".to_string(),
        expected_delivery_date: NOW + 20 * NANOS_PER_WEEK,
        medical_history: vec!["none".to_string()],
        emergency_contact: "Jane 0700".to_string(),
    }
}

fn checkup(mother_id: u64, bp: &str, weight_grams: u32, symptoms: &[&str], next: u64) -> HealthRecordPayload {
    HealthRecordPayload {
        mother_id,
        blood_pressure: bp.to_string(),
        weight_grams,
        symptoms: symptoms.iter().map(|s| s.to_string()).collect(),
        notes: "routine".to_string(),
        next_appointment: next,
    }
}

#[test]
fn created_profile_is_stored_with_derived_fields() {
    let mut s = Store::new().ok().unwrap();
    let p = s.create_mother_profile(payload("Asha"), NOW).ok().unwrap();
    assert_eq!(p.id, 1);
    assert_eq!(p.stage, PregnancyStage::SecondTrimester);
    assert_eq!(p.health_status, HealthStatus::Normal);
    assert_eq!(p.created_at, NOW);
    assert_eq!(p.last_checkup, NOW);
    let q = s.get_mother_profile(1).ok().unwrap();
    assert_eq!(q.name, "Asha");
    assert_eq!(q.blood_type, "AB-");
    assert_eq!(q.medical_history, vec!["none".to_string()]);
}

#[test]
fn missing_profile_is_not_found() {
    let s = Store::new().ok().unwrap();
    assert!(matches!(s.get_mother_profile(5), Err(Error::NotFound { .. })));
}

#[test]
fn ids_are_shared_and_distinct_across_kinds() {
    let mut s = Store::new().ok().unwrap();
    let a = s.create_mother_profile(payload("A"), NOW).ok().unwrap();
    let r = s.add_health_record(checkup(a.id, "120/80", 70_000, &[], NOW + 1), NOW).ok().unwrap();
    let b = s.create_mother_profile(payload("B"), NOW).ok().unwrap();
    let r2 = s.add_health_record(checkup(b.id, "120/80", 70_000, &[], NOW + 1), NOW).ok().unwrap();
    assert_eq!(vec![a.id, r.id, b.id, r2.id], vec![1, 2, 3, 4]);
}

#[test]
fn record_for_unknown_mother_is_refused_without_taking_an_id() {
    let mut s = Store::new().ok().unwrap();
    let res = s.add_health_record(checkup(42, "120/80", 70_000, &[], NOW + 1), NOW);
    assert!(matches!(res, Err(Error::NotFound { .. })));
    let p = s.create_mother_profile(payload("A"), NOW).ok().unwrap();
    assert_eq!(p.id, 1);
    assert!(matches!(s.get_mother_health_records(42), Err(Error::NotFound { .. })));
}

#[test]
fn record_updates_mother_status_and_checkup() {
    let mut s = Store::new().ok().unwrap();
    let p = s.create_mother_profile(payload("A"), NOW).ok().unwrap();
    let later = NOW + 1000;
    let r = s.add_health_record(checkup(p.id, "150/95", 70_000, &[], NOW + 1), later).ok().unwrap();
    assert_eq!(r.health_status, HealthStatus::Critical);
    assert_eq!(r.date, later);
    let q = s.get_mother_profile(p.id).ok().unwrap();
    assert_eq!(q.health_status, HealthStatus::Critical);
    assert_eq!(q.last_checkup, later);
    assert_eq!(q.created_at, NOW);
    let r2 = s.add_health_record(checkup(p.id, "120/80", 70_000, &[], NOW + 1), later + 1).ok().unwrap();
    assert_eq!(r2.health_status, HealthStatus::Normal);
    assert_eq!(s.get_mother_profile(p.id).ok().unwrap().health_status, HealthStatus::Normal);
    let recs = s.get_mother_health_records(p.id).ok().unwrap();
    assert_eq!(recs.len(), 2);
    assert_eq!(recs[0].health_status, HealthStatus::Critical);
    assert_eq!(recs[1].health_status, HealthStatus::Normal);
}

#[test]
fn critical_list_is_exact_and_ascending() {
    let mut s = Store::new().ok().unwrap();
    let a = s.create_mother_profile(payload("A"), NOW).ok().unwrap();
    let b = s.create_mother_profile(payload("B"), NOW).ok().unwrap();
    let c = s.create_mother_profile(payload("C"), NOW).ok().unwrap();
    s.add_health_record(checkup(c.id, "150/95", 70_000, &[], 0), NOW).ok().unwrap();
    s.add_health_record(checkup(a.id, "120/80", 70_000, &["fever"], 0), NOW).ok().unwrap();
    s.add_health_record(checkup(b.id, "120/80", 70_000, &["nausea"], 0), NOW).ok().unwrap();
    let ids: Vec<u64> = s.get_critical_cases().iter().map(|p| p.id).collect();
    assert_eq!(ids, vec![a.id, c.id]);
    let high: Vec<u64> = s.get_high_risk_profiles().iter().map(|p| p.id).collect();
    assert_eq!(high, ids);
    s.add_health_record(checkup(c.id, "120/80", 70_000, &[], 0), NOW).ok().unwrap();
    let ids: Vec<u64> = s.get_critical_cases().iter().map(|p| p.id).collect();
    assert_eq!(ids, vec![a.id]);
}

#[test]
fn upcoming_appointments_window() {
    let mut s = Store::new().ok().unwrap();
    let a = s.create_mother_profile(payload("A"), NOW).ok().unwrap();
    let day = NANOS_PER_DAY;
    let r1 = s.add_health_record(checkup(a.id, "120/80", 70_000, &[], NOW + 3 * day), NOW).ok().unwrap();
    s.add_health_record(checkup(a.id, "120/80", 70_000, &[], NOW), NOW).ok().unwrap();
    s.add_health_record(checkup(a.id, "120/80", 70_000, &[], NOW + 8 * day), NOW).ok().unwrap();
    let r4 = s.add_health_record(checkup(a.id, "120/80", 70_000, &[], NOW + 7 * day), NOW).ok().unwrap();
    let up = s.get_upcoming_appointments(7, NOW);
    let ids: Vec<u64> = up.iter().map(|(_, r)| r.id).collect();
    assert_eq!(ids, vec![r1.id]);
    assert!(up.iter().all(|(p, _)| p.id == a.id));
    let up8: Vec<u64> = s.get_upcoming_appointments(8, NOW).iter().map(|(_, r)| r.id).collect();
    assert_eq!(up8, vec![r1.id, r4.id]);
    assert_eq!(s.get_upcoming_appointments(u64::MAX, NOW).len(), 3);
}

#[test]
fn invalid_payloads_are_refused() {
    let mut s = Store::new().ok().unwrap();
    let mut p = payload("A");
    p.age = 12;
    assert!(matches!(s.create_mother_profile(p, NOW), Err(Error::InvalidInput { .. })));
    let mut p = payload("A");
    p.age = 66;
    assert!(matches!(s.create_mother_profile(p, NOW), Err(Error::InvalidInput { .. })));
    let mut p = payload("A");
    p.blood_type = "C+".to_string();
    assert!(matches!(s.create_mother_profile(p, NOW), Err(Error::InvalidInput { .. })));
    let mut p = payload("A");
    p.expected_delivery_date = NOW;
    assert!(matches!(s.create_mother_profile(p, NOW), Err(Error::InvalidInput { .. })));
    let mut p = payload("A");
    p.emergency_contact = "   ".to_string();
    assert!(matches!(s.create_mother_profile(p, NOW), Err(Error::InvalidInput { .. })));
    let mut p = payload("A");
    p.medical_history = vec!["x".repeat(3000)];
    assert!(matches!(s.create_mother_profile(p, NOW), Err(Error::InvalidInput { .. })));
    let mut p = payload("A");
    p.age = 13;
    let ok = s.create_mother_profile(p, NOW).ok().unwrap();
    assert_eq!(ok.id, 1);
}

#[test]
fn oversized_record_is_refused() {
    let mut s = Store::new().ok().unwrap();
    let a = s.create_mother_profile(payload("A"), NOW).ok().unwrap();
    let mut c = checkup(a.id, "120/80", 70_000, &[], 0);
    c.notes = "n".repeat(2100);
    assert!(matches!(s.add_health_record(c, NOW), Err(Error::InvalidInput { .. })));
    let recs = s.get_mother_health_records(a.id);
    assert!(matches!(recs, Err(Error::NotFound { .. })));
}

#[test]
fn data_survives_reopen() {
    let mut s = Store::new().ok().unwrap();
    let a = s.create_mother_profile(payload("Asha"), NOW).ok().unwrap();
    let r = s.add_health_record(checkup(a.id, "150/95", 70_000, &["fever"], 0), NOW).ok().unwrap();
    let mut t = s.reopen().ok().unwrap();
    let q = t.get_mother_profile(a.id).ok().unwrap();
    assert_eq!(q.name, "Asha");
    assert_eq!(q.health_status, HealthStatus::Critical);
    let recs = t.get_mother_health_records(a.id).ok().unwrap();
    assert_eq!(recs.len(), 1);
    assert_eq!(recs[0].id, r.id);
    let b = t.create_mother_profile(payload("B"), NOW).ok().unwrap();
    assert_eq!(b.id, 3);
    let u = t.reopen().ok().unwrap();
    assert_eq!(u.get_mother_profile(b.id).ok().unwrap().name, "B");
    assert!(matches!(u.get_mother_profile(4), Err(Error::NotFound { .. })));
}

#[test]
fn generate_new_id_counts_up() {
    let mut s = Store::new().ok().unwrap();
    assert_eq!(s.generate_new_id().ok(), Some(1));
    assert_eq!(s.generate_new_id().ok(), Some(2));
    let p = s.create_mother_profile(payload("A"), NOW).ok().unwrap();
    assert_eq!(p.id, 3);
}

#[test]
fn defaults_match_a_new_profile() {
    assert_eq!(PregnancyStage::default(), PregnancyStage::FirstTrimester);
    assert_eq!(HealthStatus::default(), HealthStatus::Normal);
}
