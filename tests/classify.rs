use mama_pack::classify::{
    analyze_health_status, calculate_pregnancy_stage, classify_lowered, parse_blood_pressure,
    HealthStatus, PregnancyStage, NANOS_PER_WEEK,
};
use mama_pack::text::{chars_of, contains_chars, parse_i32};

const NOW: u64 = 1_700_000_000_000_000_000;

fn texts(v: &[&str]) -> Vec<String> {
    v.iter().map(|s| s.to_string()).collect()
}

#[test]
fn stage_on_delivery_date_is_post_partum() {
    assert_eq!(calculate_pregnancy_stage(NOW, NOW), PregnancyStage::PostPartum);
}

#[test]
fn stage_after_delivery_date_is_post_partum() {
    assert_eq!(calculate_pregnancy_stage(NOW - 5, NOW), PregnancyStage::PostPartum);
}

#[test]
fn stage_thirty_weeks_out_is_first_trimester() {
    assert_eq!(
        calculate_pregnancy_stage(NOW + 30 * NANOS_PER_WEEK, NOW),
        PregnancyStage::FirstTrimester
    );
}

#[test]
fn stage_boundaries() {
    let w = NANOS_PER_WEEK;
    assert_eq!(calculate_pregnancy_stage(NOW + w - 1, NOW), PregnancyStage::PostPartum);
    assert_eq!(calculate_pregnancy_stage(NOW + w, NOW), PregnancyStage::ThirdTrimester);
    assert_eq!(calculate_pregnancy_stage(NOW + 14 * w - 1, NOW), PregnancyStage::ThirdTrimester);
    assert_eq!(calculate_pregnancy_stage(NOW + 14 * w, NOW), PregnancyStage::SecondTrimester);
    assert_eq!(calculate_pregnancy_stage(NOW + 28 * w - 1, NOW), PregnancyStage::SecondTrimester);
    assert_eq!(calculate_pregnancy_stage(NOW + 28 * w, NOW), PregnancyStage::FirstTrimester);
}

#[test]
fn high_blood_pressure_without_symptoms_is_critical() {
    assert_eq!(analyze_health_status("150/95", 70_000, &vec![]), HealthStatus::Critical);
}

#[test]
fn low_weight_caps_critical_symptom_at_needs_attention() {
    assert_eq!(
        analyze_health_status("120/80", 40_000, &texts(&["mild headache"])),
        HealthStatus::NeedsAttention
    );
}

#[test]
fn critical_symptom_with_normal_vitals_is_critical() {
    assert_eq!(
        analyze_health_status("120/80", 70_000, &texts(&["severe bleeding"])),
        HealthStatus::Critical
    );
}

#[test]
fn unparsable_blood_pressure_is_skipped() {
    assert_eq!(analyze_health_status("n/a", 70_000, &vec![]), HealthStatus::Normal);
}

#[test]
fn symptoms_match_without_regard_to_case() {
    assert_eq!(
        analyze_health_status("120/80", 70_000, &texts(&["SEVERE Cramps"])),
        HealthStatus::Critical
    );
    assert_eq!(
        analyze_health_status("120/80", 70_000, &texts(&["Some Nausea"])),
        HealthStatus::NeedsAttention
    );
    assert_eq!(
        analyze_health_status("120/80", 70_000, &texts(&["tired", "back pain"])),
        HealthStatus::NeedsAttention
    );
}

#[test]
fn lowered_symptoms_are_matched_as_given() {
    assert_eq!(
        classify_lowered("120/80", 70_000, &texts(&["SEVERE"])),
        HealthStatus::Normal
    );
    assert_eq!(
        classify_lowered("120/80", 70_000, &texts(&["fever"])),
        HealthStatus::Critical
    );
}

#[test]
fn blood_pressure_band_edges() {
    assert_eq!(analyze_health_status("139/89", 70_000, &vec![]), HealthStatus::Normal);
    assert_eq!(analyze_health_status("140/80", 70_000, &vec![]), HealthStatus::Critical);
    assert_eq!(analyze_health_status("120/90", 70_000, &vec![]), HealthStatus::Critical);
    assert_eq!(analyze_health_status("90/60", 70_000, &vec![]), HealthStatus::Normal);
    assert_eq!(analyze_health_status("89/70", 70_000, &vec![]), HealthStatus::Critical);
    assert_eq!(analyze_health_status("120/59", 70_000, &vec![]), HealthStatus::Critical);
}

#[test]
fn weight_edges() {
    assert_eq!(analyze_health_status("120/80", 45_000, &vec![]), HealthStatus::Normal);
    assert_eq!(analyze_health_status("120/80", 100_000, &vec![]), HealthStatus::Normal);
    assert_eq!(analyze_health_status("120/80", 44_999, &vec![]), HealthStatus::NeedsAttention);
    assert_eq!(analyze_health_status("120/80", 100_001, &vec![]), HealthStatus::NeedsAttention);
}

#[test]
fn blood_pressure_parsing() {
    assert_eq!(parse_blood_pressure("120/80"), Some((120, 80)));
    assert_eq!(parse_blood_pressure(" 120 / 80 "), Some((120, 80)));
    assert_eq!(parse_blood_pressure("+120/-80"), Some((120, -80)));
    assert_eq!(parse_blood_pressure("120/80/60"), None);
    assert_eq!(parse_blood_pressure("120"), None);
    assert_eq!(parse_blood_pressure("12a/80"), None);
    assert_eq!(parse_blood_pressure("/80"), None);
}

#[test]
fn integer_parsing() {
    assert_eq!(parse_i32(&chars_of("2147483647")), Some(2147483647));
    assert_eq!(parse_i32(&chars_of("-2147483648")), Some(-2147483648));
    assert_eq!(parse_i32(&chars_of("2147483648")), None);
    assert_eq!(parse_i32(&chars_of("99999999999999999999")), None);
    assert_eq!(parse_i32(&chars_of("-")), None);
    assert_eq!(parse_i32(&chars_of("")), None);
    assert_eq!(parse_i32(&chars_of("007")), Some(7));
}

#[test]
fn substring_search() {
    assert!(contains_chars(&chars_of("mild headache"), &chars_of("headache")));
    assert!(!contains_chars(&chars_of("head"), &chars_of("headache")));
    assert!(contains_chars(&chars_of("abc"), &chars_of("")));
}
