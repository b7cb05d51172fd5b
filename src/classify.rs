//! Pregnancy stage from a delivery date, and health status from vitals and symptoms.
use vstd::prelude::*;
use vstd::string::*;
use crate::text::{chars_of, contains_chars, contains_seq, i32_text_value, parse_i32};

verus! {

/// Where a pregnancy stands, judged by the weeks left until the expected delivery date.
#[derive(Clone, Copy, Debug, PartialEq, Eq, Structural)]
pub enum PregnancyStage {
    FirstTrimester,
    SecondTrimester,
    ThirdTrimester,
    PostPartum,
}

/// Risk level of a mother, from the most recent checkup.
#[derive(Clone, Copy, Debug, PartialEq, Eq, Structural)]
pub enum HealthStatus {
    Normal,
    NeedsAttention,
    Critical,
}

impl Default for PregnancyStage {
    fn default() -> (r: PregnancyStage)
        ensures
            r == PregnancyStage::FirstTrimester,
    {
        PregnancyStage::FirstTrimester
    }
}

impl Default for HealthStatus {
    fn default() -> (r: HealthStatus)
        ensures
            r == HealthStatus::Normal,
    {
        HealthStatus::Normal
    }
}

/// Nanoseconds in one week, the unit of the host clock.
pub const NANOS_PER_WEEK: u64 = 604800000000000;

/// Whole weeks from `now` until `edd`; zero once the date has passed.
pub open spec fn weeks_until(edd: int, now: int) -> int {
    if edd > now {
        (edd - now) / (NANOS_PER_WEEK as int)
    } else {
        0
    }
}

/// The stage table: 0 weeks left is post-partum, 1 to 13 the third trimester, 14 to 27 the
/// second, 28 and more the first.
pub open spec fn stage_for_weeks(weeks: int) -> PregnancyStage {
    if weeks <= 0 {
        PregnancyStage::PostPartum
    } else if weeks <= 13 {
        PregnancyStage::ThirdTrimester
    } else if weeks <= 27 {
        PregnancyStage::SecondTrimester
    } else {
        PregnancyStage::FirstTrimester
    }
}

/// The stage of a pregnancy with expected delivery date `edd`, judged at time `now` (both in
/// nanoseconds).
pub fn calculate_pregnancy_stage(edd: u64, now: u64) -> (r: PregnancyStage)
    ensures
        r == stage_for_weeks(weeks_until(edd as int, now as int)),
{
    let diff: u64 = if edd > now {
        edd - now
    } else {
        0
    };
    let weeks = diff / NANOS_PER_WEEK;
    if weeks == 0 {
        PregnancyStage::PostPartum
    } else if weeks <= 13 {
        PregnancyStage::ThirdTrimester
    } else if weeks <= 27 {
        PregnancyStage::SecondTrimester
    } else {
        PregnancyStage::FirstTrimester
    }
}

/// What `str::to_lowercase` makes of a string.
pub uninterp spec fn lower_of(s: Seq<char>) -> Seq<char>;

/// What `str::trim` leaves of a string.
pub uninterp spec fn trim_of(s: Seq<char>) -> Seq<char>;

/// Relies on `str::to_lowercase`: the result depends on the characters alone.
#[verifier::external_body]
fn lowercase(s: &str) -> (r: String)
    ensures
        r@ == lower_of(s@),
{
    s.to_lowercase()
}

/// Relies on `str::trim`: the result depends on the characters alone.
#[verifier::external_body]
pub(crate) fn trimmed(s: &str) -> (r: String)
    ensures
        r@ == trim_of(s@),
{
    s.trim().to_string()
}

/// Number of `/` in `s`.
pub open spec fn slash_count(s: Seq<char>) -> int
    decreases s.len(),
{
    if s.len() == 0 {
        0
    } else {
        slash_count(s.drop_last()) + if s.last() == '/' { 1int } else { 0int }
    }
}

/// Position of the first `/` in `s`, or `s.len()` when there is none.
pub open spec fn first_slash(s: Seq<char>) -> int
    decreases s.len(),
{
    if s.len() == 0 {
        0
    } else {
        let f = first_slash(s.drop_last());
        if f < s.len() - 1 {
            f
        } else if s.last() == '/' {
            s.len() - 1
        } else {
            s.len() as int
        }
    }
}

proof fn lemma_first_slash_bound(s: Seq<char>)
    ensures
        0 <= first_slash(s) <= s.len(),
        slash_count(s) >= 0,
        slash_count(s) > 0 ==> first_slash(s) < s.len(),
    decreases s.len(),
{
    if s.len() > 0 {
        lemma_first_slash_bound(s.drop_last());
    }
}

/// A blood pressure reading `systolic/diastolic`: exactly one `/`, and on each side, once
/// trimmed, an `i32`.
pub open spec fn bp_reading(s: Seq<char>) -> Option<(int, int)> {
    if slash_count(s) == 1 {
        let k = first_slash(s);
        let a = i32_text_value(trim_of(s.subrange(0, k)));
        let b = i32_text_value(trim_of(s.subrange(k + 1, s.len() as int)));
        if a is Some && b is Some {
            Some((a->0, b->0))
        } else {
            None
        }
    } else {
        None
    }
}

/// Reads a blood pressure string `systolic/diastolic`.
pub fn parse_blood_pressure(bp: &str) -> (r: Option<(i32, i32)>)
    ensures
        r matches Some(p) ==> bp_reading(bp@) == Some((p.0 as int, p.1 as int)),
        r is None ==> bp_reading(bp@) is None,
{
    let cs = chars_of(bp);
    let n = cs.len();
    let mut count: usize = 0;
    let mut first: usize = 0;
    let mut i: usize = 0;
    while i < n
        invariant
            n == cs@.len(),
            cs@ == bp@,
            i <= n,
            count <= i,
            count == slash_count(cs@.subrange(0, i as int)),
            first == first_slash(cs@.subrange(0, i as int)),
        decreases n - i,
    {
        proof {
            let next = cs@.subrange(0, i + 1);
            assert(next.drop_last() =~= cs@.subrange(0, i as int));
            lemma_first_slash_bound(cs@.subrange(0, i as int));
        }
        if cs[i] == '/' {
            if first == i {
                first = i;
            }
            count = count + 1;
        } else if first == i {
            first = i + 1;
        }
        i = i + 1;
    }
    assert(cs@.subrange(0, n as int) =~= bp@);
    if count != 1 {
        return None;
    }
    proof {
        lemma_first_slash_bound(bp@);
    }
    assert(first < n);
    let left = trimmed(bp.substring_char(0, first));
    let right = trimmed(bp.substring_char(first + 1, n));
    let a = parse_i32(&chars_of(left.as_str()));
    let b = parse_i32(&chars_of(right.as_str()));
    match (a, b) {
        (Some(x), Some(y)) => Some((x, y)),
        _ => None,
    }
}

/// The characters of each string.
pub open spec fn strings_view(v: Seq<String>) -> Seq<Seq<char>> {
    v.map_values(|x: String| x@)
}

/// Each string lowercased.
pub open spec fn lowered_all(v: Seq<Seq<char>>) -> Seq<Seq<char>> {
    v.map_values(|x: Seq<char>| lower_of(x))
}

/// Symptom words that mark a checkup as critical.
pub open spec fn critical_words() -> Seq<Seq<char>> {
    seq![
        "severe"@, "emergency"@, "critical"@, "bleeding"@,
        "seizure"@, "unconscious"@, "fever"@, "headache"@,
    ]
}

/// Symptom words that mark a checkup as needing attention.
pub open spec fn concerning_words() -> Seq<Seq<char>> {
    seq!["nausea"@, "vomiting"@, "swelling"@, "pain"@, "discomfort"@, "fatigue"@, "dizziness"@]
}

/// Some text of `texts` contains some word of `words`.
pub open spec fn mentions_any(texts: Seq<Seq<char>>, words: Seq<Seq<char>>) -> bool {
    exists|i: int, j: int|
        0 <= i < texts.len() && 0 <= j < words.len() && #[trigger] contains_seq(
            texts[i],
            #[trigger] words[j],
        )
}

/// A parsed blood pressure outside the safe band.
pub open spec fn bp_is_critical(bp: Seq<char>) -> bool {
    match bp_reading(bp) {
        Some((sys, dia)) => sys >= 140 || dia >= 90 || sys < 90 || dia < 60,
        None => false,
    }
}

/// Lowest weight, in grams, that needs no attention.
pub const MIN_WEIGHT_GRAMS: u32 = 45000;

/// Highest weight, in grams, that needs no attention.
pub const MAX_WEIGHT_GRAMS: u32 = 100000;

/// The health status rules, in order of precedence: a blood pressure out of band is critical;
/// else a weight outside [45 kg, 100 kg] needs attention; else a critical symptom word is
/// critical; else a concerning word needs attention; else normal. `lowered` holds the symptom
/// texts already lowercased.
pub open spec fn health_status_spec(
    bp: Seq<char>,
    weight_grams: int,
    lowered: Seq<Seq<char>>,
) -> HealthStatus {
    if bp_is_critical(bp) {
        HealthStatus::Critical
    } else if weight_grams < MIN_WEIGHT_GRAMS || weight_grams > MAX_WEIGHT_GRAMS {
        HealthStatus::NeedsAttention
    } else if mentions_any(lowered, critical_words()) {
        HealthStatus::Critical
    } else if mentions_any(lowered, concerning_words()) {
        HealthStatus::NeedsAttention
    } else {
        HealthStatus::Normal
    }
}

pub open spec fn chars_view(v: Seq<Vec<char>>) -> Seq<Seq<char>> {
    v.map_values(|x: Vec<char>| x@)
}

fn char_vecs(words: &Vec<&str>) -> (r: Vec<Vec<char>>)
    ensures
        chars_view(r@) == words@.map_values(|w: &str| w@),
{
    let mut r: Vec<Vec<char>> = Vec::new();
    let mut i: usize = 0;
    while i < words.len()
        invariant
            i <= words@.len(),
            r@.len() == i,
            forall|k: int| 0 <= k < i ==> #[trigger] r@[k]@ == words@[k]@,
        decreases words@.len() - i,
    {
        r.push(chars_of(words[i]));
        i = i + 1;
    }
    assert(chars_view(r@) =~= words@.map_values(|w: &str| w@));
    r
}

fn critical_word_chars() -> (r: Vec<Vec<char>>)
    ensures
        chars_view(r@) == critical_words(),
{
    let words: Vec<&str> = vec![
        "severe", "emergency", "critical", "bleeding",
        "seizure", "unconscious", "fever", "headache",
    ];
    let r = char_vecs(&words);
    assert(words@.map_values(|w: &str| w@) =~= critical_words());
    r
}

fn concerning_word_chars() -> (r: Vec<Vec<char>>)
    ensures
        chars_view(r@) == concerning_words(),
{
    let words: Vec<&str> = vec![
        "nausea", "vomiting", "swelling", "pain", "discomfort", "fatigue", "dizziness",
    ];
    let r = char_vecs(&words);
    assert(words@.map_values(|w: &str| w@) =~= concerning_words());
    r
}

/// Whether some text contains some word.
pub fn mentions_any_exec(texts: &Vec<Vec<char>>, words: &Vec<Vec<char>>) -> (r: bool)
    ensures
        r == mentions_any(chars_view(texts@), chars_view(words@)),
{
    let ghost tv = chars_view(texts@);
    let ghost wv = chars_view(words@);
    let mut i: usize = 0;
    while i < texts.len()
        invariant
            i <= texts@.len(),
            tv == chars_view(texts@),
            wv == chars_view(words@),
            forall|a: int, b: int|
                0 <= a < i && 0 <= b < wv.len() ==> !#[trigger] contains_seq(tv[a], #[trigger] wv[b]),
        decreases texts@.len() - i,
    {
        let mut j: usize = 0;
        while j < words.len()
            invariant
                i < texts@.len(),
                j <= words@.len(),
                tv == chars_view(texts@),
                wv == chars_view(words@),
                forall|a: int, b: int|
                    0 <= a < i && 0 <= b < wv.len() ==> !#[trigger] contains_seq(tv[a], #[trigger] wv[b]),
                forall|b: int| 0 <= b < j ==> !#[trigger] contains_seq(tv[i as int], wv[b]),
            decreases words@.len() - j,
        {
            if contains_chars(&texts[i], &words[j]) {
                assert(contains_seq(tv[i as int], wv[j as int]));
                return true;
            }
            j = j + 1;
        }
        i = i + 1;
    }
    false
}

/// The health status of a checkup whose symptom texts are already lowercased.
pub fn classify_lowered(bp: &str, weight_grams: u32, lowered: &Vec<String>) -> (r: HealthStatus)
    ensures
        r == health_status_spec(bp@, weight_grams as int, strings_view(lowered@)),
{
    if let Some((sys, dia)) = parse_blood_pressure(bp) {
        if sys >= 140 || dia >= 90 || sys < 90 || dia < 60 {
            return HealthStatus::Critical;
        }
    }
    if weight_grams < MIN_WEIGHT_GRAMS || weight_grams > MAX_WEIGHT_GRAMS {
        return HealthStatus::NeedsAttention;
    }
    let mut texts: Vec<Vec<char>> = Vec::new();
    let mut i: usize = 0;
    while i < lowered.len()
        invariant
            i <= lowered@.len(),
            texts@.len() == i,
            forall|k: int| 0 <= k < i ==> #[trigger] texts@[k]@ == lowered@[k]@,
        decreases lowered@.len() - i,
    {
        texts.push(chars_of(lowered[i].as_str()));
        i = i + 1;
    }
    assert(chars_view(texts@) =~= strings_view(lowered@));
    if mentions_any_exec(&texts, &critical_word_chars()) {
        HealthStatus::Critical
    } else if mentions_any_exec(&texts, &concerning_word_chars()) {
        HealthStatus::NeedsAttention
    } else {
        HealthStatus::Normal
    }
}

/// The health status of a checkup: blood pressure text, weight in grams, symptom texts
/// (matched against the keyword lists without regard to case).
pub fn analyze_health_status(bp: &str, weight_grams: u32, symptoms: &Vec<String>) -> (r:
    HealthStatus)
    ensures
        r == health_status_spec(
            bp@,
            weight_grams as int,
            lowered_all(strings_view(symptoms@)),
        ),
{
    let mut lowered: Vec<String> = Vec::new();
    let mut i: usize = 0;
    while i < symptoms.len()
        invariant
            i <= symptoms@.len(),
            lowered@.len() == i,
            forall|k: int| 0 <= k < i ==> #[trigger] lowered@[k]@ == lower_of(symptoms@[k]@),
        decreases symptoms@.len() - i,
    {
        lowered.push(lowercase(symptoms[i].as_str()));
        i = i + 1;
    }
    assert(strings_view(lowered@) =~= lowered_all(strings_view(symptoms@)));
    classify_lowered(bp, weight_grams, &lowered)
}

} // verus!
