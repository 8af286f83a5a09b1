use citordle::dates::GameDate;
use citordle::models::DailyProgress;
use citordle::session::{
    bearer_token, current_progress, default_progress, trim_daily_entries, Clock, JwtHeader, SessionClaims,
    SessionManager, MAX_DAILY_ENTRIES,
};

const HEADER_JSON: &[u8] = br#"{"alg":"HS256","typ":"JWT"}"#;
const PAYLOAD_JSON: &[u8] = br#"{"sub":"anon-1","iat":1,"exp":2,"daily":[]}"#;

fn date(y: i32, m: u32, d: u32) -> GameDate {
    GameDate::new(y, m, d).unwrap()
}

fn clock(seconds: i64) -> Clock {
    Clock { seconds, nanos: 123 }
}

fn header(alg: &str, typ: &str) -> JwtHeader {
    JwtHeader { alg: alg.to_string(), typ: typ.to_string() }
}

fn claims(exp: usize, daily: Vec<DailyProgress>) -> SessionClaims {
    SessionClaims { sub: "anon-7".to_string(), iat: 1, exp, daily }
}

fn progress(day: &str, city: &str, attempts: u32) -> DailyProgress {
    DailyProgress {
        date: day.to_string(),
        city_id: city.to_string(),
        round1_attempts: attempts,
        round2_attempts: 0,
        round3_attempts: 0,
        round1_completed: false,
        round2_completed: false,
        round3_completed: false,
        completed: false,
    }
}

#[test]
fn sign_is_hmac_sha256() {
    let manager = SessionManager::new("key");
    let tag = manager.sign(b"The quick brown fox jumps over the lazy dog");
    let hex: String = tag.iter().map(|b| format!("{b:02x}")).collect();
    assert_eq!(hex, "f7bc83f430538424b13298e6aa6fb143ef4d59a14946175997479dbc2d1a3cd8");
}

#[test]
fn sealed_token_has_jwt_shape_and_opens() {
    let manager = SessionManager::new("citordle-dev-secret");
    let token = manager.seal_token(HEADER_JSON, PAYLOAD_JSON);
    assert!(token.starts_with("eyJhbGciOiJIUzI1NiIsInR5cCI6IkpXVCJ9."));
    assert_eq!(token.matches('.').count(), 2);
    let opened = manager.open_token(Some(token.as_str())).unwrap();
    assert_eq!(opened.0, HEADER_JSON.to_vec());
    assert_eq!(opened.1, PAYLOAD_JSON.to_vec());
    let padded = format!("  {token}\n");
    assert_eq!(manager.open_token(Some(padded.as_str())), Some((HEADER_JSON.to_vec(), PAYLOAD_JSON.to_vec())));
}

#[test]
fn tampered_or_foreign_tokens_do_not_open() {
    let manager = SessionManager::new("citordle-dev-secret");
    let token = manager.seal_token(HEADER_JSON, PAYLOAD_JSON);
    let other = SessionManager::new("another-secret");
    assert_eq!(other.open_token(Some(token.as_str())), None);
    let parts: Vec<&str> = token.split('.').collect();
    let forged_payload = manager.seal_token(HEADER_JSON, br#"{"sub":"x"}"#);
    let forged_part = forged_payload.split('.').nth(1).unwrap();
    let forged = format!("{}.{}.{}", parts[0], forged_part, parts[2]);
    assert_eq!(manager.open_token(Some(forged.as_str())), None);
    assert_eq!(manager.open_token(Some(format!("{token}.x").as_str())), None);
    assert_eq!(manager.open_token(Some("")), None);
    assert_eq!(manager.open_token(Some("   ")), None);
    assert_eq!(manager.open_token(Some("a.b")), None);
    assert_eq!(manager.open_token(None), None);
}

#[test]
fn claims_are_accepted_only_with_the_expected_header_and_before_expiry() {
    let manager = SessionManager::new("s");
    assert!(manager.accept_claims(&header("HS256", "JWT"), claims(100, vec![]), 99).is_some());
    assert!(manager.accept_claims(&header("HS256", "JWT"), claims(100, vec![]), 100).is_none());
    assert!(manager.accept_claims(&header("HS512", "JWT"), claims(100, vec![]), 5).is_none());
    assert!(manager.accept_claims(&header("HS256", "jwt"), claims(100, vec![]), 5).is_none());
}

#[test]
fn new_claims_are_anonymous_and_last_forty_five_days() {
    let manager = SessionManager::new("s");
    let c = manager.new_claims(Clock { seconds: 1_700_000_000, nanos: -42 });
    assert_eq!(c.sub, "anon--42");
    assert_eq!(c.iat, 1_700_000_000);
    assert_eq!(c.exp, 1_700_000_000 + 45 * 86_400);
    assert!(c.daily.is_empty());
    let c = manager.new_claims(Clock { seconds: 5, nanos: 1_700_000_000_123_456_789 });
    assert_eq!(c.sub, "anon-1700000000123456789");
}

#[test]
fn bootstrap_starts_a_fresh_day() {
    let manager = SessionManager::new("s");
    let day = date(2024, 5, 1);
    let (c, p) = manager.bootstrap(None, &day, "paris", clock(1000));
    assert_eq!(c.sub, "anon-123");
    assert_eq!(c.daily.len(), 1);
    assert_eq!(p.date, "2024-05-01");
    assert_eq!(p.city_id, "paris");
    assert_eq!(p.round1_attempts, 0);
    assert!(!p.completed);
}

#[test]
fn bootstrap_keeps_existing_progress() {
    let manager = SessionManager::new("s");
    let day = date(2024, 5, 1);
    let start = claims(10, vec![progress("2024-04-30", "lima", 4), progress("2024-05-01", "paris", 3)]);
    let (c, p) = manager.bootstrap(Some(start), &day, "paris", clock(1000));
    assert_eq!(c.sub, "anon-7");
    assert_eq!(c.daily.len(), 2);
    assert_eq!(p.round1_attempts, 3);
    assert_eq!(c.iat, 1000);
}

#[test]
fn attempts_are_counted_and_completion_follows_all_rounds() {
    let manager = SessionManager::new("s");
    let day = date(2024, 5, 1);
    let (c, p) = manager.apply_round_attempt(None, &day, "paris", 1, false, clock(1));
    assert_eq!(p.round1_attempts, 1);
    assert!(!p.round1_completed);
    let (c, p) = manager.apply_round_attempt(Some(c), &day, "paris", 1, true, clock(2));
    assert_eq!(p.round1_attempts, 2);
    assert!(p.round1_completed);
    let (c, p) = manager.apply_round_attempt(Some(c), &day, "paris", 2, true, clock(3));
    assert!(p.round2_completed && !p.completed);
    let (c, p) = manager.apply_round_attempt(Some(c), &day, "paris", 1, false, clock(4));
    assert!(p.round1_completed);
    assert_eq!(p.round1_attempts, 3);
    let (c, p) = manager.apply_round_attempt(Some(c), &day, "paris", 7, true, clock(5));
    assert_eq!((p.round1_attempts, p.round2_attempts, p.round3_attempts), (3, 1, 0));
    let (_c, p) = manager.apply_round_attempt(Some(c), &day, "paris", 3, true, clock(6));
    assert!(p.completed);
}

#[test]
fn attempt_counts_saturate() {
    let manager = SessionManager::new("s");
    let mut full = progress("2024-05-01", "paris", u32::MAX);
    full.round1_completed = true;
    let (_c, p) = manager.apply_round_attempt(Some(claims(10, vec![full])), &date(2024, 5, 1), "paris", 1, false, clock(1));
    assert_eq!(p.round1_attempts, u32::MAX);
    assert!(p.round1_completed);
}

#[test]
fn only_the_most_recent_days_are_kept() {
    let mut c = claims(10, (0..20).map(|k| progress(&format!("day-{k}"), "x", k)).collect());
    trim_daily_entries(&mut c);
    assert_eq!(c.daily.len(), MAX_DAILY_ENTRIES);
    assert_eq!(c.daily[0].date, "day-6");
    assert_eq!(c.daily[13].date, "day-19");
    let manager = SessionManager::new("s");
    let many = claims(10, (0..14).map(|k| progress(&format!("d{k}"), "x", 0)).collect());
    let (c, _p) = manager.bootstrap(Some(many), &date(2024, 5, 1), "paris", clock(1));
    assert_eq!(c.daily.len(), 14);
    assert_eq!(c.daily[13].date, "2024-05-01");
    assert_eq!(c.daily[0].date, "d1");
}

#[test]
fn current_progress_takes_the_last_entry_for_the_day() {
    let day = date(2024, 5, 1);
    let c = claims(10, vec![progress("2024-05-01", "paris", 1), progress("2024-05-01", "paris", 2), progress("2024-05-01", "lima", 9)]);
    assert_eq!(current_progress(&c, &day, "paris").unwrap().round1_attempts, 2);
    assert!(current_progress(&c, &day, "oslo").is_none());
    let d = default_progress(&day, "oslo");
    assert_eq!(d.date, "2024-05-01");
    assert_eq!(d.round3_attempts, 0);
}

#[test]
fn bearer_tokens_are_read_from_the_header() {
    assert_eq!(bearer_token("Bearer abc.def.ghi").as_deref(), Some("abc.def.ghi"));
    assert_eq!(bearer_token("  Bearer xyz  ").as_deref(), Some("xyz"));
    assert_eq!(bearer_token("Bearer "), None);
    assert_eq!(bearer_token("Bearer  x ").as_deref(), Some(" x"));
    assert_eq!(bearer_token("bearer xyz"), None);
    assert_eq!(bearer_token("Basic xyz"), None);
    assert_eq!(bearer_token("Bearer"), None);
}

#[test]
fn clock_reads_the_current_time() {
    let before = chrono::Utc::now().timestamp();
    let c = citordle::clock::now();
    let after = chrono::Utc::now().timestamp();
    assert!(before <= c.seconds && c.seconds <= after);
    assert!(c.nanos / 1_000_000_000 >= before && c.nanos / 1_000_000_000 <= after);
}

#[test]
fn today_is_the_utc_date() {
    let before = chrono::Utc::now().date_naive();
    let today = citordle::game::GameService::today();
    let after = chrono::Utc::now().date_naive();
    let text = today.to_text();
    assert!(text == before.to_string() || text == after.to_string());
}

#[test]
fn every_kept_entry_stays_coherent_across_attempts() {
    let manager = SessionManager::new("s");
    let mut decoded = None;
    let rounds = [(1u8, false), (2, true), (1, true), (3, false), (9, true), (3, true), (2, false)];
    for (k, (round, correct)) in rounds.iter().enumerate() {
        let day = date(2024, 5, 1 + (k as u32 % 3));
        let (c, _p) = manager.apply_round_attempt(decoded.take(), &day, "paris", *round, *correct, clock(k as i64));
        for p in &c.daily {
            assert_eq!(p.completed, p.round1_completed && p.round2_completed && p.round3_completed);
            assert!(!p.round1_completed || p.round1_attempts >= 1);
            assert!(!p.round2_completed || p.round2_attempts >= 1);
            assert!(!p.round3_completed || p.round3_attempts >= 1);
        }
        decoded = Some(c);
    }
}
