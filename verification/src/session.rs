//! Anonymous player sessions: the progress kept per day and the signed tokens that
//! carry it between requests.

use vstd::prelude::*;
use crate::dates::GameDate;
use crate::models::{copy_progress, DailyProgress, ProgressView};
use crate::codec::{
    base64url_decode, base64url_decoded, base64url_encode, base64url_encoded, hmac_sha256,
    hmac_sha256_matches, hmac_sha256_tag, is_url_safe_symbol,
};
use crate::text::{
    all_white, chars_of, is_white_space, lemma_pieces_three, lemma_trim_end_white_suffix,
    lemma_trim_start_white_prefix, trim_start, pieces, push_char, push_decimal, split_range, trim,
    trim_bounds,
};
use vstd::utf8::encode_utf8;

verus! {

/// Days a token stays valid after it was last issued.
pub const TOKEN_LIFETIME_DAYS: i64 = 45;

/// Seconds in `TOKEN_LIFETIME_DAYS` days.
pub const TOKEN_LIFETIME_SECONDS: i64 = 3888000;

/// Most days of progress a token keeps.
pub const MAX_DAILY_ENTRIES: usize = 14;

/// The claims a session token carries.
#[derive(Debug, Clone)]
pub struct SessionClaims {
    pub sub: String,
    pub iat: usize,
    pub exp: usize,
    pub daily: Vec<DailyProgress>,
}

/// The header of a session token.
#[derive(Debug, Clone)]
pub struct JwtHeader {
    pub alg: String,
    pub typ: String,
}

/// The reading of the clock that a session operation uses: seconds and nanoseconds since
/// the Unix epoch.
#[derive(Debug, Clone, Copy)]
pub struct Clock {
    pub seconds: i64,
    pub nanos: i64,
}

/// A player's progress for the current day and the token that carries it.
#[derive(Debug)]
pub struct SessionSnapshot {
    pub progress: DailyProgress,
    pub token: String,
}

/// The plain contents of `SessionClaims`.
pub struct ClaimsView {
    pub sub: Seq<char>,
    pub iat: usize,
    pub exp: usize,
    pub daily: Seq<ProgressView>,
}

/// The views of a list of progress entries.
pub open spec fn progress_views(v: Seq<DailyProgress>) -> Seq<ProgressView> {
    v.map_values(|p: DailyProgress| p@)
}

impl View for SessionClaims {
    type V = ClaimsView;

    open spec fn view(&self) -> ClaimsView {
        ClaimsView { sub: self.sub@, iat: self.iat, exp: self.exp, daily: progress_views(self.daily@) }
    }
}

/// The entry is the progress of `city` on day `day`.
pub open spec fn is_for(p: ProgressView, day: Seq<char>, city: Seq<char>) -> bool {
    p.date == day && p.city_id == city
}

/// Index of the last entry for `day` and `city`, or -1.
pub open spec fn last_match(daily: Seq<ProgressView>, day: Seq<char>, city: Seq<char>) -> int
    decreases daily.len(),
{
    if daily.len() == 0 {
        -1
    } else if is_for(daily.last(), day, city) {
        daily.len() - 1
    } else {
        last_match(daily.drop_last(), day, city)
    }
}

/// Progress of a day not yet played.
pub open spec fn fresh_progress(day: Seq<char>, city: Seq<char>) -> ProgressView {
    ProgressView {
        date: day,
        city_id: city,
        round1_attempts: 0,
        round2_attempts: 0,
        round3_attempts: 0,
        round1_completed: false,
        round2_completed: false,
        round3_completed: false,
        completed: false,
    }
}

/// The last entry for `day` and `city`, or fresh progress where there is none.
pub open spec fn progress_for(daily: Seq<ProgressView>, day: Seq<char>, city: Seq<char>) -> ProgressView {
    let i = last_match(daily, day, city);
    if i >= 0 {
        daily[i]
    } else {
        fresh_progress(day, city)
    }
}

/// The entries with fresh progress for `day` and `city` added where none is there.
pub open spec fn touch(daily: Seq<ProgressView>, day: Seq<char>, city: Seq<char>) -> Seq<ProgressView> {
    if last_match(daily, day, city) >= 0 {
        daily
    } else {
        daily.push(fresh_progress(day, city))
    }
}

/// `x + 1`, or `x` at the top of the range.
pub open spec fn saturating_inc(x: u32) -> u32 {
    if x < u32::MAX {
        (x + 1) as u32
    } else {
        x
    }
}

/// Progress after an attempt at round `round` (1, 2 or 3; other rounds count nothing)
/// that was `correct` or not; the day is complete when all three rounds are.
pub open spec fn with_attempt(p: ProgressView, round: u8, correct: bool) -> ProgressView {
    let r1 = if round == 1 {
        ProgressView {
            round1_attempts: saturating_inc(p.round1_attempts),
            round1_completed: p.round1_completed || correct,
            ..p
        }
    } else {
        p
    };
    let r2 = if round == 2 {
        ProgressView {
            round2_attempts: saturating_inc(r1.round2_attempts),
            round2_completed: r1.round2_completed || correct,
            ..r1
        }
    } else {
        r1
    };
    let r3 = if round == 3 {
        ProgressView {
            round3_attempts: saturating_inc(r2.round3_attempts),
            round3_completed: r2.round3_completed || correct,
            ..r2
        }
    } else {
        r2
    };
    ProgressView { completed: r3.round1_completed && r3.round2_completed && r3.round3_completed, ..r3 }
}

/// The last `MAX_DAILY_ENTRIES` entries.
pub open spec fn keep_recent(daily: Seq<ProgressView>) -> Seq<ProgressView> {
    if daily.len() <= MAX_DAILY_ENTRIES {
        daily
    } else {
        daily.skip(daily.len() - MAX_DAILY_ENTRIES)
    }
}

/// The entries after an attempt: touched for the day, the attempt recorded on the day's
/// last entry.
pub open spec fn record_attempt(
    daily: Seq<ProgressView>,
    day: Seq<char>,
    city: Seq<char>,
    round: u8,
    correct: bool,
) -> Seq<ProgressView> {
    let t = touch(daily, day, city);
    let i = last_match(t, day, city);
    t.update(i, with_attempt(t[i], round, correct))
}

/// `n` in decimal, with a minus sign when negative.
pub open spec fn signed_decimal(n: int) -> Seq<char> {
    if n < 0 {
        seq!['-'] + crate::text::decimal((-n) as nat)
    } else {
        crate::text::decimal(n as nat)
    }
}

/// Subject of a new anonymous session.
pub open spec fn anonymous_subject(nanos: int) -> Seq<char> {
    seq!['a', 'n', 'o', 'n', '-'] + signed_decimal(nanos)
}

/// Progress of `city` on `date`, not yet played.
pub fn default_progress(date: &GameDate, city_id: &str) -> (p: DailyProgress)
    requires
        date.wf(),
    ensures
        p@ == fresh_progress(date.text(), city_id@),
{
    DailyProgress {
        date: date.to_text(),
        city_id: city_id.to_owned(),
        round1_attempts: 0,
        round2_attempts: 0,
        round3_attempts: 0,
        round1_completed: false,
        round2_completed: false,
        round3_completed: false,
        completed: false,
    }
}

/// Index of the last entry of `daily` for `day` and `city`.
fn last_match_index(daily: &Vec<DailyProgress>, day: &String, city: &String) -> (r: Option<usize>)
    ensures
        match r {
            Some(i) => i as int == last_match(progress_views(daily@), day@, city@) && i
                < daily@.len(),
            None => last_match(progress_views(daily@), day@, city@) == -1,
        },
{
    let ghost v = progress_views(daily@);
    let mut i: usize = daily.len();
    assert(v.take(i as int) =~= v);
    while i > 0
        invariant
            i <= daily@.len(),
            v == progress_views(daily@),
            last_match(v, day@, city@) == last_match(v.take(i as int), day@, city@),
        decreases i,
    {
        assert(v.take(i as int).drop_last() =~= v.take(i - 1));
        assert(v.take(i as int).last() == daily@[i - 1]@);
        if daily[i - 1].date == *day && daily[i - 1].city_id == *city {
            return Some(i - 1);
        }
        i = i - 1;
    }
    None
}

/// The last progress entry of `claims` for `city_id` on `date`.
pub fn current_progress(claims: &SessionClaims, date: &GameDate, city_id: &str) -> (r: Option<
    DailyProgress,
>)
    requires
        date.wf(),
    ensures
        match r {
            Some(p) => {
                let i = last_match(claims@.daily, date.text(), city_id@);
                i >= 0 && p@ == claims@.daily[i]
            },
            None => last_match(claims@.daily, date.text(), city_id@) == -1,
        },
{
    let day = date.to_text();
    let city = city_id.to_owned();
    match last_match_index(&claims.daily, &day, &city) {
        Some(i) => Some(copy_progress(&claims.daily[i])),
        None => None,
    }
}

/// Adds fresh progress for `city_id` on `date` unless there is an entry for it.
pub fn touch_current_progress(claims: &mut SessionClaims, date: &GameDate, city_id: &str)
    requires
        date.wf(),
    ensures
        final(claims)@ == (ClaimsView {
            daily: touch(old(claims)@.daily, date.text(), city_id@),
            ..old(claims)@
        }),
{
    let day = date.to_text();
    let city = city_id.to_owned();
    if last_match_index(&claims.daily, &day, &city).is_none() {
        let fresh = default_progress(date, city_id);
        claims.daily.push(fresh);
        assert(progress_views(claims.daily@) =~= progress_views(old(claims).daily@).push(
            fresh@,
        ));
    }
}

/// Sets the issue time to `now` and the expiry `TOKEN_LIFETIME_DAYS` later.
pub fn refresh_claim_times(claims: &mut SessionClaims, now: i64)
    requires
        now <= i64::MAX - TOKEN_LIFETIME_SECONDS,
    ensures
        final(claims)@ == (ClaimsView {
            iat: now as usize,
            exp: (now + TOKEN_LIFETIME_SECONDS) as usize,
            ..old(claims)@
        }),
{
    claims.iat = now as usize;
    claims.exp = (now + TOKEN_LIFETIME_SECONDS) as usize;
}

/// Keeps only the last `MAX_DAILY_ENTRIES` progress entries.
pub fn trim_daily_entries(claims: &mut SessionClaims)
    ensures
        final(claims)@ == (ClaimsView { daily: keep_recent(old(claims)@.daily), ..old(claims)@ }),
{
    let len = claims.daily.len();
    if len <= MAX_DAILY_ENTRIES {
        return;
    }
    let start = len - MAX_DAILY_ENTRIES;
    let ghost v = progress_views(claims.daily@);
    let mut kept: Vec<DailyProgress> = Vec::new();
    let mut i: usize = start;
    while i < len
        invariant
            start <= i <= len == claims.daily@.len(),
            v == progress_views(claims.daily@),
            progress_views(kept@) =~= v.subrange(start as int, i as int),
        decreases len - i,
    {
        let ghost prev = kept@;
        let c = copy_progress(&claims.daily[i]);
        kept.push(c);
        assert(progress_views(kept@) =~= progress_views(prev).push(c@));
        assert(v[i as int] == claims.daily@[i as int]@);
        assert(progress_views(kept@) =~= v.subrange(start as int, i + 1));
        i = i + 1;
    }
    claims.daily = kept;
    assert(v.skip(len - MAX_DAILY_ENTRIES) =~= v.subrange(start as int, len as int));
}

/// Appends `n` in decimal, with a minus sign when negative.
fn push_signed_decimal(out: &mut String, n: i64)
    ensures
        final(out)@ == old(out)@ + signed_decimal(n as int),
{
    if n < 0 {
        push_char(out, '-');
        let magnitude: i128 = 0 - (n as i128);
        assert(0 < magnitude <= u64::MAX);
        let m = magnitude as u64;
        assert(m as int == -(n as int));
        push_decimal(out, m);
        assert(out@ =~= old(out)@ + signed_decimal(n as int));
    } else {
        push_decimal(out, n as u64);
    }
}

/// Records an attempt on the entry at `i`.
fn record_at(daily: &mut Vec<DailyProgress>, i: usize, round: u8, correct: bool)
    requires
        i < old(daily)@.len(),
    ensures
        progress_views(final(daily)@) == progress_views(old(daily)@).update(
            i as int,
            with_attempt(old(daily)@[i as int]@, round, correct),
        ),
{
    let mut p = copy_progress(&daily[i]);
    if round == 1 {
        p.round1_attempts = if p.round1_attempts < u32::MAX {
            p.round1_attempts + 1
        } else {
            p.round1_attempts
        };
        p.round1_completed = p.round1_completed || correct;
    } else if round == 2 {
        p.round2_attempts = if p.round2_attempts < u32::MAX {
            p.round2_attempts + 1
        } else {
            p.round2_attempts
        };
        p.round2_completed = p.round2_completed || correct;
    } else if round == 3 {
        p.round3_attempts = if p.round3_attempts < u32::MAX {
            p.round3_attempts + 1
        } else {
            p.round3_attempts
        };
        p.round3_completed = p.round3_completed || correct;
    }
    p.completed = p.round1_completed && p.round2_completed && p.round3_completed;
    daily.set(i, p);
    assert(progress_views(daily@) =~= progress_views(old(daily)@).update(
        i as int,
        with_attempt(old(daily)@[i as int]@, round, correct),
    ));
}


/// Bytes a token signature covers: the header and payload pieces joined by a dot.
pub open spec fn signing_input(header: Seq<char>, payload: Seq<char>) -> Seq<u8> {
    encode_utf8(header + seq!['.'] + payload)
}

/// The signature piece decodes to the HMAC of the signing input under `key`.
pub open spec fn signature_valid(
    key: Seq<u8>,
    header: Seq<char>,
    payload: Seq<char>,
    signature: Seq<char>,
) -> bool {
    match base64url_decoded(signature) {
        Some(tag) => tag == hmac_sha256(key, signing_input(header, payload)),
        None => false,
    }
}

/// What a token yields under `key`: the header and payload bytes of a trimmed, non-empty
/// token of three dot-separated pieces whose signature is valid and whose first two pieces
/// decode; nothing otherwise.
pub open spec fn opened_token(key: Seq<u8>, token: Seq<char>) -> Option<(Seq<u8>, Seq<u8>)> {
    let raw = trim(token);
    let parts = pieces(raw, '.');
    if raw.len() == 0 || parts.len() != 3 {
        None
    } else if !signature_valid(key, parts[0], parts[1], parts[2]) {
        None
    } else {
        match (base64url_decoded(parts[0]), base64url_decoded(parts[1])) {
            (Some(h), Some(p)) => Some((h, p)),
            _ => None,
        }
    }
}

/// The token `seal_token` makes of header and payload bytes under `key`.
pub open spec fn sealed_token(key: Seq<u8>, header: Seq<u8>, payload: Seq<u8>) -> Seq<char> {
    let h = base64url_encoded(header);
    let p = base64url_encoded(payload);
    h + seq!['.'] + p + seq!['.'] + base64url_encoded(hmac_sha256(key, signing_input(h, p)))
}

/// The header a token must declare: HMAC-SHA256 and the JWT type.
pub open spec fn header_supported(alg: Seq<char>, typ: Seq<char>) -> bool {
    alg == seq!['H', 'S', '2', '5', '6'] && typ == seq!['J', 'W', 'T']
}

/// Signs and checks session tokens with a secret key.
#[derive(Clone)]
pub struct SessionManager {
    secret: Vec<u8>,
}

impl SessionManager {
    /// The signing key.
    pub closed spec fn key(&self) -> Seq<u8> {
        self.secret@
    }

    /// A manager whose key is the UTF-8 bytes of `secret`.
    pub fn new(secret: &str) -> (m: SessionManager)
        ensures
            m.key() == encode_utf8(secret@),
    {
        SessionManager { secret: vstd::slice::slice_to_vec(secret.as_bytes()) }
    }

    /// HMAC-SHA256 of `input` under the key.
    pub fn sign(&self, input: &[u8]) -> (tag: Vec<u8>)
        ensures
            tag@ == hmac_sha256(self.key(), input@),
            tag@.len() == 32,
    {
        hmac_sha256_tag(self.secret.as_slice(), input)
    }

    /// Whether `signature` is the encoded HMAC of `header.payload` under the key.
    pub fn verify_signature(&self, header: &str, payload: &str, signature: &str) -> (ok: bool)
        ensures
            ok == signature_valid(self.key(), header@, payload@, signature@),
    {
        let tag = match base64url_decode(signature) {
            Some(t) => t,
            None => return false,
        };
        let mut input = header.to_owned();
        push_char(&mut input, '.');
        input.append(payload);
        assert(input@ =~= header@ + seq!['.'] + payload@);
        hmac_sha256_matches(self.secret.as_slice(), input.as_str().as_bytes(), tag.as_slice())
    }

    /// The header and payload bytes of a well-signed token (the framing part of decoding a
    /// session token; the bytes are JSON).
    pub fn open_token(&self, token: Option<&str>) -> (r: Option<(Vec<u8>, Vec<u8>)>)
        ensures
            match token {
                None => r is None,
                Some(t) => match r {
                    Some((h, p)) => opened_token(self.key(), t@) == Some((h@, p@)),
                    None => opened_token(self.key(), t@) is None,
                },
            },
    {
        let raw = match token {
            Some(t) => t,
            None => return None,
        };
        let chars = chars_of(raw);
        let (start, end) = trim_bounds(&chars);
        if start == end {
            return None;
        }
        let parts = split_range(&chars, start, end, '.');
        if parts.len() != 3 {
            return None;
        }
        if !self.verify_signature(parts[0].as_str(), parts[1].as_str(), parts[2].as_str()) {
            return None;
        }
        let header = match base64url_decode(parts[0].as_str()) {
            Some(h) => h,
            None => return None,
        };
        let payload = match base64url_decode(parts[1].as_str()) {
            Some(p) => p,
            None => return None,
        };
        Some((header, payload))
    }

    /// A token carrying header and payload bytes, signed with the key (the framing part
    /// of encoding a session token). Opening it gives the same bytes back.
    pub fn seal_token(&self, header: &[u8], payload: &[u8]) -> (token: String)
        requires
            header@.len() <= isize::MAX,
            payload@.len() <= isize::MAX,
        ensures
            token@ == sealed_token(self.key(), header@, payload@),
            opened_token(self.key(), token@) == Some((header@, payload@)),
            forall|i: int| 0 <= i < token@.len() ==> !is_white_space(#[trigger] token@[i]),
            forall|a: Seq<char>, b: Seq<char>|
                all_white(a) && all_white(b) ==> #[trigger] opened_token(self.key(), a + token@ + b)
                    == Some((header@, payload@)),
    {
        let header_part = base64url_encode(header);
        let payload_part = base64url_encode(payload);
        let mut input = header_part.clone();
        push_char(&mut input, '.');
        input.append(payload_part.as_str());
        assert(input@ =~= header_part@ + seq!['.'] + payload_part@);
        let tag = self.sign(input.as_str().as_bytes());
        let signature_part = base64url_encode(tag.as_slice());
        let mut token = input;
        push_char(&mut token, '.');
        token.append(signature_part.as_str());
        proof {
            let h = header_part@;
            let p = payload_part@;
            let s = signature_part@;
            let d = seq!['.'];
            assert(token@ =~= h + d + p + d + s);
            assert forall|i: int| 0 <= i < h.len() implies h[i] != '.' by {
                assert(is_url_safe_symbol(h[i]));
            }
            assert forall|i: int| 0 <= i < p.len() implies p[i] != '.' by {
                assert(is_url_safe_symbol(p[i]));
            }
            assert forall|i: int| 0 <= i < s.len() implies s[i] != '.' by {
                assert(is_url_safe_symbol(s[i]));
            }
            lemma_pieces_three(h, p, s, '.');
            assert forall|i: int| 0 <= i < token@.len() implies !is_white_space(
                #[trigger] token@[i],
            ) by {
                if i < h.len() {
                    assert(token@[i] == h[i]);
                    assert(is_url_safe_symbol(h[i]));
                } else if i == h.len() {
                } else if i < h.len() + 1 + p.len() {
                    assert(token@[i] == p[i - h.len() - 1]);
                    assert(is_url_safe_symbol(p[i - h.len() - 1]));
                } else if i == h.len() + 1 + p.len() {
                } else {
                    assert(token@[i] == s[i - h.len() - 2 - p.len()]);
                    assert(is_url_safe_symbol(s[i - h.len() - 2 - p.len()]));
                }
            }
            lemma_trim_identity(token@);
            assert(token@ =~= sealed_token(self.key(), header@, payload@));
            assert(pieces(trim(token@), '.') == seq![h, p, s]);
            assert(signature_valid(self.key(), h, p, s));
            let t = token@;
            assert forall|a: Seq<char>, b: Seq<char>| all_white(a) && all_white(b) implies #[trigger] opened_token(
                self.key(),
                a + t + b,
            ) == Some((header@, payload@)) by {
                assert(!is_white_space(t[0]));
                assert(!is_white_space(t[t.len() - 1]));
                lemma_trim_start_white_prefix(a, t + b);
                assert((a + t + b) =~= a + (t + b));
                assert(trim_start(a + t + b) == t + b);
                lemma_trim_end_white_suffix(t, b);
                assert(trim(a + t + b) == t);
            }
        }
        token
    }

    /// Claims decoded from a token's payload, kept when the token's header declares
    /// HMAC-SHA256 and the JWT type and the claims expire after `now` (seconds since the
    /// Unix epoch); the checking part of decoding a session token.
    pub fn accept_claims(&self, header: &JwtHeader, claims: SessionClaims, now: i64) -> (r: Option<
        SessionClaims,
    >)
        ensures
            r is Some <==> header_supported(header.alg@, header.typ@) && claims.exp > now as usize,
            r matches Some(c) ==> c@ == claims@,
    {
        let a = chars_of(header.alg.as_str());
        let alg_ok = a.len() == 5 && a[0] == 'H' && a[1] == 'S' && a[2] == '2' && a[3] == '5'
            && a[4] == '6';
        assert(alg_ok <==> a@ == seq!['H', 'S', '2', '5', '6']) by {
            if alg_ok {
                assert(a@ =~= seq!['H', 'S', '2', '5', '6']);
            }
        }
        let t = chars_of(header.typ.as_str());
        let typ_ok = t.len() == 3 && t[0] == 'J' && t[1] == 'W' && t[2] == 'T';
        assert(typ_ok <==> t@ == seq!['J', 'W', 'T']) by {
            if typ_ok {
                assert(t@ =~= seq!['J', 'W', 'T']);
            }
        }
        if !alg_ok || !typ_ok {
            return None;
        }
        if claims.exp <= now as usize {
            return None;
        }
        Some(claims)
    }

    /// Claims of a new anonymous session started at `clock`, with no progress yet.
    pub fn new_claims(&self, clock: Clock) -> (claims: SessionClaims)
        requires
            clock.seconds <= i64::MAX - TOKEN_LIFETIME_SECONDS,
        ensures
            claims@.sub == anonymous_subject(clock.nanos as int),
            claims@.iat == clock.seconds as usize,
            claims@.exp == (clock.seconds + TOKEN_LIFETIME_SECONDS) as usize,
            claims@.daily == Seq::<ProgressView>::empty(),
    {
        let mut sub = String::new();
        push_char(&mut sub, 'a');
        push_char(&mut sub, 'n');
        push_char(&mut sub, 'o');
        push_char(&mut sub, 'n');
        push_char(&mut sub, '-');
        push_signed_decimal(&mut sub, clock.nanos);
        assert(sub@ =~= anonymous_subject(clock.nanos as int));
        let claims = SessionClaims {
            sub,
            iat: clock.seconds as usize,
            exp: (clock.seconds + TOKEN_LIFETIME_SECONDS) as usize,
            daily: Vec::new(),
        };
        assert(claims@.daily =~= Seq::<ProgressView>::empty());
        claims
    }
}

/// The progress entries a session starts from: those of the decoded claims, or none.
pub open spec fn start_daily(decoded: Option<SessionClaims>) -> Seq<ProgressView> {
    match decoded {
        Some(c) => c@.daily,
        None => Seq::empty(),
    }
}

/// The subject a session keeps: that of the decoded claims, or a new anonymous one.
pub open spec fn start_subject(decoded: Option<SessionClaims>, clock: Clock) -> Seq<char> {
    match decoded {
        Some(c) => c@.sub,
        None => anonymous_subject(clock.nanos as int),
    }
}

impl SessionManager {
    /// The decoded claims, or those of a new anonymous session.
    fn claims_or_new(&self, decoded: Option<SessionClaims>, clock: Clock) -> (claims: SessionClaims)
        requires
            clock.seconds <= i64::MAX - TOKEN_LIFETIME_SECONDS,
        ensures
            claims@.sub == start_subject(decoded, clock),
            claims@.daily == start_daily(decoded),
    {
        match decoded {
            Some(c) => c,
            None => self.new_claims(clock),
        }
    }

    /// The day's progress of `claims`, or fresh progress.
    fn progress_or_default(claims: &SessionClaims, date: &GameDate, city_id: &str) -> (p: DailyProgress)
        requires
            date.wf(),
        ensures
            p@ == progress_for(claims@.daily, date.text(), city_id@),
    {
        match current_progress(claims, date, city_id) {
            Some(p) => p,
            None => default_progress(date, city_id),
        }
    }

    /// Starts (or resumes) the day for a player: the decoded claims, or new ones, get an
    /// entry for `city_id` on `date` if they have none, fresh times, and at most
    /// `MAX_DAILY_ENTRIES` entries; the result pairs them with the day's progress.
    pub fn bootstrap(
        &self,
        decoded: Option<SessionClaims>,
        date: &GameDate,
        city_id: &str,
        clock: Clock,
    ) -> (r: (SessionClaims, DailyProgress))
        requires
            date.wf(),
            clock.seconds <= i64::MAX - TOKEN_LIFETIME_SECONDS,
        ensures
            r.0@.sub == start_subject(decoded, clock),
            r.0@.iat == clock.seconds as usize,
            r.0@.exp == (clock.seconds + TOKEN_LIFETIME_SECONDS) as usize,
            r.0@.daily == keep_recent(touch(start_daily(decoded), date.text(), city_id@)),
            r.1@ == progress_for(r.0@.daily, date.text(), city_id@),
    {
        let mut claims = self.claims_or_new(decoded, clock);
        touch_current_progress(&mut claims, date, city_id);
        refresh_claim_times(&mut claims, clock.seconds);
        trim_daily_entries(&mut claims);
        let progress = Self::progress_or_default(&claims, date, city_id);
        (claims, progress)
    }

    /// Records an attempt at round `round` that was `correct` or not: as `bootstrap`, and
    /// the day's entry counts the attempt (rounds other than 1, 2 and 3 count nothing) and
    /// is complete once all three rounds are.
    pub fn apply_round_attempt(
        &self,
        decoded: Option<SessionClaims>,
        date: &GameDate,
        city_id: &str,
        round: u8,
        correct: bool,
        clock: Clock,
    ) -> (r: (SessionClaims, DailyProgress))
        requires
            date.wf(),
            clock.seconds <= i64::MAX - TOKEN_LIFETIME_SECONDS,
        ensures
            r.0@.sub == start_subject(decoded, clock),
            r.0@.iat == clock.seconds as usize,
            r.0@.exp == (clock.seconds + TOKEN_LIFETIME_SECONDS) as usize,
            r.0@.daily == keep_recent(
                record_attempt(start_daily(decoded), date.text(), city_id@, round, correct),
            ),
            r.1@ == progress_for(r.0@.daily, date.text(), city_id@),
    {
        let mut claims = self.claims_or_new(decoded, clock);
        touch_current_progress(&mut claims, date, city_id);
        let day = date.to_text();
        let city = city_id.to_owned();
        match last_match_index(&claims.daily, &day, &city) {
            Some(i) => {
                record_at(&mut claims.daily, i, round, correct);
            },
            None => {},
        }
        refresh_claim_times(&mut claims, clock.seconds);
        trim_daily_entries(&mut claims);
        let progress = Self::progress_or_default(&claims, date, city_id);
        (claims, progress)
    }
}

/// The scheme prefix of a bearer `Authorization` header.
pub open spec fn bearer_prefix() -> Seq<char> {
    seq!['B', 'e', 'a', 'r', 'e', 'r', ' ']
}

/// The token an `Authorization` header value carries: what follows `Bearer ` in the
/// trimmed value.
pub open spec fn bearer_credentials(value: Seq<char>) -> Option<Seq<char>> {
    let t = trim(value);
    if t.len() >= 7 && t.take(7) == bearer_prefix() {
        Some(t.skip(7))
    } else {
        None
    }
}

/// The token an `Authorization` header value carries, if it uses the bearer scheme.
pub fn bearer_token(value: &str) -> (r: Option<String>)
    ensures
        match r {
            Some(t) => bearer_credentials(value@) == Some(t@),
            None => bearer_credentials(value@) is None,
        },
{
    let chars = chars_of(value);
    let (start, end) = trim_bounds(&chars);
    if end - start < 7 {
        return None;
    }
    let is_bearer = chars[start] == 'B' && chars[start + 1] == 'e' && chars[start + 2] == 'a'
        && chars[start + 3] == 'r' && chars[start + 4] == 'e' && chars[start + 5] == 'r'
        && chars[start + 6] == ' ';
    let ghost t = chars@.subrange(start as int, end as int);
    assert(is_bearer <==> t.take(7) == bearer_prefix()) by {
        if is_bearer {
            assert(t.take(7) =~= bearer_prefix());
        } else {
            if t.take(7) == bearer_prefix() {
                assert(t.take(7)[0] == 'B');
                assert(t.take(7)[1] == 'e');
                assert(t.take(7)[2] == 'a');
                assert(t.take(7)[3] == 'r');
                assert(t.take(7)[4] == 'e');
                assert(t.take(7)[5] == 'r');
                assert(t.take(7)[6] == ' ');
            }
        }
    }
    if !is_bearer {
        return None;
    }
    let token = crate::text::collect_range(&chars, start + 7, end);
    assert(token@ =~= t.skip(7));
    Some(token)
}

/// A string without white space trims to itself.
pub proof fn lemma_trim_identity(t: Seq<char>)
    requires
        forall|i: int| 0 <= i < t.len() ==> !is_white_space(#[trigger] t[i]),
    ensures
        trim(t) == t,
{
    assert(crate::text::trim_start(t) == t);
    assert(crate::text::trim_end(t) == t);
}

} // verus!
