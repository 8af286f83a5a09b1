//! The daily game: which city a day belongs to, the puzzle it shows, and the checking
//! of answers.

use vstd::prelude::*;
use vstd::utf8::encode_utf8;
use crate::clock::read_utc_date;
use crate::dates::GameDate;
use crate::feedback::{build_feedback, feedback_of};
use crate::models::{
    City, DailyGameResponse, DailyProgress, RoundOnePrompt, RoundThreePrompt, RoundTwoPrompt,
    SketchSummary, StageThreeAnswerRequest, StageThreeKind,
};
use crate::session::{
    keep_recent, progress_for, record_attempt, start_daily, start_subject, touch, Clock,
    SessionClaims, SessionManager, TOKEN_LIFETIME_SECONDS,
};
use crate::words::WordList;
use crate::schedule::{
    bytes_before, cycle_order, goes_before, lemma_insert_at, lemma_order_prefix_permutation,
    order_prefix, seeded_hash, seeded_hash_of, hash_seed, STAGE_SEED,
};
use crate::text::{
    answer_form, chars_of, copy_strings, decimal, join_strings, join_with, normalize_text,
    normalize_word, push_char, push_decimal, texts, word_form,
};

verus! {

/// The UTF-8 bytes of the city ids.
pub open spec fn city_ids(cities: Seq<City>) -> Seq<Seq<u8>> {
    cities.map_values(|c: City| encode_utf8(c.id@))
}

/// Whether city `a` comes before city `b` in the cycle with `seed`.
fn goes_before_exec(cities: &[City], keys: &Vec<u64>, a: usize, b: usize, Ghost(seed): Ghost<u64>) -> (r: bool)
    requires
        keys@.len() == cities@.len(),
        a < cities@.len(),
        b < cities@.len(),
        forall|i: int|
            0 <= i < cities@.len() ==> #[trigger] keys@[i] == seeded_hash_of(
                city_ids(cities@)[i],
                seed,
            ),
    ensures
        r == goes_before(city_ids(cities@), seed, a as int, b as int),
{
    let ka = keys[a];
    let kb = keys[b];
    ka < kb || (ka == kb && bytes_before(cities[a].id.as_str().as_bytes(), cities[b].id.as_str().as_bytes()))
}

/// The order in which the cities are served in cycle `cycle`: sorted by the hash of their
/// id seeded with the cycle, ties broken by id, equal keys in list order.
pub fn city_order_for_cycle(cities: &[City], cycle: i64) -> (order: Vec<usize>)
    ensures
        order@ == cycle_order(city_ids(cities@), cycle as u64),
        order@.len() == cities@.len(),
        order@.no_duplicates(),
        forall|y: usize| #[trigger] order@.contains(y) <==> y < cities@.len(),
{
    let ghost ids = city_ids(cities@);
    let seed = cycle as u64;
    let n = cities.len();
    let mut keys: Vec<u64> = Vec::new();
    let mut i: usize = 0;
    while i < n
        invariant
            n == cities@.len(),
            ids == city_ids(cities@),
            i <= n,
            keys@.len() == i,
            forall|j: int| 0 <= j < i ==> #[trigger] keys@[j] == seeded_hash_of(ids[j], seed),
        decreases n - i,
    {
        keys.push(seeded_hash(cities[i].id.as_str().as_bytes(), seed));
        i = i + 1;
    }
    let mut order: Vec<usize> = Vec::new();
    let mut k: usize = 0;
    while k < n
        invariant
            n == cities@.len(),
            ids == city_ids(cities@),
            k <= n,
            keys@.len() == n,
            forall|j: int| 0 <= j < n ==> #[trigger] keys@[j] == seeded_hash_of(ids[j], seed),
            order@ == order_prefix(ids, seed, k as nat),
        decreases n - k,
    {
        proof {
            lemma_order_prefix_permutation(ids, seed, k as nat);
            assert forall|q: int| 0 <= q < order@.len() implies #[trigger] order@[q] < k by {
                assert(order@.contains(order@[q]));
            }
        }
        let mut p: usize = 0;
        while p < order.len() && !goes_before_exec(cities, &keys, k, order[p], Ghost(seed))
            invariant
                n == cities@.len(),
                ids == city_ids(cities@),
                k < n,
                keys@.len() == n,
                forall|j: int| 0 <= j < n ==> #[trigger] keys@[j] == seeded_hash_of(ids[j], seed),
                order@ == order_prefix(ids, seed, k as nat),
                forall|y: usize| #[trigger] order@.contains(y) <==> y < k,
                forall|q: int| 0 <= q < order@.len() ==> #[trigger] order@[q] < k,
                p <= order@.len(),
                forall|q: int| 0 <= q < p ==> !goes_before(ids, seed, k as int, #[trigger] order@[q] as int),
            decreases order@.len() - p,
        {
            p = p + 1;
        }
        proof {
            if p < order@.len() {
                assert(order@.contains(order@[p as int]));
            }
            lemma_insert_at(ids, seed, order@, k, p as int);
        }
        order.insert(p, k);
        k = k + 1;
    }
    proof {
        lemma_order_prefix_permutation(ids, seed, n as nat);
    }
    order
}

/// Index of the city of day `day` (a day number from the common era): the day's place in
/// the order of its cycle of `ids.len()` days, where a cycle whose first city is the one
/// the previous cycle ends on is rotated by one so the same city is not served twice in a
/// row. A single city serves every day.
pub open spec fn day_city_index(ids: Seq<Seq<u8>>, day: int) -> int {
    let n = ids.len() as int;
    if n == 1 {
        0
    } else {
        served_order(ids, day / n)[day % n] as int
    }
}

/// The order in which cycle `cycle` serves the cities: the cycle's order, rotated by one
/// where it would start with the city the previous cycle's order ends on.
pub open spec fn served_order(ids: Seq<Seq<u8>>, cycle: int) -> Seq<usize> {
    let n = ids.len() as int;
    let order = cycle_order(ids, cycle as u64);
    let previous = cycle_order(ids, (cycle - 1) as u64);
    if previous[n - 1] == order[0] {
        order.skip(1).push(order[0])
    } else {
        order
    }
}

/// The order in which cycle `cycle` serves the cities.
fn served_order_for_cycle(cities: &[City], cycle: i64) -> (order: Vec<usize>)
    requires
        2 <= cities@.len(),
        cycle > i64::MIN,
    ensures
        order@ == served_order(city_ids(cities@), cycle as int),
        order@.len() == cities@.len(),
        forall|i: int| 0 <= i < order@.len() ==> #[trigger] order@[i] < cities@.len(),
{
    let n = cities.len();
    let mut order = city_order_for_cycle(cities, cycle);
    let previous = city_order_for_cycle(cities, cycle - 1);
    let ghost unrotated = order@;
    proof {
        assert forall|i: int| 0 <= i < unrotated.len() implies #[trigger] unrotated[i] < n by {
            assert(unrotated.contains(unrotated[i]));
        }
    }
    if previous[n - 1] == order[0] {
        let first = order.remove(0);
        order.push(first);
        assert(order@ =~= unrotated.skip(1).push(unrotated[0]));
    }
    order
}

/// Text appended to a date to seed the choice of its third round.
pub open spec fn stage_suffix() -> Seq<char> {
    seq!['-', 's', 't', 'a', 'g', 'e', '3']
}

/// The kind of the third round of the day written `day`: the stage-seeded hash of
/// `day` followed by `-stage3`, modulo 3.
pub open spec fn stage_kind_of(day: Seq<char>) -> StageThreeKind {
    let h = seeded_hash_of(encode_utf8(day + stage_suffix()), STAGE_SEED) as usize;
    if h % 3 == 0 {
        StageThreeKind::Duolingo
    } else if h % 3 == 1 {
        StageThreeKind::Draw
    } else {
        StageThreeKind::Trivia
    }
}

/// The four first-round hints of `city`.
pub open spec fn hints_of(city: City) -> Seq<Seq<char>> {
    seq![
        "Try thinking about what visitors do: "@ + join_with(texts(city.activities@), ", "@)
            + "."@,
        "This city is known for "@ + city.known_for@ + "."@,
        "A famous person linked to this city: "@ + city.famous_person@ + "."@,
        "A common local bite or item is "@ + city.popular_item@ + "."@,
    ]
}

/// `p` is the third-round prompt of kind `kind` for `city`.
pub open spec fn round_three_of(p: RoundThreePrompt, city: City, kind: StageThreeKind) -> bool {
    &&& p.kind == kind
    &&& match kind {
        StageThreeKind::Duolingo => {
            &&& p.prompt@ == city.duolingo.prompt@
            &&& p.options@ == city.duolingo.options@
            &&& p.instructions matches Some(i) && i@ == "Pick the best translation."@
        },
        StageThreeKind::Trivia => {
            &&& p.prompt@ == city.trivia.prompt@
            &&& p.options@ == city.trivia.options@
            &&& p.instructions matches Some(i) && i@ == "Choose the correct trivia answer."@
        },
        StageThreeKind::Draw => {
            &&& p.prompt@ == city.drawing_prompt@
            &&& p.options@.len() == 0
            &&& p.instructions matches Some(i) && i@
                == "Trace the faint landmark guide first, then add your own lines and submit."@
        },
    }
}

/// Why a first-round guess (normalised to `guess`) is refused for `secret`, if it is.
pub open spec fn round_one_error(secret: Seq<char>, guess: Seq<char>, words: Set<Seq<char>>) -> Option<
    Seq<char>,
> {
    if guess.len() == 0 {
        Some("Guess must include letters."@)
    } else if guess.len() != secret.len() {
        Some("Guess must be "@ + decimal(secret.len()) + " letters long."@)
    } else if !words.contains(guess) {
        Some("Guess is not in the allowed dictionary list."@)
    } else {
        None
    }
}

/// Total number of points over all strokes.
pub open spec fn total_points(lengths: Seq<usize>) -> int
    decreases lengths.len(),
{
    if lengths.len() == 0 {
        0
    } else {
        total_points(lengths.drop_last()) + lengths.last()
    }
}

/// Some stroke has at least two points.
pub open spec fn has_stroke(lengths: Seq<usize>) -> bool {
    exists|i: int| 0 <= i < lengths.len() && #[trigger] lengths[i] >= 2
}

/// A drawing is accepted when it has a stroke and its shape is close to the guide, or it is
/// a long attempt (at least 110 points) within the wider bound.
pub open spec fn sketch_accepted(s: SketchSummary) -> bool {
    has_stroke(s.stroke_lengths@) && (s.close_enough || (total_points(s.stroke_lengths@) >= 110
        && s.within_attempt_bound))
}

/// The message on a drawing.
pub open spec fn sketch_message(s: SketchSummary) -> Seq<char> {
    if sketch_accepted(s) {
        "Great sketch submission (similarity "@ + s.similarity_text@ + "). You are done for today!"@
    } else {
        "Keep drawing the landmark silhouette. Similarity was "@ + s.similarity_text@
            + "; try matching the famous building more closely."@
    }
}

/// The verdict and message on a third-round answer for `city` when the day's kind is
/// `kind`.
pub open spec fn round_three_verdict(
    city: City,
    kind: StageThreeKind,
    answer: Seq<char>,
    sketch: SketchSummary,
) -> (bool, Seq<char>) {
    match kind {
        StageThreeKind::Duolingo => {
            let correct = answer_form(city.duolingo.answer@) == answer_form(answer);
            (correct, if correct {
                "Correct translation. You are done for today!"@
            } else {
                "Close, but that translation is not the best fit."@
            })
        },
        StageThreeKind::Trivia => {
            let correct = answer_form(city.trivia.answer@) == answer_form(answer);
            (correct, if correct {
                "Trivia nailed. You are done for today!"@
            } else {
                "Not that one. Try another trivia choice."@
            })
        },
        StageThreeKind::Draw => (sketch_accepted(sketch), sketch_message(sketch)),
    }
}

/// Whether some stroke has two points or more, and the total number of points capped at
/// 110.
fn measure_strokes(lengths: &Vec<usize>) -> (r: (bool, usize))
    ensures
        r.0 == has_stroke(lengths@),
        r.1 == if total_points(lengths@) < 110 {
            total_points(lengths@)
        } else {
            110
        },
{
    let mut any = false;
    let mut count: usize = 0;
    let mut i: usize = 0;
    assert(lengths@.take(0) =~= Seq::<usize>::empty());
    while i < lengths.len()
        invariant
            i <= lengths@.len(),
            any == exists|j: int| 0 <= j < i && #[trigger] lengths@[j] >= 2,
            count == if total_points(lengths@.take(i as int)) < 110 {
                total_points(lengths@.take(i as int))
            } else {
                110
            },
        decreases lengths@.len() - i,
    {
        let len = lengths[i];
        assert(lengths@.take(i + 1).drop_last() =~= lengths@.take(i as int));
        if len >= 2 {
            any = true;
        }
        if count < 110 {
            if len >= 110 - count {
                count = 110;
            } else {
                count = count + len;
            }
        }
        i = i + 1;
    }
    assert(lengths@.take(lengths@.len() as int) =~= lengths@);
    (any, count)
}

/// The game: its cities, its dictionary and its session signer.
pub struct GameService {
    cities: Vec<City>,
    allowed_words: WordList,
    session_manager: SessionManager,
}

/// Outcome of a first-round guess.
#[derive(Debug)]
pub struct RoundOneEvaluation {
    pub correct: bool,
    pub feedback: Vec<crate::models::LetterFeedback>,
}

/// Outcome of a second- or third-round answer.
#[derive(Debug)]
pub struct RoundEvaluation {
    pub correct: bool,
    pub message: String,
}

impl GameService {
    pub closed spec fn city_list(&self) -> Seq<City> {
        self.cities@
    }

    pub closed spec fn words(&self) -> Set<Seq<char>> {
        self.allowed_words@
    }

    pub closed spec fn sessions(&self) -> SessionManager {
        self.session_manager
    }

    /// The game has a city to serve (and no more than a day number can index).
    pub open spec fn wf(&self) -> bool {
        0 < self.city_list().len() <= i64::MAX
    }

    /// The city served on `date`.
    pub open spec fn city_of(&self, date: GameDate) -> City {
        self.city_list()[day_city_index(city_ids(self.city_list()), date.day_number())]
    }

    /// A game over `cities`, `allowed_words` and `session_manager`.
    pub fn new(cities: Vec<City>, allowed_words: WordList, session_manager: SessionManager) -> (g:
        GameService)
        ensures
            g.city_list() == cities@,
            g.words() == allowed_words@,
            g.sessions() == session_manager,
    {
        GameService { cities, allowed_words, session_manager }
    }

    /// Today's date in UTC.
    pub fn today() -> (d: GameDate)
        ensures
            d.wf(),
    {
        let (year, month, day) = read_utc_date();
        GameDate::new(year, month, day).unwrap()
    }

    /// The session signer.
    pub fn session_manager(&self) -> (m: &SessionManager)
        ensures
            *m == self.sessions(),
    {
        &self.session_manager
    }

    /// The cities, in list order.
    pub fn cities(&self) -> (c: &Vec<City>)
        ensures
            c@ == self.city_list(),
    {
        &self.cities
    }

    /// Index of the city served on `date`.
    pub fn city_index_for_date(&self, date: &GameDate) -> (i: usize)
        requires
            self.wf(),
            date.wf(),
        ensures
            i as int == day_city_index(city_ids(self.city_list()), date.day_number()),
            i < self.city_list().len(),
    {
        let n = self.cities.len();
        if n == 1 {
            return 0;
        }
        let day = date.num_days_from_ce();
        let count = n as i64;
        assert(-100_000_000 <= day as int / count as int <= 100_000_000) by (nonlinear_arith)
            requires
                count >= 2,
                -100_000_000 <= day <= 100_000_000,
        ;
        let cycle: i64 = match day.checked_div_euclid(count) {
            Some(c) => c,
            None => 0,
        };
        let offset: i64 = match day.checked_rem_euclid(count) {
            Some(r) => r,
            None => 0,
        };
        assert(cycle == day as int / count as int);
        assert(offset == day as int % count as int);
        let order = served_order_for_cycle(self.cities.as_slice(), cycle);
        order[offset as usize]
    }

    /// The city served on `date`.
    pub fn city_for_date(&self, date: &GameDate) -> (c: &City)
        requires
            self.wf(),
            date.wf(),
        ensures
            0 <= day_city_index(city_ids(self.city_list()), date.day_number())
                < self.city_list().len(),
            *c == self.city_of(*date),
    {
        let i = self.city_index_for_date(date);
        &self.cities[i]
    }

    /// The puzzle of `date`: the day's city with its hints, map question and third round.
    pub fn daily_game(&self, date: &GameDate) -> (r: DailyGameResponse)
        requires
            self.wf(),
            date.wf(),
        ensures
            r.date@ == date.text(),
            r.city_id@ == self.city_of(*date).id@,
            r.city_name@ == self.city_of(*date).name@,
            r.country@ == self.city_of(*date).country@,
            r.round1.word_length == word_form(self.city_of(*date).secret_word@).len(),
            texts(r.round1.hints@) == hints_of(self.city_of(*date)),
            r.round2.prompt@ == self.city_of(*date).geography_prompt@,
            r.round2.country_code@ == self.city_of(*date).country_code@,
            r.round2.map_svg@ == self.city_of(*date).map_svg@,
            r.round2.options@ == self.city_of(*date).geography_options@,
            round_three_of(r.round3, self.city_of(*date), stage_kind_of(date.text())),
    {
        let city = self.city_for_date(date);
        let stage_kind = Self::stage_kind_for_date(date);

        let mut hint0 = "Try thinking about what visitors do: ".to_owned();
        hint0.append(join_strings(&city.activities, ", ").as_str());
        hint0.append(".");
        let mut hint1 = "This city is known for ".to_owned();
        hint1.append(city.known_for.as_str());
        hint1.append(".");
        let mut hint2 = "A famous person linked to this city: ".to_owned();
        hint2.append(city.famous_person.as_str());
        hint2.append(".");
        let mut hint3 = "A common local bite or item is ".to_owned();
        hint3.append(city.popular_item.as_str());
        hint3.append(".");
        let mut hints: Vec<String> = Vec::new();
        hints.push(hint0);
        hints.push(hint1);
        hints.push(hint2);
        hints.push(hint3);
        assert(texts(hints@) =~= hints_of(*city));

        let round3 = match stage_kind {
            StageThreeKind::Duolingo => RoundThreePrompt {
                kind: StageThreeKind::Duolingo,
                prompt: city.duolingo.prompt.clone(),
                options: copy_strings(&city.duolingo.options),
                instructions: Some("Pick the best translation.".to_owned()),
            },
            StageThreeKind::Trivia => RoundThreePrompt {
                kind: StageThreeKind::Trivia,
                prompt: city.trivia.prompt.clone(),
                options: copy_strings(&city.trivia.options),
                instructions: Some("Choose the correct trivia answer.".to_owned()),
            },
            StageThreeKind::Draw => RoundThreePrompt {
                kind: StageThreeKind::Draw,
                prompt: city.drawing_prompt.clone(),
                options: Vec::new(),
                instructions: Some(
                    "Trace the faint landmark guide first, then add your own lines and submit.".to_owned(),
                ),
            },
        };

        let secret = normalize_word(city.secret_word.as_str());
        let word_length = chars_of(secret.as_str()).len();

        DailyGameResponse {
            date: date.to_text(),
            city_id: city.id.clone(),
            city_name: city.name.clone(),
            country: city.country.clone(),
            round1: RoundOnePrompt { word_length, hints },
            round2: RoundTwoPrompt {
                prompt: city.geography_prompt.clone(),
                country_code: city.country_code.clone(),
                map_svg: city.map_svg.clone(),
                options: copy_strings(&city.geography_options),
            },
            round3,
        }
    }

    /// Checks a first-round guess for `date`: refused when it has no letters, has the wrong
    /// length or is not in the dictionary; otherwise whether it is the secret word, with
    /// letter-by-letter feedback.
    pub fn check_round1(&self, date: &GameDate, guess: &str) -> (r: Result<RoundOneEvaluation, String>)
        requires
            self.wf(),
            date.wf(),
        ensures
            match r {
                Err(m) => round_one_error(
                    word_form(self.city_of(*date).secret_word@),
                    word_form(guess@),
                    self.words(),
                ) == Some(m@),
                Ok(ev) => {
                    &&& round_one_error(
                        word_form(self.city_of(*date).secret_word@),
                        word_form(guess@),
                        self.words(),
                    ) is None
                    &&& ev.correct == (word_form(guess@) == word_form(
                        self.city_of(*date).secret_word@,
                    ))
                    &&& feedback_of(
                        ev.feedback@,
                        word_form(self.city_of(*date).secret_word@),
                        word_form(guess@),
                    )
                },
            },
    {
        let city = self.city_for_date(date);
        let secret = normalize_word(city.secret_word.as_str());
        let normalized_guess = normalize_word(guess);
        let secret_len = chars_of(secret.as_str()).len();
        let guess_len = chars_of(normalized_guess.as_str()).len();

        if guess_len == 0 {
            return Err("Guess must include letters.".to_owned());
        }
        if guess_len != secret_len {
            let mut message = "Guess must be ".to_owned();
            push_decimal(&mut message, secret_len as u64);
            message.append(" letters long.");
            return Err(message);
        }
        if !self.allowed_words.contains(&normalized_guess) {
            return Err("Guess is not in the allowed dictionary list.".to_owned());
        }
        let feedback = build_feedback(secret.as_str(), normalized_guess.as_str());
        Ok(RoundOneEvaluation { correct: normalized_guess == secret, feedback })
    }

    /// Checks a second-round answer for `date`: right when it names the day's country,
    /// compared after trimming, dropping other than ASCII letters, digits and spaces, and
    /// lower-casing.
    pub fn check_round2(&self, date: &GameDate, answer: &str) -> (r: RoundEvaluation)
        requires
            self.wf(),
            date.wf(),
        ensures
            r.correct == (answer_form(self.city_of(*date).country@) == answer_form(answer@)),
            r.message@ == if r.correct {
                "Nice map read. Round 2 cleared."@
            } else {
                "Not quite. Try another geography option."@
            },
    {
        let city = self.city_for_date(date);
        let expected = normalize_text(city.country.as_str());
        let received = normalize_text(answer);
        let correct = expected == received;
        RoundEvaluation {
            correct,
            message: if correct {
                "Nice map read. Round 2 cleared.".to_owned()
            } else {
                "Not quite. Try another geography option.".to_owned()
            },
        }
    }

    /// Checks a third-round answer for `date`: a chosen translation or trivia answer is
    /// compared as in round 2 (no answer counts as empty); a drawing is judged by its
    /// strokes and its measured closeness to the guide.
    pub fn check_round3(&self, date: &GameDate, request: &StageThreeAnswerRequest) -> (r: RoundEvaluation)
        requires
            self.wf(),
            date.wf(),
        ensures
            (r.correct, r.message@) == round_three_verdict(
                self.city_of(*date),
                stage_kind_of(date.text()),
                match request.answer {
                    Some(a) => a@,
                    None => Seq::empty(),
                },
                request.sketch,
            ),
    {
        let city = self.city_for_date(date);
        let stage_kind = Self::stage_kind_for_date(date);
        let empty = String::new();
        let answer: &String = match &request.answer {
            Some(a) => a,
            None => &empty,
        };
        match stage_kind {
            StageThreeKind::Duolingo => {
                let expected = normalize_text(city.duolingo.answer.as_str());
                let received = normalize_text(answer.as_str());
                let correct = expected == received;
                RoundEvaluation {
                    correct,
                    message: if correct {
                        "Correct translation. You are done for today!".to_owned()
                    } else {
                        "Close, but that translation is not the best fit.".to_owned()
                    },
                }
            },
            StageThreeKind::Trivia => {
                let expected = normalize_text(city.trivia.answer.as_str());
                let received = normalize_text(answer.as_str());
                let correct = expected == received;
                RoundEvaluation {
                    correct,
                    message: if correct {
                        "Trivia nailed. You are done for today!".to_owned()
                    } else {
                        "Not that one. Try another trivia choice.".to_owned()
                    },
                }
            },
            StageThreeKind::Draw => {
                let sketch = &request.sketch;
                let (has_strokes, point_count) = measure_strokes(&sketch.stroke_lengths);
                let strong_attempt = point_count >= 110 && sketch.within_attempt_bound;
                let correct = has_strokes && (sketch.close_enough || strong_attempt);
                let message = if correct {
                    let mut m = "Great sketch submission (similarity ".to_owned();
                    m.append(sketch.similarity_text.as_str());
                    m.append("). You are done for today!");
                    m
                } else {
                    let mut m = "Keep drawing the landmark silhouette. Similarity was ".to_owned();
                    m.append(sketch.similarity_text.as_str());
                    m.append("; try matching the famous building more closely.");
                    m
                };
                RoundEvaluation { correct, message }
            },
        }
    }

    /// Starts (or resumes) `date` for a player holding `decoded` claims (those of a valid
    /// token, if any): the session of the day's city, as `SessionManager::bootstrap`.
    pub fn bootstrap_session(&self, date: &GameDate, decoded: Option<SessionClaims>, clock: Clock) -> (r: (
        SessionClaims,
        DailyProgress,
    ))
        requires
            self.wf(),
            date.wf(),
            clock.seconds <= i64::MAX - TOKEN_LIFETIME_SECONDS,
        ensures
            r.0@.sub == start_subject(decoded, clock),
            r.0@.iat == clock.seconds as usize,
            r.0@.exp == (clock.seconds + TOKEN_LIFETIME_SECONDS) as usize,
            r.0@.daily == keep_recent(
                touch(start_daily(decoded), date.text(), self.city_of(*date).id@),
            ),
            r.1@ == progress_for(r.0@.daily, date.text(), self.city_of(*date).id@),
    {
        let city = self.city_for_date(date);
        self.session_manager.bootstrap(decoded, date, city.id.as_str(), clock)
    }

    /// Records an attempt at round `round` of `date` for a player holding `decoded` claims,
    /// as `SessionManager::apply_round_attempt` for the day's city.
    pub fn record_round_attempt(
        &self,
        date: &GameDate,
        decoded: Option<SessionClaims>,
        round: u8,
        correct: bool,
        clock: Clock,
    ) -> (r: (SessionClaims, DailyProgress))
        requires
            self.wf(),
            date.wf(),
            clock.seconds <= i64::MAX - TOKEN_LIFETIME_SECONDS,
        ensures
            r.0@.sub == start_subject(decoded, clock),
            r.0@.iat == clock.seconds as usize,
            r.0@.exp == (clock.seconds + TOKEN_LIFETIME_SECONDS) as usize,
            r.0@.daily == keep_recent(
                record_attempt(
                    start_daily(decoded),
                    date.text(),
                    self.city_of(*date).id@,
                    round,
                    correct,
                ),
            ),
            r.1@ == progress_for(r.0@.daily, date.text(), self.city_of(*date).id@),
    {
        let city = self.city_for_date(date);
        self.session_manager.apply_round_attempt(decoded, date, city.id.as_str(), round, correct, clock)
    }

    /// The kind of the third round on `date`.
    pub fn stage_kind_for_date(date: &GameDate) -> (k: StageThreeKind)
        requires
            date.wf(),
        ensures
            k == stage_kind_of(date.text()),
    {
        let mut text = date.to_text();
        push_char(&mut text, '-');
        push_char(&mut text, 's');
        push_char(&mut text, 't');
        push_char(&mut text, 'a');
        push_char(&mut text, 'g');
        push_char(&mut text, 'e');
        push_char(&mut text, '3');
        assert(text@ =~= date.text() + stage_suffix());
        let seed = hash_seed(text.as_str());
        if seed % 3 == 0 {
            StageThreeKind::Duolingo
        } else if seed % 3 == 1 {
            StageThreeKind::Draw
        } else {
            StageThreeKind::Trivia
        }
    }
}

} // verus!
