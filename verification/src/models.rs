//! The values the game hands out and takes in.

use vstd::prelude::*;

verus! {

/// Reply of the health probe.
#[derive(Debug)]
pub struct HealthResponse {
    pub status: String,
}

/// A prompt with a fixed list of options, one of which is the answer.
#[derive(Debug, Clone)]
pub struct MultipleChoiceStage {
    pub prompt: String,
    pub options: Vec<String>,
    pub answer: String,
}

/// A city of the daily rotation, with the material of its three rounds.
#[derive(Debug, Clone)]
pub struct City {
    pub id: String,
    pub name: String,
    pub country: String,
    pub country_code: String,
    pub secret_word: String,
    pub activities: Vec<String>,
    pub known_for: String,
    pub famous_person: String,
    pub popular_item: String,
    pub map_svg: String,
    pub geography_prompt: String,
    pub geography_options: Vec<String>,
    pub duolingo: MultipleChoiceStage,
    pub trivia: MultipleChoiceStage,
    pub drawing_prompt: String,
}

/// The puzzle of one day, as shown to a player.
#[derive(Debug)]
pub struct DailyGameResponse {
    pub date: String,
    pub city_id: String,
    pub city_name: String,
    pub country: String,
    pub round1: RoundOnePrompt,
    pub round2: RoundTwoPrompt,
    pub round3: RoundThreePrompt,
}

/// The daily puzzle together with the player's progress and token.
#[derive(Debug)]
pub struct DailyGameEnvelope {
    pub game: DailyGameResponse,
    pub progress: DailyProgress,
    pub session_token: String,
}

/// A player's progress on the puzzle of one day.
#[derive(Debug, Clone)]
pub struct DailyProgress {
    pub date: String,
    pub city_id: String,
    pub round1_attempts: u32,
    pub round2_attempts: u32,
    pub round3_attempts: u32,
    pub round1_completed: bool,
    pub round2_completed: bool,
    pub round3_completed: bool,
    pub completed: bool,
}

/// The plain contents of a `DailyProgress`.
pub struct ProgressView {
    pub date: Seq<char>,
    pub city_id: Seq<char>,
    pub round1_attempts: u32,
    pub round2_attempts: u32,
    pub round3_attempts: u32,
    pub round1_completed: bool,
    pub round2_completed: bool,
    pub round3_completed: bool,
    pub completed: bool,
}

impl View for DailyProgress {
    type V = ProgressView;

    open spec fn view(&self) -> ProgressView {
        ProgressView {
            date: self.date@,
            city_id: self.city_id@,
            round1_attempts: self.round1_attempts,
            round2_attempts: self.round2_attempts,
            round3_attempts: self.round3_attempts,
            round1_completed: self.round1_completed,
            round2_completed: self.round2_completed,
            round3_completed: self.round3_completed,
            completed: self.completed,
        }
    }
}

/// An exact copy of `p`.
pub fn copy_progress(p: &DailyProgress) -> (r: DailyProgress)
    ensures
        r@ == p@,
{
    DailyProgress {
        date: p.date.clone(),
        city_id: p.city_id.clone(),
        round1_attempts: p.round1_attempts,
        round2_attempts: p.round2_attempts,
        round3_attempts: p.round3_attempts,
        round1_completed: p.round1_completed,
        round2_completed: p.round2_completed,
        round3_completed: p.round3_completed,
        completed: p.completed,
    }
}

/// First round: the length of the hidden word and four hints.
#[derive(Debug)]
pub struct RoundOnePrompt {
    pub word_length: usize,
    pub hints: Vec<String>,
}

/// Second round: a geography question over a nameless map.
#[derive(Debug)]
pub struct RoundTwoPrompt {
    pub prompt: String,
    pub country_code: String,
    pub map_svg: String,
    pub options: Vec<String>,
}

/// The kind of the third round of a day.
#[derive(Debug, Clone, Copy, PartialEq, Eq, Structural)]
pub enum StageThreeKind {
    Duolingo,
    Draw,
    Trivia,
}

/// Third round: a phrase to render in the local language, a drawing or a trivia question.
#[derive(Debug)]
pub struct RoundThreePrompt {
    pub kind: StageThreeKind,
    pub prompt: String,
    pub options: Vec<String>,
    pub instructions: Option<String>,
}

/// A first-round guess.
#[derive(Debug)]
pub struct RoundOneGuessRequest {
    pub guess: String,
}

/// A second-round answer.
#[derive(Debug)]
pub struct SimpleAnswerRequest {
    pub answer: String,
}

/// What a drawing submission comes to once it has been measured against the landmark
/// guide: the number of points of each stroke, whether the shape distance is within
/// the close bound and within the wider bound for long attempts, and the distance
/// rendered with two decimals.
#[derive(Debug, Clone)]
pub struct SketchSummary {
    pub stroke_lengths: Vec<usize>,
    pub close_enough: bool,
    pub within_attempt_bound: bool,
    pub similarity_text: String,
}

/// A third-round answer: a chosen option, or a drawing.
#[derive(Debug)]
pub struct StageThreeAnswerRequest {
    pub answer: Option<String>,
    pub sketch: SketchSummary,
}

/// Reply to a first-round guess.
#[derive(Debug)]
pub struct RoundOneCheckResponse {
    pub correct: bool,
    pub feedback: Vec<LetterFeedback>,
    pub progress: DailyProgress,
    pub session_token: String,
}

/// Reply to a second- or third-round answer.
#[derive(Debug)]
pub struct RoundCheckResponse {
    pub correct: bool,
    pub message: String,
    pub progress: DailyProgress,
    pub session_token: String,
}

/// The verdict on one letter of a guess.
#[derive(Debug)]
pub struct LetterFeedback {
    pub letter: String,
    pub status: LetterState,
}

/// Whether a guessed letter is in place, elsewhere in the word, or not (or no more) in it.
#[derive(Debug, Clone, Copy, PartialEq, Eq, Structural)]
pub enum LetterState {
    Correct,
    Present,
    Absent,
}

/// An error reply.
#[derive(Debug)]
pub struct ApiError {
    pub error: String,
}

} // verus!
