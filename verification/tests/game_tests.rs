use chrono::Datelike;
use citordle::catalog::{CatalogError, CityCatalog};
use citordle::dates::GameDate;
use citordle::game::{city_order_for_cycle, GameService};
use citordle::models::{City, LetterState, MultipleChoiceStage, SketchSummary, StageThreeAnswerRequest, StageThreeKind};
use citordle::session::SessionManager;
use citordle::words::WordList;

fn stage(prompt: &str, options: &[&str], answer: &str) -> MultipleChoiceStage {
    MultipleChoiceStage {
        prompt: prompt.to_string(),
        options: options.iter().map(|s| s.to_string()).collect(),
        answer: answer.to_string(),
    }
}

fn city(id: &str, secret: &str, country: &str) -> City {
    City {
        id: id.to_string(),
        name: format!("{id} name"),
        country: country.to_string(),
        country_code: "XX".to_string(),
        secret_word: secret.to_string(),
        activities: vec!["walking".to_string(), "eating".to_string(), "museums".to_string()],
        known_for: "its bridges".to_string(),
        famous_person: "Someone Famous".to_string(),
        popular_item: "bread".to_string(),
        map_svg: "<svg/>".to_string(),
        geography_prompt: "Which country?".to_string(),
        geography_options: vec!["France".to_string(), "Japan".to_string()],
        duolingo: stage("Translate hello", &["Bonjour", "Merci"], "Bonjour"),
        trivia: stage("Which river?", &["Seine", "Thames"], "Seine"),
        drawing_prompt: "Draw the tower".to_string(),
    }
}

fn five_cities() -> Vec<City> {
    vec![
        city("paris", "Paris", "France"),
        city("tokyo", "Tokyo", "Japan"),
        city("lima", "Lima", "Peru"),
        city("cairo", "Cairo", "Egypt"),
        city("oslo", "Oslo", "Norway"),
    ]
}

fn words(list: &[&str]) -> WordList {
    WordList::from_words(list.iter().map(|s| s.to_string()).collect())
}

fn service(cities: Vec<City>) -> GameService {
    GameService::new(cities, words(&["PARIS", "PAPER", "PIANO", "TOKYO"]), SessionManager::new("secret"))
}

fn date(y: i32, m: u32, d: u32) -> GameDate {
    GameDate::new(y, m, d).unwrap()
}

fn sketch(lengths: &[usize], close: bool, near: bool) -> SketchSummary {
    SketchSummary {
        stroke_lengths: lengths.to_vec(),
        close_enough: close,
        within_attempt_bound: near,
        similarity_text: "0.42".to_string(),
    }
}

#[test]
fn cycle_orders_sort_by_seeded_hash() {
    let cities = five_cities();
    assert_eq!(city_order_for_cycle(&cities, 0), vec![0, 1, 2, 3, 4]);
    assert_eq!(city_order_for_cycle(&cities, 1), vec![0, 1, 2, 4, 3]);
    assert_eq!(city_order_for_cycle(&cities, 2), vec![2, 3, 4, 0, 1]);
    assert_eq!(city_order_for_cycle(&cities, -1), vec![0, 1, 4, 2, 3]);
}

#[test]
fn equal_ids_keep_list_order() {
    let cities = vec![city("same", "A", "X"), city("same", "B", "Y"), city("same", "C", "Z")];
    assert_eq!(city_order_for_cycle(&cities, 9), vec![0, 1, 2]);
}

#[test]
fn days_of_may_2024_follow_the_cycle() {
    let game = service(five_cities());
    let picks: Vec<usize> = (1..=6).map(|d| game.city_index_for_date(&date(2024, 5, d))).collect();
    assert_eq!(picks, vec![0, 2, 1, 4, 3, 0]);
}

#[test]
fn each_city_once_per_cycle() {
    let game = service(five_cities());
    // Day 739005 (2024-04-29) starts a cycle of five days.
    let start = date(2024, 4, 29);
    assert_eq!(start.num_days_from_ce() % 5, 0);
    let days = [date(2024, 4, 29), date(2024, 4, 30), date(2024, 5, 1), date(2024, 5, 2), date(2024, 5, 3)];
    let mut seen: Vec<usize> = days.iter().map(|d| game.city_index_for_date(d)).collect();
    seen.sort();
    assert_eq!(seen, vec![0, 1, 2, 3, 4]);
}

#[test]
fn neighbouring_days_within_a_cycle_serve_different_cities() {
    let game = service(five_cities());
    let first = chrono::NaiveDate::from_ymd_opt(2024, 5, 1).unwrap();
    for k in 0..60 {
        let day = first + chrono::Duration::days(k);
        let next = day + chrono::Duration::days(1);
        let today = date(day.year(), day.month(), day.day());
        let tomorrow = date(next.year(), next.month(), next.day());
        if tomorrow.num_days_from_ce() % 5 != 0 {
            assert_ne!(game.city_index_for_date(&today), game.city_index_for_date(&tomorrow));
        }
    }
}

#[test]
fn a_rotated_cycle_may_end_on_the_next_cycles_first_city() {
    // The cycle ending on 2024-03-19 was rotated, so its last city is the first of its own
    // order, which the next cycle does not compare with.
    let game = service(five_cities());
    assert_eq!(date(2024, 3, 20).num_days_from_ce() % 5, 0);
    assert_eq!(game.city_index_for_date(&date(2024, 3, 19)), 1);
    assert_eq!(game.city_index_for_date(&date(2024, 3, 20)), 1);
}

#[test]
fn the_daily_city_does_not_depend_on_load_order() {
    let forward = service(five_cities());
    let mut reversed_cities = five_cities();
    reversed_cities.reverse();
    let reversed = service(reversed_cities);
    for d in 1..=31 {
        let day = date(2024, 7, d);
        assert_eq!(forward.city_for_date(&day).id, reversed.city_for_date(&day).id);
    }
}

#[test]
fn single_city_serves_every_day() {
    let game = service(vec![city("lima", "Lima", "Peru")]);
    for d in 1..=20 {
        assert_eq!(game.city_index_for_date(&date(2024, 6, d)), 0);
    }
}

#[test]
fn stage_kinds_follow_the_date_hash() {
    assert_eq!(GameService::stage_kind_for_date(&date(2024, 5, 1)), StageThreeKind::Trivia);
    assert_eq!(GameService::stage_kind_for_date(&date(2024, 5, 2)), StageThreeKind::Draw);
    assert_eq!(GameService::stage_kind_for_date(&date(2025, 1, 1)), StageThreeKind::Duolingo);
}

#[test]
fn daily_game_shows_the_city_of_the_day() {
    let game = service(five_cities());
    let day = date(2024, 5, 2); // lima, draw day
    let g = game.daily_game(&day);
    assert_eq!(g.date, "2024-05-02");
    assert_eq!(g.city_id, "lima");
    assert_eq!(g.city_name, "lima name");
    assert_eq!(g.country, "Peru");
    assert_eq!(g.round1.word_length, 4);
    assert_eq!(
        g.round1.hints,
        vec![
            "Try thinking about what visitors do: walking, eating, museums.".to_string(),
            "This city is known for its bridges.".to_string(),
            "A famous person linked to this city: Someone Famous.".to_string(),
            "A common local bite or item is bread.".to_string(),
        ]
    );
    assert_eq!(g.round2.prompt, "Which country?");
    assert_eq!(g.round2.options, vec!["France".to_string(), "Japan".to_string()]);
    assert_eq!(g.round3.kind, StageThreeKind::Draw);
    assert_eq!(g.round3.prompt, "Draw the tower");
    assert!(g.round3.options.is_empty());
    assert_eq!(
        g.round3.instructions.as_deref(),
        Some("Trace the faint landmark guide first, then add your own lines and submit.")
    );
}

#[test]
fn daily_game_trivia_and_translation_rounds() {
    let game = service(five_cities());
    let trivia = game.daily_game(&date(2024, 5, 1));
    assert_eq!(trivia.round3.kind, StageThreeKind::Trivia);
    assert_eq!(trivia.round3.prompt, "Which river?");
    assert_eq!(trivia.round3.instructions.as_deref(), Some("Choose the correct trivia answer."));
    let duo = game.daily_game(&date(2025, 1, 1));
    assert_eq!(duo.round3.kind, StageThreeKind::Duolingo);
    assert_eq!(duo.round3.options, vec!["Bonjour".to_string(), "Merci".to_string()]);
    assert_eq!(duo.round3.instructions.as_deref(), Some("Pick the best translation."));
}

#[test]
fn round_one_refuses_bad_guesses() {
    let game = service(five_cities());
    let day = date(2024, 5, 1); // paris
    assert_eq!(game.check_round1(&day, "  42 !").err().as_deref(), Some("Guess must include letters."));
    assert_eq!(game.check_round1(&day, "Lima").err().as_deref(), Some("Guess must be 5 letters long."));
    assert_eq!(
        game.check_round1(&day, "HELLO").err().as_deref(),
        Some("Guess is not in the allowed dictionary list.")
    );
}

#[test]
fn round_one_scores_a_guess() {
    let game = service(five_cities());
    let day = date(2024, 5, 1); // paris
    let ev = game.check_round1(&day, "paper").unwrap();
    assert!(!ev.correct);
    let statuses: Vec<LetterState> = ev.feedback.iter().map(|f| f.status).collect();
    assert_eq!(
        statuses,
        vec![LetterState::Correct, LetterState::Correct, LetterState::Absent, LetterState::Absent, LetterState::Present]
    );
    let win = game.check_round1(&day, " Pa-ris ").unwrap();
    assert!(win.correct);
    assert!(win.feedback.iter().all(|f| f.status == LetterState::Correct));
}

#[test]
fn round_two_compares_normalized_country() {
    let game = service(five_cities());
    let day = date(2024, 5, 1); // paris, France
    let ok = game.check_round2(&day, "  FRANCE!");
    assert!(ok.correct);
    assert_eq!(ok.message, "Nice map read. Round 2 cleared.");
    let no = game.check_round2(&day, "Japan");
    assert!(!no.correct);
    assert_eq!(no.message, "Not quite. Try another geography option.");
}

#[test]
fn round_three_choice_answers() {
    let game = service(five_cities());
    let trivia_day = date(2024, 5, 1);
    let right = StageThreeAnswerRequest { answer: Some(" seine ".to_string()), sketch: sketch(&[], false, false) };
    let ev = game.check_round3(&trivia_day, &right);
    assert!(ev.correct);
    assert_eq!(ev.message, "Trivia nailed. You are done for today!");
    let none = StageThreeAnswerRequest { answer: None, sketch: sketch(&[], false, false) };
    let ev = game.check_round3(&trivia_day, &none);
    assert!(!ev.correct);
    assert_eq!(ev.message, "Not that one. Try another trivia choice.");
    let duo_day = date(2025, 1, 1);
    let ev = game.check_round3(&duo_day, &StageThreeAnswerRequest { answer: Some("bonjour".to_string()), sketch: sketch(&[], false, false) });
    assert!(ev.correct);
    assert_eq!(ev.message, "Correct translation. You are done for today!");
    let ev = game.check_round3(&duo_day, &StageThreeAnswerRequest { answer: Some("merci".to_string()), sketch: sketch(&[], false, false) });
    assert!(!ev.correct);
    assert_eq!(ev.message, "Close, but that translation is not the best fit.");
}

#[test]
fn round_three_drawings() {
    let game = service(five_cities());
    let draw_day = date(2024, 5, 2);
    let close = StageThreeAnswerRequest { answer: None, sketch: sketch(&[1, 5], true, true) };
    let ev = game.check_round3(&draw_day, &close);
    assert!(ev.correct);
    assert_eq!(ev.message, "Great sketch submission (similarity 0.42). You are done for today!");
    // Close in shape but no stroke with two points.
    let dots = StageThreeAnswerRequest { answer: None, sketch: sketch(&[1, 1, 1], true, true) };
    assert!(!game.check_round3(&draw_day, &dots).correct);
    // A long attempt within the wider bound.
    let long = StageThreeAnswerRequest { answer: None, sketch: sketch(&[60, 50], false, true) };
    assert!(game.check_round3(&draw_day, &long).correct);
    let short = StageThreeAnswerRequest { answer: None, sketch: sketch(&[60, 49], false, true) };
    let ev = game.check_round3(&draw_day, &short);
    assert!(!ev.correct);
    assert_eq!(
        ev.message,
        "Keep drawing the landmark silhouette. Similarity was 0.42; try matching the famous building more closely."
    );
}

#[test]
fn catalog_later_records_replace_earlier_ones() {
    let mut catalog = CityCatalog::new();
    assert_eq!(catalog.add(city("paris", "Paris", "France")), Ok(0));
    assert_eq!(catalog.add(city("lima", "Lima", "Peru")), Ok(1));
    assert_eq!(catalog.add(city(" paris ", "Lutece", "Gaul")), Ok(0));
    assert_eq!(catalog.add(city("   ", "None", "Nowhere")), Err(CatalogError::EmptyCityId));
    let cities = catalog.into_cities().unwrap();
    assert_eq!(cities.len(), 2);
    assert_eq!(cities[0].id, " paris ");
    assert_eq!(cities[0].country, "Gaul");
    assert_eq!(cities[1].id, "lima");
}

#[test]
fn empty_catalog_is_refused() {
    assert_eq!(CityCatalog::new().into_cities().err(), Some(CatalogError::EmptyDataset));
}

#[test]
fn city_files_are_json_files_read_in_name_order() {
    let names: Vec<String> = ["world.json", "cities.json", "notes.txt", ".json", "b.JSON", "Asia.json", "x..json", "json"]
        .iter()
        .map(|s| s.to_string())
        .collect();
    assert_eq!(
        citordle::city_files::city_file_names(&names, Some("cities.json")),
        vec!["Asia.json".to_string(), "world.json".to_string(), "x..json".to_string()]
    );
    assert_eq!(
        citordle::city_files::city_file_names(&names, None),
        vec!["Asia.json".to_string(), "cities.json".to_string(), "world.json".to_string(), "x..json".to_string()]
    );
}
