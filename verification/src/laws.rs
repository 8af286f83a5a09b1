//! Properties of the game that hold across calls and inputs.

use vstd::prelude::*;
use crate::feedback::{count_char, exact_hits, lemma_exact_hits_bound, letter_state, misplaced_before, spare_copies};
use crate::game::{city_ids, day_city_index, round_three_verdict, served_order, total_points};
use crate::models::{City, LetterState, SketchSummary, StageThreeKind};
use crate::text::{
    answer_chars, answer_form, lemma_pieces_extend, lemma_pieces_nonempty, lemma_trim_end_white_suffix,
    lemma_trim_start_white_prefix, pieces, trim, word_form,
};
use crate::words::{dictionary_entries, dictionary_entry, dictionary_words};
use crate::schedule::{
    cycle_order, goes_before, key_before, lemma_cycle_order_sorted, lemma_key_order,
    lemma_order_prefix_permutation,
};
use crate::session::{
    fresh_progress, is_for, keep_recent, last_match, progress_for, record_attempt, start_daily,
    touch, with_attempt, SessionClaims, MAX_DAILY_ENTRIES,
};
use crate::models::ProgressView;

verus! {

/// Number of positions `i < n` where the guess has `c` and the verdict is not `Absent`.
pub open spec fn marked_upto(secret: Seq<char>, guess: Seq<char>, c: char, n: int) -> nat
    decreases n,
{
    if n <= 0 {
        0
    } else {
        marked_upto(secret, guess, c, n - 1) + if guess[n - 1] == c && letter_state(
            secret,
            guess,
            n - 1,
        ) != LetterState::Absent {
            1nat
        } else {
            0nat
        }
    }
}

/// Number of positions `i < n` where the guess has `c` out of place and marked `Present`.
pub open spec fn present_upto(secret: Seq<char>, guess: Seq<char>, c: char, n: int) -> nat
    decreases n,
{
    if n <= 0 {
        0
    } else {
        present_upto(secret, guess, c, n - 1) + if guess[n - 1] == c && guess[n - 1] != secret[n
            - 1] && letter_state(secret, guess, n - 1) == LetterState::Present {
            1nat
        } else {
            0nat
        }
    }
}

proof fn lemma_present_upto(secret: Seq<char>, guess: Seq<char>, c: char, n: int)
    requires
        0 <= n <= guess.len(),
        spare_copies(secret, guess, c) >= 0,
    ensures
        present_upto(secret, guess, c, n) == if misplaced_before(secret, guess, c, n) < spare_copies(
            secret,
            guess,
            c,
        ) {
            misplaced_before(secret, guess, c, n) as int
        } else {
            spare_copies(secret, guess, c)
        },
    decreases n,
{
    if n > 0 {
        lemma_present_upto(secret, guess, c, n - 1);
    }
}

proof fn lemma_marked_split(secret: Seq<char>, guess: Seq<char>, c: char, n: int)
    requires
        0 <= n <= guess.len(),
        guess.len() <= secret.len(),
    ensures
        marked_upto(secret, guess, c, n) == exact_hits(secret, guess, c, n) + present_upto(
            secret,
            guess,
            c,
            n,
        ),
        count_char(guess.take(n), c) == exact_hits(secret, guess, c, n) + misplaced_before(
            secret,
            guess,
            c,
            n,
        ),
    decreases n,
{
    if n > 0 {
        lemma_marked_split(secret, guess, c, n - 1);
        assert(guess.take(n).drop_last() =~= guess.take(n - 1));
    }
}

/// A guess equal to the secret word is marked correct at every letter.
pub proof fn law_exact_guess_all_correct(secret: Seq<char>)
    ensures
        forall|i: int| 0 <= i < secret.len() ==> #[trigger] letter_state(secret, secret, i) == LetterState::Correct,
{
}

/// For every letter, the feedback on a guess no longer than the secret word marks (correct
/// or present) as many copies of it as the two have in common: the smaller of the two counts.
pub proof fn law_feedback_letter_multiplicity(secret: Seq<char>, guess: Seq<char>, c: char)
    requires
        guess.len() <= secret.len(),
    ensures
        marked_upto(secret, guess, c, guess.len() as int) == if count_char(guess, c) < count_char(
            secret,
            c,
        ) {
            count_char(guess, c)
        } else {
            count_char(secret, c)
        },
{
    let n = guess.len() as int;
    lemma_exact_hits_bound(secret, guess, c, n);
    lemma_present_upto(secret, guess, c, n);
    lemma_marked_split(secret, guess, c, n);
    assert(guess.take(n) =~= guess);
}

/// Some day of cycle `cycle` serves city `k`.
pub open spec fn served_in_cycle(ids: Seq<Seq<u8>>, cycle: int, k: int) -> bool {
    exists|d: int|
        #![trigger day_city_index(ids, d)]
        cycle * ids.len() <= d < (cycle + 1) * ids.len() && day_city_index(ids, d) == k
}

/// Within one cycle of as many days as there are cities, no city is served twice and
/// every city is served.
pub proof fn law_each_city_once_per_cycle(ids: Seq<Seq<u8>>, cycle: int)
    requires
        1 <= ids.len() <= usize::MAX,
    ensures
        forall|d1: int, d2: int|
            cycle * ids.len() <= d1 < d2 < (cycle + 1) * ids.len() ==> #[trigger] day_city_index(
                ids,
                d1,
            ) != #[trigger] day_city_index(ids, d2),
        forall|k: int| 0 <= k < ids.len() ==> #[trigger] served_in_cycle(ids, cycle, k),
{
    let n = ids.len() as int;
    assert((cycle + 1) * n == cycle * n + n) by (nonlinear_arith);
    if n == 1 {
        assert forall|k: int| 0 <= k < ids.len() implies #[trigger] served_in_cycle(ids, cycle, k) by {
            assert(day_city_index(ids, cycle * n) == 0);
        }
    } else {
        let served = served_order(ids, cycle);
        lemma_served_order_permutation(ids, cycle);
        assert forall|d1: int, d2: int|
            cycle * ids.len() <= d1 < d2 < (cycle + 1) * ids.len() implies #[trigger] day_city_index(
            ids,
            d1,
        ) != #[trigger] day_city_index(ids, d2) by {
            vstd::arithmetic::div_mod::lemma_fundamental_div_mod_converse(d1, n, cycle, d1 - cycle * n);
            vstd::arithmetic::div_mod::lemma_fundamental_div_mod_converse(d2, n, cycle, d2 - cycle * n);
            assert(served[d1 - cycle * n] != served[d2 - cycle * n]);
        }
        assert forall|k: int| 0 <= k < ids.len() implies #[trigger] served_in_cycle(ids, cycle, k) by {
            assert(served.contains(k as usize));
            let o = choose|o: int| 0 <= o < served.len() && served[o] == k as usize;
            let d = cycle * n + o;
            vstd::arithmetic::div_mod::lemma_fundamental_div_mod_converse(d, n, cycle, o);
            assert(day_city_index(ids, d) == k);
        }
    }
}

/// The order a cycle serves holds every city exactly once.
pub proof fn lemma_served_order_permutation(ids: Seq<Seq<u8>>, cycle: int)
    requires
        2 <= ids.len() <= usize::MAX,
    ensures
        served_order(ids, cycle).len() == ids.len(),
        served_order(ids, cycle).no_duplicates(),
        forall|y: usize| #[trigger] served_order(ids, cycle).contains(y) <==> y < ids.len(),
{
    let order = cycle_order(ids, cycle as u64);
    lemma_order_prefix_permutation(ids, cycle as u64, ids.len());
    lemma_order_prefix_permutation(ids, (cycle - 1) as u64, ids.len());
    let rotated = order.skip(1).push(order[0]);
    assert forall|i: int, j: int|
        0 <= i < rotated.len() && 0 <= j < rotated.len() && i != j implies rotated[i] != rotated[j] by {
        let oi = if i == rotated.len() - 1 { 0 } else { i + 1 };
        let oj = if j == rotated.len() - 1 { 0 } else { j + 1 };
        assert(rotated[i] == order[oi]);
        assert(rotated[j] == order[oj]);
    }
    assert forall|y: usize| #[trigger] rotated.contains(y) <==> order.contains(y) by {
        if order.contains(y) {
            let i = choose|i: int| 0 <= i < order.len() && order[i] == y;
            if i == 0 {
                assert(rotated[rotated.len() - 1] == y);
            } else {
                assert(rotated[i - 1] == y);
            }
        }
        if rotated.contains(y) {
            let i = choose|i: int| 0 <= i < rotated.len() && rotated[i] == y;
            if i == rotated.len() - 1 {
                assert(order[0] == y);
            } else {
                assert(order[i + 1] == y);
            }
        }
    }
}

/// With two cities or more, two days in a row serve different cities. Within a cycle this
/// holds always; across the start of a cycle it holds where the cycle before was served
/// unrotated (a rotated cycle ends on the city its own order starts with, and the next
/// cycle compares its first city with the last one of the unrotated order).
pub proof fn law_no_repeat_on_consecutive_days(ids: Seq<Seq<u8>>, d: int)
    requires
        2 <= ids.len() <= usize::MAX,
        (d + 1) % (ids.len() as int) != 0 || served_order(ids, (d + 1) / (ids.len() as int) - 1)
            == cycle_order(ids, ((d + 1) / (ids.len() as int) - 1) as u64),
    ensures
        day_city_index(ids, d) != day_city_index(ids, d + 1),
{
    let n = ids.len() as int;
    let c = (d + 1) / n;
    let r = (d + 1) % n;
    vstd::arithmetic::div_mod::lemma_fundamental_div_mod(d + 1, n);
    lemma_served_order_permutation(ids, c);
    if r != 0 {
        vstd::arithmetic::div_mod::lemma_fundamental_div_mod_converse(d, n, c, r - 1);
        let served = served_order(ids, c);
        assert(served[r - 1] != served[r]);
    } else {
        assert(d == (c - 1) * n + (n - 1)) by (nonlinear_arith)
            requires
                d + 1 == n * c,
        ;
        vstd::arithmetic::div_mod::lemma_fundamental_div_mod_converse(d, n, c - 1, n - 1);
        lemma_order_prefix_permutation(ids, c as u64, ids.len());
        lemma_order_prefix_permutation(ids, (c - 1) as u64, ids.len());
        let order = cycle_order(ids, c as u64);
        let previous = cycle_order(ids, (c - 1) as u64);
        assert(day_city_index(ids, d) == previous[n - 1]);
        if previous[n - 1] == order[0] {
            assert(served_order(ids, c)[0] == order[1]);
            assert(order[0] != order[1]);
        } else {
            assert(served_order(ids, c)[0] == order[0]);
        }
    }
}

/// `last_match` points at a matching entry, or is -1.
pub proof fn lemma_last_match_bounds(d: Seq<ProgressView>, day: Seq<char>, city: Seq<char>)
    ensures
        -1 <= last_match(d, day, city) < d.len(),
        last_match(d, day, city) >= 0 ==> is_for(d[last_match(d, day, city)], day, city),
        forall|j: int|
            last_match(d, day, city) < j < d.len() ==> !is_for(#[trigger] d[j], day, city),
    decreases d.len(),
{
    if d.len() > 0 {
        lemma_last_match_bounds(d.drop_last(), day, city);
        if !is_for(d.last(), day, city) {
            assert forall|j: int| last_match(d, day, city) < j < d.len() implies !is_for(
                #[trigger] d[j],
                day,
                city,
            ) by {
                if j < d.len() - 1 {
                    assert(d[j] == d.drop_last()[j]);
                }
            }
        }
    }
}

/// Dropping the first `s` entries shifts the last match, or loses it.
pub proof fn lemma_last_match_skip(d: Seq<ProgressView>, day: Seq<char>, city: Seq<char>, s: int)
    requires
        0 <= s <= d.len(),
    ensures
        last_match(d.skip(s), day, city) == if last_match(d, day, city) >= s {
            last_match(d, day, city) - s
        } else {
            -1
        },
    decreases d.len(),
{
    lemma_last_match_bounds(d, day, city);
    if d.len() == s {
        assert(d.skip(s) =~= Seq::<ProgressView>::empty());
    } else {
        assert(d.skip(s).last() == d.last());
        assert(d.skip(s).drop_last() =~= d.drop_last().skip(s));
        if !is_for(d.last(), day, city) {
            lemma_last_match_skip(d.drop_last(), day, city, s);
        }
    }
}

/// Opening the day (again) leaves its progress as it was, provided its entry is among the
/// most recent `MAX_DAILY_ENTRIES` kept; a day without an entry starts fresh.
pub proof fn law_bootstrap_keeps_progress(d: Seq<ProgressView>, day: Seq<char>, city: Seq<char>)
    ensures
        progress_for(keep_recent(touch(d, day, city)), day, city) == {
            let i = last_match(d, day, city);
            if i >= 0 && i + MAX_DAILY_ENTRIES >= d.len() {
                d[i]
            } else {
                fresh_progress(day, city)
            }
        },
{
    let t = touch(d, day, city);
    lemma_last_match_bounds(d, day, city);
    lemma_last_match_bounds(t, day, city);
    if t.len() > MAX_DAILY_ENTRIES {
        lemma_last_match_skip(t, day, city, t.len() - MAX_DAILY_ENTRIES);
    }
}

/// An attempt is counted on the day's progress as `with_attempt` says, provided the day's
/// entry is among the most recent `MAX_DAILY_ENTRIES` (or the day has none yet).
pub proof fn law_attempt_counted(
    d: Seq<ProgressView>,
    day: Seq<char>,
    city: Seq<char>,
    round: u8,
    correct: bool,
)
    requires
        last_match(d, day, city) < 0 || last_match(d, day, city) + MAX_DAILY_ENTRIES >= d.len(),
    ensures
        progress_for(keep_recent(record_attempt(d, day, city, round, correct)), day, city)
            == with_attempt(progress_for(d, day, city), round, correct),
{
    let t = touch(d, day, city);
    lemma_last_match_bounds(d, day, city);
    lemma_last_match_bounds(t, day, city);
    let i = last_match(t, day, city);
    let r = t.update(i, with_attempt(t[i], round, correct));
    assert(is_for(r[i], day, city));
    assert forall|j: int| i < j < r.len() implies !is_for(#[trigger] r[j], day, city) by {
        assert(r[j] == t[j]);
    }
    lemma_last_match_unique(r, day, city, i);
    if r.len() > MAX_DAILY_ENTRIES {
        lemma_last_match_skip(r, day, city, r.len() - MAX_DAILY_ENTRIES);
    }
}

/// The last match is the matching entry after which none matches.
pub proof fn lemma_last_match_unique(d: Seq<ProgressView>, day: Seq<char>, city: Seq<char>, i: int)
    requires
        0 <= i < d.len(),
        is_for(d[i], day, city),
        forall|j: int| i < j < d.len() ==> !is_for(#[trigger] d[j], day, city),
    ensures
        last_match(d, day, city) == i,
    decreases d.len(),
{
    if i < d.len() - 1 {
        assert(!is_for(d[d.len() - 1], day, city));
        assert forall|j: int| i < j < d.drop_last().len() implies !is_for(
            #[trigger] d.drop_last()[j],
            day,
            city,
        ) by {
            assert(d.drop_last()[j] == d[j]);
        }
        lemma_last_match_unique(d.drop_last(), day, city, i);
    }
}

/// An attempt never undoes a completed round, never lowers an attempt count, and the day
/// is complete exactly when its three rounds are.
pub proof fn law_attempt_monotone(p: ProgressView, round: u8, correct: bool)
    ensures
        p.round1_completed ==> with_attempt(p, round, correct).round1_completed,
        p.round2_completed ==> with_attempt(p, round, correct).round2_completed,
        p.round3_completed ==> with_attempt(p, round, correct).round3_completed,
        with_attempt(p, round, correct).round1_attempts >= p.round1_attempts,
        with_attempt(p, round, correct).round2_attempts >= p.round2_attempts,
        with_attempt(p, round, correct).round3_attempts >= p.round3_attempts,
        with_attempt(p, round, correct).completed == (with_attempt(p, round, correct).round1_completed
            && with_attempt(p, round, correct).round2_completed && with_attempt(
            p,
            round,
            correct,
        ).round3_completed),
        (1 <= round <= 3 && correct) ==> (if round == 1 {
            with_attempt(p, round, correct).round1_completed
        } else if round == 2 {
            with_attempt(p, round, correct).round2_completed
        } else {
            with_attempt(p, round, correct).round3_completed
        }),
{
}

/// A token keeps at most `MAX_DAILY_ENTRIES` days, the most recent ones.
pub proof fn law_recent_entries_kept(d: Seq<ProgressView>)
    ensures
        keep_recent(d).len() <= MAX_DAILY_ENTRIES,
        keep_recent(d).len() == if d.len() < MAX_DAILY_ENTRIES {
            d.len()
        } else {
            MAX_DAILY_ENTRIES as nat
        },
        keep_recent(d) == d.subrange(d.len() - keep_recent(d).len(), d.len() as int),
{
    assert(d.subrange(d.len() - keep_recent(d).len(), d.len() as int) =~= keep_recent(d));
}

/// A progress entry is coherent: the day is complete exactly when its three rounds are, and
/// every completed round has been attempted at least once.
pub open spec fn coherent(p: ProgressView) -> bool {
    &&& p.completed == (p.round1_completed && p.round2_completed && p.round3_completed)
    &&& p.round1_completed ==> p.round1_attempts >= 1
    &&& p.round2_completed ==> p.round2_attempts >= 1
    &&& p.round3_completed ==> p.round3_attempts >= 1
}

/// Every entry of a token's progress is coherent.
pub open spec fn all_coherent(d: Seq<ProgressView>) -> bool {
    forall|i: int| 0 <= i < d.len() ==> coherent(#[trigger] d[i])
}

/// An attempt keeps an entry coherent.
pub proof fn lemma_attempt_coherent(p: ProgressView, round: u8, correct: bool)
    requires
        coherent(p),
    ensures
        coherent(with_attempt(p, round, correct)),
{
}

/// The entries of issued tokens stay coherent: a new session has none, and opening the day
/// or recording an attempt on entries that are coherent (as those of a token this library
/// issued are) leaves every kept entry, and the day's progress, coherent. Refreshing the
/// token's times leaves its entries as they are.
pub proof fn law_entries_stay_coherent(
    d: Seq<ProgressView>,
    day: Seq<char>,
    city: Seq<char>,
    round: u8,
    correct: bool,
)
    requires
        all_coherent(d),
    ensures
        all_coherent(Seq::<ProgressView>::empty()),
        all_coherent(keep_recent(touch(d, day, city))),
        coherent(progress_for(keep_recent(touch(d, day, city)), day, city)),
        all_coherent(keep_recent(record_attempt(d, day, city, round, correct))),
        coherent(progress_for(keep_recent(record_attempt(d, day, city, round, correct)), day, city)),
{
    let t = touch(d, day, city);
    lemma_last_match_bounds(d, day, city);
    assert(all_coherent(t)) by {
        if last_match(d, day, city) < 0 {
            assert forall|i: int| 0 <= i < t.len() implies coherent(#[trigger] t[i]) by {
                if i < d.len() {
                    assert(t[i] == d[i]);
                }
            }
        }
    }
    lemma_last_match_bounds(t, day, city);
    let i = last_match(t, day, city);
    let r = t.update(i, with_attempt(t[i], round, correct));
    lemma_attempt_coherent(t[i], round, correct);
    assert(all_coherent(r)) by {
        assert forall|j: int| 0 <= j < r.len() implies coherent(#[trigger] r[j]) by {
            if j != i {
                assert(r[j] == t[j]);
            }
        }
    }
    lemma_keep_recent_coherent(t, day, city);
    lemma_keep_recent_coherent(r, day, city);
}

/// Keeping the recent entries keeps them coherent, and so is the day's progress among them.
proof fn lemma_keep_recent_coherent(d: Seq<ProgressView>, day: Seq<char>, city: Seq<char>)
    requires
        all_coherent(d),
    ensures
        all_coherent(keep_recent(d)),
        coherent(progress_for(keep_recent(d), day, city)),
{
    let k = keep_recent(d);
    assert forall|j: int| 0 <= j < k.len() implies coherent(#[trigger] k[j]) by {
        if d.len() > MAX_DAILY_ENTRIES {
            assert(k[j] == d[j + d.len() - MAX_DAILY_ENTRIES]);
        }
    }
    lemma_last_match_bounds(k, day, city);
}

/// The ids of a cycle's order, in that order.
pub open spec fn ordered_ids(ids: Seq<Seq<u8>>, seed: u64) -> Seq<Seq<u8>> {
    cycle_order(ids, seed).map_values(|i: usize| ids[i as int])
}

/// The ids of the cities a cycle serves, in the order it serves them.
pub open spec fn served_ids(ids: Seq<Seq<u8>>, cycle: int) -> Seq<Seq<u8>> {
    served_order(ids, cycle).map_values(|i: usize| ids[i as int])
}

/// With distinct ids, a cycle's order lists every id once, in strictly increasing key order.
proof fn lemma_ordered_ids(ids: Seq<Seq<u8>>, seed: u64)
    requires
        ids.len() <= usize::MAX,
        ids.no_duplicates(),
    ensures
        ordered_ids(ids, seed).len() == ids.len(),
        forall|i: int, j: int|
            0 <= i < j < ids.len() ==> key_before(
                seed,
                #[trigger] ordered_ids(ids, seed)[i],
                #[trigger] ordered_ids(ids, seed)[j],
            ),
        forall|x: Seq<u8>| #[trigger] ordered_ids(ids, seed).contains(x) <==> ids.contains(x),
{
    let o = cycle_order(ids, seed);
    let k = ordered_ids(ids, seed);
    lemma_cycle_order_sorted(ids, seed);
    assert forall|q: int| 0 <= q < o.len() implies #[trigger] o[q] < ids.len() by {
        assert(o.contains(o[q]));
    }
    assert forall|i: int, j: int| 0 <= i < j < ids.len() implies key_before(
        seed,
        #[trigger] k[i],
        #[trigger] k[j],
    ) by {
        assert(o[i] != o[j]);
        assert(k[i] == ids[o[i] as int]);
        assert(k[j] == ids[o[j] as int]);
        assert(!goes_before(ids, seed, o[j] as int, o[i] as int));
        lemma_key_order(seed, k[i], k[j], k[j]);
    }
    assert forall|x: Seq<u8>| #[trigger] k.contains(x) <==> ids.contains(x) by {
        if k.contains(x) {
            let i = choose|i: int| 0 <= i < k.len() && k[i] == x;
            assert(ids[o[i] as int] == x);
        }
        if ids.contains(x) {
            let m = choose|m: int| 0 <= m < ids.len() && ids[m] == x;
            assert(o.contains(m as usize));
            let p = choose|p: int| 0 <= p < o.len() && o[p] == m as usize;
            assert(k[p] == x);
        }
    }
}

/// Two sequences in strictly increasing key order that hold the same ids are equal.
proof fn lemma_increasing_unique(seed: u64, s: Seq<Seq<u8>>, t: Seq<Seq<u8>>)
    requires
        forall|i: int, j: int| 0 <= i < j < s.len() ==> key_before(seed, #[trigger] s[i], #[trigger] s[j]),
        forall|i: int, j: int| 0 <= i < j < t.len() ==> key_before(seed, #[trigger] t[i], #[trigger] t[j]),
        forall|x: Seq<u8>|
            #![trigger s.contains(x)]
            #![trigger t.contains(x)]
            s.contains(x) <==> t.contains(x),
    ensures
        s == t,
    decreases s.len(),
{
    if s.len() == 0 {
        if t.len() > 0 {
            assert(t.contains(t[0]));
        }
        assert(s =~= t);
    } else {
        assert(s.contains(s[0]));
        let j = choose|j: int| 0 <= j < t.len() && t[j] == s[0];
        assert(t.contains(t[0]));
        let i = choose|i: int| 0 <= i < s.len() && s[i] == t[0];
        if i > 0 && j > 0 {
            lemma_key_order(seed, s[0], t[0], t[0]);
        }
        assert(s[0] == t[0]);
        let s1 = s.drop_first();
        let t1 = t.drop_first();
        assert forall|x: Seq<u8>|
            #![trigger s1.contains(x)]
            #![trigger t1.contains(x)]
            s1.contains(x) <==> t1.contains(x) by {
            if s1.contains(x) {
                let a = choose|a: int| 0 <= a < s1.len() && s1[a] == x;
                assert(s[a + 1] == x);
                assert(key_before(seed, s[0], s[a + 1]));
                lemma_key_order(seed, x, x, x);
                assert(t.contains(x));
                let b = choose|b: int| 0 <= b < t.len() && t[b] == x;
                assert(b != 0);
                assert(t1[b - 1] == x);
            }
            if t1.contains(x) {
                let a = choose|a: int| 0 <= a < t1.len() && t1[a] == x;
                assert(t[a + 1] == x);
                assert(key_before(seed, t[0], t[a + 1]));
                lemma_key_order(seed, x, x, x);
                assert(s.contains(x));
                let b = choose|b: int| 0 <= b < s.len() && s[b] == x;
                assert(b != 0);
                assert(s1[b - 1] == x);
            }
        }
        assert forall|a: int, b: int| 0 <= a < b < s1.len() implies key_before(
            seed,
            #[trigger] s1[a],
            #[trigger] s1[b],
        ) by {
            assert(s1[a] == s[a + 1] && s1[b] == s[b + 1]);
        }
        assert forall|a: int, b: int| 0 <= a < b < t1.len() implies key_before(
            seed,
            #[trigger] t1[a],
            #[trigger] t1[b],
        ) by {
            assert(t1[a] == t[a + 1] && t1[b] == t[b + 1]);
        }
        lemma_increasing_unique(seed, s1, t1);
        assert(s =~= seq![s[0]] + s1);
        assert(t =~= seq![t[0]] + t1);
    }
}

/// Lists of the same distinct ids give each cycle the same order of ids, and serve them in
/// the same order.
proof fn lemma_served_ids_agree(ids1: Seq<Seq<u8>>, ids2: Seq<Seq<u8>>, cycle: int)
    requires
        2 <= ids1.len() == ids2.len() <= usize::MAX,
        ids1.no_duplicates(),
        ids2.no_duplicates(),
        forall|x: Seq<u8>|
            #![trigger ids1.contains(x)]
            #![trigger ids2.contains(x)]
            ids1.contains(x) <==> ids2.contains(x),
    ensures
        served_ids(ids1, cycle) == served_ids(ids2, cycle),
{
    let n = ids1.len() as int;
    let s = cycle as u64;
    let p = (cycle - 1) as u64;
    lemma_ordered_ids(ids1, s);
    lemma_ordered_ids(ids2, s);
    lemma_ordered_ids(ids1, p);
    lemma_ordered_ids(ids2, p);
    lemma_increasing_unique(s, ordered_ids(ids1, s), ordered_ids(ids2, s));
    lemma_increasing_unique(p, ordered_ids(ids1, p), ordered_ids(ids2, p));
    lemma_cycle_order_sorted(ids1, s);
    lemma_cycle_order_sorted(ids2, s);
    lemma_cycle_order_sorted(ids1, p);
    lemma_cycle_order_sorted(ids2, p);
    let o1 = cycle_order(ids1, s);
    let o2 = cycle_order(ids2, s);
    let q1 = cycle_order(ids1, p);
    let q2 = cycle_order(ids2, p);
    assert(o1.contains(o1[0]) && o2.contains(o2[0]));
    assert(q1.contains(q1[n - 1]) && q2.contains(q2[n - 1]));
    assert((q1[n - 1] == o1[0]) == (ids1[q1[n - 1] as int] == ids1[o1[0] as int]));
    assert((q2[n - 1] == o2[0]) == (ids2[q2[n - 1] as int] == ids2[o2[0] as int]));
    assert(ordered_ids(ids1, p)[n - 1] == ids1[q1[n - 1] as int]);
    assert(ordered_ids(ids1, s)[0] == ids1[o1[0] as int]);
    assert(ordered_ids(ids2, p)[n - 1] == ids2[q2[n - 1] as int]);
    assert(ordered_ids(ids2, s)[0] == ids2[o2[0] as int]);
    let k = ordered_ids(ids1, s);
    if q1[n - 1] == o1[0] {
        assert(served_ids(ids1, cycle) =~= k.skip(1).push(k[0]));
        assert(served_ids(ids2, cycle) =~= k.skip(1).push(k[0]));
    } else {
        assert(served_ids(ids1, cycle) =~= k);
        assert(served_ids(ids2, cycle) =~= k);
    }
}

/// The daily city does not depend on the order the cities were loaded in: two lists of the
/// same cities, with distinct ids, serve the same city on every day (as `city_of` picks it).
pub proof fn law_daily_city_independent_of_load_order(cities1: Seq<City>, cities2: Seq<City>, day: int)
    requires
        1 <= cities1.len() == cities2.len() <= usize::MAX,
        city_ids(cities1).no_duplicates(),
        city_ids(cities2).no_duplicates(),
        forall|c: City|
            #![trigger cities1.contains(c)]
            #![trigger cities2.contains(c)]
            cities1.contains(c) <==> cities2.contains(c),
    ensures
        cities1[day_city_index(city_ids(cities1), day)] == cities2[day_city_index(
            city_ids(cities2),
            day,
        )],
{
    let ids1 = city_ids(cities1);
    let ids2 = city_ids(cities2);
    let n = ids1.len() as int;
    assert forall|x: Seq<u8>|
        #![trigger ids1.contains(x)]
        #![trigger ids2.contains(x)]
        ids1.contains(x) <==> ids2.contains(x) by {
        if ids1.contains(x) {
            let i = choose|i: int| 0 <= i < ids1.len() && ids1[i] == x;
            assert(cities1.contains(cities1[i]));
            let j = choose|j: int| 0 <= j < cities2.len() && cities2[j] == cities1[i];
            assert(ids2[j] == x);
        }
        if ids2.contains(x) {
            let i = choose|i: int| 0 <= i < ids2.len() && ids2[i] == x;
            assert(cities2.contains(cities2[i]));
            let j = choose|j: int| 0 <= j < cities1.len() && cities1[j] == cities2[i];
            assert(ids1[j] == x);
        }
    }
    let i1 = day_city_index(ids1, day);
    let i2 = day_city_index(ids2, day);
    if n == 1 {
        assert(ids1.contains(ids1[0]));
        assert(ids2[0] == ids1[0]);
    } else {
        let c = day / n;
        lemma_served_order_permutation(ids1, c);
        lemma_served_order_permutation(ids2, c);
        lemma_served_ids_agree(ids1, ids2, c);
        assert(0 <= day % n < n);
        assert(served_order(ids1, c).contains(served_order(ids1, c)[day % n]));
        assert(served_order(ids2, c).contains(served_order(ids2, c)[day % n]));
        assert(ids1[i1] == served_ids(ids1, c)[day % n]);
        assert(ids2[i2] == served_ids(ids2, c)[day % n]);
    }
    assert(ids1[i1] == ids2[i2]);
    let c1 = cities1[i1];
    assert(cities1.contains(c1));
    let j = choose|j: int| 0 <= j < cities2.len() && cities2[j] == c1;
    assert(ids2[j] == ids1[i1]);
}

/// An attempt at round `round` (1, 2 or 3) counts one more try at that round (none past
/// `u32::MAX`), completes it when the answer is correct and never uncompletes it, and
/// leaves the other rounds' tries and completion, the day and the city as they were; an
/// attempt at any other round changes no round. The day is complete exactly when all three
/// rounds are.
pub proof fn law_attempt_changes_only_its_round(p: ProgressView, round: u8, correct: bool)
    ensures
        ({
            let q = with_attempt(p, round, correct);
            &&& q.date == p.date
            &&& q.city_id == p.city_id
            &&& round == 1 ==> q.round1_completed == (p.round1_completed || correct)
                && q.round1_attempts == if p.round1_attempts < u32::MAX {
                p.round1_attempts + 1
            } else {
                p.round1_attempts as int
            }
            &&& round == 2 ==> q.round2_completed == (p.round2_completed || correct)
                && q.round2_attempts == if p.round2_attempts < u32::MAX {
                p.round2_attempts + 1
            } else {
                p.round2_attempts as int
            }
            &&& round == 3 ==> q.round3_completed == (p.round3_completed || correct)
                && q.round3_attempts == if p.round3_attempts < u32::MAX {
                p.round3_attempts + 1
            } else {
                p.round3_attempts as int
            }
            &&& round != 1 ==> q.round1_attempts == p.round1_attempts && q.round1_completed
                == p.round1_completed
            &&& round != 2 ==> q.round2_attempts == p.round2_attempts && q.round2_completed
                == p.round2_completed
            &&& round != 3 ==> q.round3_attempts == p.round3_attempts && q.round3_completed
                == p.round3_completed
            &&& q.completed == (q.round1_completed && q.round2_completed && q.round3_completed)
        }),
{
}

/// Recording an attempt on a token whose last entry for the day is entry `k` (among the
/// most recent kept) changes that entry as `law_attempt_changes_only_its_round` says and
/// nothing else of it: the day's progress afterwards has the other rounds exactly as the
/// token had them.
pub proof fn law_recorded_attempt_keeps_other_rounds(
    d: Seq<ProgressView>,
    day: Seq<char>,
    city: Seq<char>,
    k: int,
    round: u8,
    correct: bool,
)
    requires
        0 <= k < d.len(),
        is_for(d[k], day, city),
        forall|j: int| k < j < d.len() ==> !is_for(#[trigger] d[j], day, city),
        k + MAX_DAILY_ENTRIES >= d.len(),
    ensures
        ({
            let q = progress_for(keep_recent(record_attempt(d, day, city, round, correct)), day, city);
            &&& round != 1 ==> q.round1_attempts == d[k].round1_attempts && q.round1_completed
                == d[k].round1_completed
            &&& round != 2 ==> q.round2_attempts == d[k].round2_attempts && q.round2_completed
                == d[k].round2_completed
            &&& round != 3 ==> q.round3_attempts == d[k].round3_attempts && q.round3_completed
                == d[k].round3_completed
            &&& 1 <= round <= 3 && correct ==> (round == 1 ==> q.round1_completed) && (round == 2
                ==> q.round2_completed) && (round == 3 ==> q.round3_completed)
        }),
{
    lemma_last_match_unique(d, day, city, k);
    law_attempt_counted(d, day, city, round, correct);
    law_attempt_changes_only_its_round(d[k], round, correct);
}

/// A drawing is judged by its strokes and its two closeness bounds: one that is neither
/// close enough nor within the wider bound is never accepted, however many points it has;
/// one without a stroke of two points or more is never accepted; one that is close enough
/// and has such a stroke is accepted; one within the wider bound with a stroke of at least
/// 110 points is accepted; a single stroke of fewer than 110 points needs to be close
/// enough. The message says which, with the measured similarity.
pub proof fn law_drawing_verdict(city: City, answer: Seq<char>, s: SketchSummary)
    ensures
        ({
            let v = round_three_verdict(city, StageThreeKind::Draw, answer, s);
            let n = s.stroke_lengths@;
            &&& !s.close_enough && !s.within_attempt_bound ==> !v.0
            &&& (forall|i: int| 0 <= i < n.len() ==> #[trigger] n[i] < 2) ==> !v.0
            &&& s.close_enough && (exists|i: int| 0 <= i < n.len() && #[trigger] n[i] >= 2)
                ==> v.0
            &&& s.within_attempt_bound && (exists|i: int| 0 <= i < n.len() && #[trigger] n[i]
                >= 110) ==> v.0
            &&& !s.close_enough && n.len() == 1 && n[0] < 110 ==> !v.0
            &&& v.0 ==> v.1 == "Great sketch submission (similarity "@ + s.similarity_text@
                + "). You are done for today!"@
            &&& !v.0 ==> v.1 == "Keep drawing the landmark silhouette. Similarity was "@
                + s.similarity_text@ + "; try matching the famous building more closely."@
        }),
{
    let n = s.stroke_lengths@;
    if exists|i: int| 0 <= i < n.len() && #[trigger] n[i] >= 110 {
        let i = choose|i: int| 0 <= i < n.len() && #[trigger] n[i] >= 110;
        lemma_total_points_at_least(n, i);
    }
    if n.len() == 1 {
        assert(n.drop_last() =~= Seq::<usize>::empty());
        assert(total_points(n.drop_last()) == 0);
        assert(total_points(n) == n[0]);
    }
}

/// The total number of points is at least that of each stroke.
proof fn lemma_total_points_at_least(n: Seq<usize>, i: int)
    requires
        0 <= i < n.len(),
    ensures
        total_points(n) >= n[i],
    decreases n.len(),
{
    lemma_total_points_nonneg(n.drop_last());
    if i < n.len() - 1 {
        lemma_total_points_at_least(n.drop_last(), i);
    }
}

proof fn lemma_total_points_nonneg(n: Seq<usize>)
    ensures
        total_points(n) >= 0,
    decreases n.len(),
{
    if n.len() > 0 {
        lemma_total_points_nonneg(n.drop_last());
    }
}

/// An answer already written in lower-case ASCII letters, digits and inner spaces is its own
/// comparison form: nothing of it, digits included, is dropped or changed. So two such
/// answers compare equal only when they are the same text.
pub proof fn law_plain_answers_compare_as_written(s: Seq<char>)
    requires
        forall|i: int|
            0 <= i < s.len() ==> ('a' <= #[trigger] s[i] && s[i] <= 'z') || ('0' <= s[i] && s[i]
                <= '9') || s[i] == ' ',
        s.len() > 0 ==> s[0] != ' ' && s.last() != ' ',
    ensures
        answer_form(s) == s,
{
    if s.len() == 0 {
        assert(trim(s) =~= s);
    } else {
        let e = Seq::<char>::empty();
        lemma_trim_start_white_prefix(e, s);
        assert(e + s =~= s);
        lemma_trim_end_white_suffix(s, e);
        assert(s + e =~= s);
    }
    lemma_plain_answer_chars(s);
}

proof fn lemma_plain_answer_chars(s: Seq<char>)
    requires
        forall|i: int|
            0 <= i < s.len() ==> ('a' <= #[trigger] s[i] && s[i] <= 'z') || ('0' <= s[i] && s[i]
                <= '9') || s[i] == ' ',
    ensures
        answer_chars(s) == s,
    decreases s.len(),
{
    if s.len() > 0 {
        let t = s.drop_last();
        assert forall|i: int| 0 <= i < t.len() implies ('a' <= #[trigger] t[i] && t[i] <= 'z') || (
        '0' <= t[i] && t[i] <= '9') || t[i] == ' ' by {
            assert(t[i] == s[i]);
        }
        lemma_plain_answer_chars(t);
        assert(('a' <= s[s.len() - 1] && s[s.len() - 1] <= 'z') || ('0' <= s[s.len() - 1] && s[s.len() - 1] <= '9') || s[s.len() - 1] == ' ');
        assert(s =~= t.push(s.last()));
    }
}

/// Every line of a dictionary text gives its word, the last one too, with or without a
/// newline after it: a line `w` (without a newline) whose trimmed text is not empty, is not
/// a `#` comment and keeps at least three ASCII letters gives those letters upper-cased,
/// whether it stands alone or after any text and a newline; and the words of the text
/// before stay.
pub proof fn law_every_dictionary_line_counts(t: Seq<char>, w: Seq<char>)
    requires
        forall|i: int| 0 <= i < w.len() ==> w[i] != '\n',
        trim(w).len() > 0,
        trim(w)[0] != '#',
        word_form(trim(w)).len() >= 3,
    ensures
        dictionary_words(w).contains(word_form(trim(w))),
        dictionary_words(t + seq!['\n'] + w).contains(word_form(trim(w))),
        dictionary_words(t).subset_of(dictionary_words(t + seq!['\n'] + w)),
{
    let e = Seq::<char>::empty();
    let x = word_form(trim(w));
    lemma_pieces_extend(e, w, '\n');
    assert(e + w =~= w);
    assert(pieces(e, '\n') =~= seq![e]);
    assert(pieces(w, '\n') =~= seq![w]);
    assert(seq![w].drop_last() =~= Seq::<Seq<char>>::empty());
    assert(seq![w].last() == w);
    assert(dictionary_entry(w) == Some(x));
    assert(dictionary_entries(Seq::<Seq<char>>::empty()) == Seq::<Seq<char>>::empty());
    assert(dictionary_entries(seq![w]) =~= seq![x]);
    assert(seq![x].contains(x)) by {
        assert(seq![x][0] == x);
    }
    let tn = t + seq!['\n'];
    assert(tn.drop_last() =~= t);
    lemma_pieces_extend(tn, w, '\n');
    let pt = pieces(t, '\n');
    lemma_pieces_nonempty(t, '\n');
    assert(pieces(tn, '\n') == pt.push(e));
    assert(pieces(tn + w, '\n') =~= pt.push(w));
    assert(pt.push(w).drop_last() =~= pt);
    let en = dictionary_entries(pt);
    assert(dictionary_entries(pt.push(w)) == en.push(x));
    assert(en.push(x)[en.len() as int] == x);
    assert(en.push(x).contains(x));
    assert forall|y: Seq<char>| dictionary_words(t).contains(y) implies dictionary_words(
        tn + w,
    ).contains(y) by {
        let j = choose|j: int| 0 <= j < en.len() && en[j] == y;
        assert(en.push(x)[j] == y);
    }
}

/// Resuming a day from a token starts from every entry the token holds, completed or not:
/// where the token's last entry for the day is entry `k` among the most recent kept, the
/// day's progress is that entry unchanged; and a token that already has the day and no more
/// than `MAX_DAILY_ENTRIES` entries keeps all of them.
pub proof fn law_resume_keeps_stored_progress(c: SessionClaims, day: Seq<char>, city: Seq<char>, k: int)
    requires
        0 <= k < c@.daily.len(),
        is_for(c@.daily[k], day, city),
        forall|j: int| k < j < c@.daily.len() ==> !is_for(#[trigger] c@.daily[j], day, city),
        k + MAX_DAILY_ENTRIES >= c@.daily.len(),
    ensures
        progress_for(keep_recent(touch(start_daily(Some(c)), day, city)), day, city)
            == c@.daily[k],
        c@.daily.len() <= MAX_DAILY_ENTRIES ==> keep_recent(touch(start_daily(Some(c)), day, city))
            == c@.daily,
{
    let d = c@.daily;
    lemma_last_match_unique(d, day, city, k);
    law_bootstrap_keeps_progress(start_daily(Some(c)), day, city);
}

/// A word already written in upper-case ASCII letters is its own guess form: no letter is
/// dropped or changed. Characters other than ASCII letters add nothing to a guess.
pub proof fn law_plain_words_guess_as_written(s: Seq<char>, c: char)
    requires
        forall|i: int| 0 <= i < s.len() ==> 'A' <= #[trigger] s[i] && s[i] <= 'Z',
    ensures
        word_form(s) == s,
        !(('A' <= c && c <= 'Z') || ('a' <= c && c <= 'z')) ==> word_form(s.push(c)) == s,
    decreases s.len(),
{
    if s.len() > 0 {
        let t = s.drop_last();
        assert forall|i: int| 0 <= i < t.len() implies 'A' <= #[trigger] t[i] && t[i] <= 'Z' by {
            assert(t[i] == s[i]);
        }
        law_plain_words_guess_as_written(t, c);
        assert(s =~= t.push(s.last()));
    }
    assert(s.push(c).drop_last() =~= s);
}

} // verus!
