//! Letter-by-letter verdicts on a word guess.

use vstd::prelude::*;
use std::collections::HashMap;
use crate::models::{LetterFeedback, LetterState};
use crate::text::{chars_of, push_char};

verus! {

broadcast use vstd::std_specs::hash::group_hash_axioms;

/// Number of occurrences of `c` in `s`.
pub open spec fn count_char(s: Seq<char>, c: char) -> nat
    decreases s.len(),
{
    if s.len() == 0 {
        0
    } else {
        count_char(s.drop_last(), c) + if s.last() == c {
            1nat
        } else {
            0nat
        }
    }
}

/// Number of positions `k < n` where the guess has `c` in its place in the secret.
pub open spec fn exact_hits(secret: Seq<char>, guess: Seq<char>, c: char, n: int) -> nat
    decreases n,
{
    if n <= 0 {
        0
    } else {
        exact_hits(secret, guess, c, n - 1) + if guess[n - 1] == secret[n - 1] && guess[n
            - 1] == c {
            1nat
        } else {
            0nat
        }
    }
}

/// Number of positions `k < n` where the guess has `c` but the secret has another letter.
pub open spec fn misplaced_before(secret: Seq<char>, guess: Seq<char>, c: char, n: int) -> nat
    decreases n,
{
    if n <= 0 {
        0
    } else {
        misplaced_before(secret, guess, c, n - 1) + if guess[n - 1] != secret[n - 1]
            && guess[n - 1] == c {
            1nat
        } else {
            0nat
        }
    }
}

/// The verdict on position `i` of `guess` against `secret`: `Correct` where the letters
/// agree; otherwise `Present` while the secret still holds copies of the letter that
/// neither an exact hit nor an earlier misplaced copy has used up; else `Absent`.
pub open spec fn letter_state(secret: Seq<char>, guess: Seq<char>, i: int) -> LetterState {
    let c = guess[i];
    if c == secret[i] {
        LetterState::Correct
    } else if misplaced_before(secret, guess, c, i) + exact_hits(secret, guess, c, guess.len() as int)
        < count_char(secret, c) {
        LetterState::Present
    } else {
        LetterState::Absent
    }
}

/// `feedback` holds the verdicts on `guess` against `secret`, letter by letter.
pub open spec fn feedback_of(feedback: Seq<LetterFeedback>, secret: Seq<char>, guess: Seq<char>) -> bool {
    &&& feedback.len() == guess.len()
    &&& forall|i: int|
        0 <= i < guess.len() ==> {
            &&& (#[trigger] feedback[i]).letter@ == seq![guess[i]]
            &&& feedback[i].status == letter_state(secret, guess, i)
        }
}

/// Copies of `c` in the secret that exact hits leave over.
pub open spec fn spare_copies(secret: Seq<char>, guess: Seq<char>, c: char) -> int {
    count_char(secret, c) - exact_hits(secret, guess, c, guess.len() as int)
}

/// Value kept for `c` in a letter-count map (absent keys count zero).
pub open spec fn tally(m: Map<u32, usize>, c: char) -> int {
    if m.contains_key(c as u32) {
        m[c as u32] as int
    } else {
        0
    }
}

/// Distinct characters have distinct code points.
pub proof fn lemma_code_point_injective(c: char, d: char)
    ensures
        (c as u32 == d as u32) <==> c == d,
{
}

pub proof fn lemma_count_le_len(s: Seq<char>, c: char)
    ensures
        count_char(s, c) <= s.len(),
    decreases s.len(),
{
    if s.len() > 0 {
        lemma_count_le_len(s.drop_last(), c);
    }
}

pub proof fn lemma_count_prefix(s: Seq<char>, c: char, n: int)
    requires
        0 <= n <= s.len(),
    ensures
        count_char(s.take(n), c) <= count_char(s, c),
    decreases s.len(),
{
    if n < s.len() {
        assert(s.take(n) =~= s.drop_last().take(n));
        lemma_count_prefix(s.drop_last(), c, n);
    } else {
        assert(s.take(n) =~= s);
    }
}

pub proof fn lemma_exact_hits_bound(secret: Seq<char>, guess: Seq<char>, c: char, n: int)
    requires
        0 <= n <= guess.len(),
        n <= secret.len(),
    ensures
        exact_hits(secret, guess, c, n) <= count_char(secret.take(n), c),
        exact_hits(secret, guess, c, n) <= count_char(secret, c),
    decreases n,
{
    if n > 0 {
        lemma_exact_hits_bound(secret, guess, c, n - 1);
        assert(secret.take(n).drop_last() =~= secret.take(n - 1));
    }
    lemma_count_prefix(secret, c, n);
}

fn char_string(c: char) -> (s: String)
    ensures
        s@ == seq![c],
{
    let mut s = String::new();
    push_char(&mut s, c);
    s
}

/// Letter-by-letter verdicts on `guess` against `secret`.
pub fn build_feedback(secret: &str, guess: &str) -> (feedback: Vec<LetterFeedback>)
    requires
        guess@.len() <= secret@.len(),
    ensures
        feedback_of(feedback@, secret@, guess@),
{
    let secret_chars = chars_of(secret);
    let guess_chars = chars_of(guess);
    let ghost s = secret@;
    let ghost g = guess@;
    let n = guess_chars.len();
    let m = secret_chars.len();

    let mut states: Vec<LetterState> = Vec::new();
    let mut k: usize = 0;
    while k < n
        invariant
            k <= n,
            states@.len() == k,
            forall|j: int| 0 <= j < k ==> states@[j] == LetterState::Absent,
        decreases n - k,
    {
        states.push(LetterState::Absent);
        k = k + 1;
    }

    let mut counts: HashMap<u32, usize> = HashMap::new();
    let mut j: usize = 0;
    assert(s.take(0) =~= Seq::<char>::empty());
    while j < m
        invariant
            secret_chars@ == s,
            m == s.len(),
            j <= m,
            forall|c: char| #[trigger] tally(counts@, c) == count_char(s.take(j as int), c),
        decreases m - j,
    {
        let c = secret_chars[j];
        let key = c as u32;
        let ghost before = counts@;
        let current: usize = match counts.get(&key) {
            Some(v) => *v,
            None => 0,
        };
        proof {
            assert(tally(counts@, c) == current);
            lemma_count_le_len(s.take(j as int), c);
            assert(s.take(j + 1).drop_last() =~= s.take(j as int));
        }
        counts.insert(key, current + 1);
        proof {
            assert forall|d: char| #[trigger] tally(counts@, d) == count_char(
                s.take(j + 1),
                d,
            ) by {
                assert(s.take(j + 1).drop_last() =~= s.take(j as int));
                assert(s.take(j + 1).last() == c);
                lemma_code_point_injective(c, d);
                assert(tally(before, d) == count_char(s.take(j as int), d));
            }
        }
        j = j + 1;
    }
    assert(s.take(m as int) =~= s);

    let mut idx: usize = 0;
    while idx < n
        invariant
            secret_chars@ == s,
            guess_chars@ == g,
            n == g.len(),
            m == s.len(),
            n <= m,
            idx <= n,
            states@.len() == n,
            forall|i: int|
                0 <= i < idx ==> #[trigger] states@[i] == if g[i] == s[i] {
                    LetterState::Correct
                } else {
                    LetterState::Absent
                },
            forall|i: int| idx <= i < n ==> #[trigger] states@[i] == LetterState::Absent,
            forall|c: char|
                #[trigger] tally(counts@, c) == count_char(s, c) - exact_hits(s, g, c, idx as int),
        decreases n - idx,
    {
        let c = guess_chars[idx];
        if c == secret_chars[idx] {
            states.set(idx, LetterState::Correct);
            let key = c as u32;
            let ghost before = counts@;
            proof {
                lemma_exact_hits_bound(s, g, c, idx + 1);
                assert(exact_hits(s, g, c, idx + 1) == exact_hits(s, g, c, idx as int) + 1);
                assert(tally(before, c) == count_char(s, c) - exact_hits(s, g, c, idx as int));
            }
            match counts.get(&key) {
                Some(v) => {
                    let v = *v;
                    counts.insert(key, v - 1);
                },
                None => {},
            }
            proof {
                assert forall|d: char| #[trigger] tally(counts@, d) == count_char(s, d)
                    - exact_hits(s, g, d, idx + 1) by {
                    lemma_code_point_injective(c, d);
                    assert(tally(before, d) == count_char(s, d) - exact_hits(s, g, d, idx as int));
                }
            }
        }
        idx = idx + 1;
    }

    let mut idx: usize = 0;
    while idx < n
        invariant
            secret_chars@ == s,
            guess_chars@ == g,
            n == g.len(),
            m == s.len(),
            n <= m,
            idx <= n,
            states@.len() == n,
            forall|i: int| 0 <= i < idx ==> #[trigger] states@[i] == letter_state(s, g, i),
            forall|i: int|
                idx <= i < n ==> #[trigger] states@[i] == if g[i] == s[i] {
                    LetterState::Correct
                } else {
                    LetterState::Absent
                },
            forall|c: char|
                #[trigger] tally(counts@, c) == if misplaced_before(s, g, c, idx as int)
                    < spare_copies(s, g, c) {
                    spare_copies(s, g, c) - misplaced_before(s, g, c, idx as int)
                } else {
                    0
                },
        decreases n - idx,
    {
        let c = guess_chars[idx];
        proof {
            lemma_exact_hits_bound(s, g, c, n as int);
        }
        if c != secret_chars[idx] {
            let key = c as u32;
            let ghost before = counts@;
            proof {
                assert(misplaced_before(s, g, c, idx + 1) == misplaced_before(s, g, c, idx as int) + 1);
            }
            match counts.get(&key) {
                Some(v) => {
                    let v = *v;
                    if v > 0 {
                        states.set(idx, LetterState::Present);
                        counts.insert(key, v - 1);
                    }
                },
                None => {},
            }
            proof {
                assert forall|d: char| #[trigger] tally(counts@, d) == if misplaced_before(
                    s,
                    g,
                    d,
                    idx + 1,
                ) < spare_copies(s, g, d) {
                    spare_copies(s, g, d) - misplaced_before(s, g, d, idx + 1)
                } else {
                    0
                } by {
                    lemma_code_point_injective(c, d);
                    assert(tally(before, d) == if misplaced_before(s, g, d, idx as int)
                        < spare_copies(s, g, d) {
                        spare_copies(s, g, d) - misplaced_before(s, g, d, idx as int)
                    } else {
                        0
                    });
                }
            }
            assert(states@[idx as int] == letter_state(s, g, idx as int)) by {
                assert(tally(before, c) == if misplaced_before(s, g, c, idx as int)
                    < spare_copies(s, g, c) {
                    spare_copies(s, g, c) - misplaced_before(s, g, c, idx as int)
                } else {
                    0
                });
            }
        } else {
            assert(forall|d: char| misplaced_before(s, g, d, idx + 1) == #[trigger] misplaced_before(s, g, d, idx as int));
        }
        idx = idx + 1;
    }

    let mut feedback: Vec<LetterFeedback> = Vec::new();
    let mut idx: usize = 0;
    while idx < n
        invariant
            guess_chars@ == g,
            n == g.len(),
            idx <= n,
            states@.len() == n,
            forall|i: int| 0 <= i < n ==> #[trigger] states@[i] == letter_state(s, g, i),
            feedback@.len() == idx,
            forall|i: int|
                0 <= i < idx ==> {
                    &&& (#[trigger] feedback@[i]).letter@ == seq![g[i]]
                    &&& feedback@[i].status == letter_state(s, g, i)
                },
        decreases n - idx,
    {
        let letter = char_string(guess_chars[idx]);
        feedback.push(LetterFeedback { letter, status: states[idx] });
        idx = idx + 1;
    }
    feedback
}

} // verus!
