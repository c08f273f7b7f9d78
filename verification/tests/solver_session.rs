use wordl::oracle::score;
use wordl::solver::SolverError;
use wordl::solver::WordlSolver;

fn w(s: &str) -> Vec<u8> {
    s.as_bytes().to_vec()
}

fn vocab(words: &[&str]) -> Vec<Vec<u8>> {
    words.iter().map(|s| w(s)).collect()
}

fn candidates_of(solver: &WordlSolver, words: &[&str]) -> Vec<String> {
    words
        .iter()
        .filter(|s| solver.is_candidate_word(&w(s)))
        .map(|s| s.to_string())
        .collect()
}

const FIXTURE: &[&str] = &[
    "crane", "brake", "crate", "pride", "grace", "slate", "mouse", "phase",
];

#[test]
fn opening_round_narrows_fixture() {
    // Secret "crane", first guess "slate": 'a' and 'e' are pinned at their
    // positions, 's', 'l', 't' are ruled out everywhere. Every surviving
    // word has 'e' at the last position and an 'a', and none holds 's',
    // 'l' or 't'.
    let targets = vocab(FIXTURE);
    let mut solver = WordlSolver::new(5, targets.clone(), targets);
    let guess = w("slate");
    let fb = score(&guess, &w("crane"));
    solver.update(&guess, fb);

    let cands = candidates_of(&solver, FIXTURE);
    assert_eq!(cands, vec!["crane", "brake", "grace"]);
    for word in FIXTURE {
        let keeps = solver.is_candidate_word(&w(word));
        let has_sl_t = word.contains('s') || word.contains('l') || word.contains('t');
        let e_last = word.as_bytes()[4] == b'e';
        let has_a = word.contains('a');
        assert_eq!(keeps, !has_sl_t && e_last && has_a && word.as_bytes()[2] == b'a');
    }
}

#[test]
fn narrowing_is_monotonic() {
    // Candidate pools only shrink while the feedback comes from one fixed
    // secret, round after round.
    let targets = vocab(FIXTURE);
    let mut solver = WordlSolver::new(5, targets.clone(), targets);
    let secret = w("grace");
    let mut before = candidates_of(&solver, FIXTURE);
    for _ in 0..4 {
        let guess = solver.guess().expect("pool must stay nonempty");
        let fb = score(&guess, &secret);
        solver.update(&guess, fb);
        let after = candidates_of(&solver, FIXTURE);
        for word in &after {
            assert!(before.contains(word));
        }
        if guess == secret {
            break;
        }
        before = after;
    }
}

#[test]
fn every_fixture_secret_is_solved() {
    // Convergence over the fixture vocabulary: every word, used as the
    // hidden secret, is found within ten rounds.
    let targets = vocab(FIXTURE);
    let mut solver = WordlSolver::new(5, targets.clone(), targets.clone());
    for secret in &targets {
        solver.reset();
        let mut solved = false;
        for _ in 0..10 {
            let guess = solver.guess().expect("pool must stay nonempty");
            if guess == *secret {
                solved = true;
                break;
            }
            let fb = score(&guess, secret);
            solver.update(&guess, fb);
        }
        assert!(solved, "secret not found within ten rounds");
    }
}

#[test]
fn reset_restores_fresh_behavior() {
    // A reset solver admits the same words and proposes the same guess as a
    // freshly constructed one.
    let targets = vocab(FIXTURE);
    let fresh = WordlSolver::new(5, targets.clone(), targets.clone());
    let mut used = WordlSolver::new(5, targets.clone(), targets);
    let guess = w("slate");
    let fb = score(&guess, &w("crane"));
    used.update(&guess, fb);
    used.reset();

    for word in FIXTURE {
        assert_eq!(
            used.is_candidate_word(&w(word)),
            fresh.is_candidate_word(&w(word))
        );
    }
    assert_eq!(used.guess(), fresh.guess());
}

#[test]
fn pinned_position_survives_later_feedback() {
    // Secret "crane": the opening round pins position 2 to 'a' and
    // position 4 to 'e'. A later round whose letters miss those positions
    // leaves the pins in place.
    let targets = vocab(FIXTURE);
    let mut solver = WordlSolver::new(5, targets.clone(), targets);
    let secret = w("crane");
    let first = w("slate");
    let fb = score(&first, &secret);
    solver.update(&first, fb);
    for c in 0..26usize {
        assert_eq!(solver.letters[2][c], c == 0);
        assert_eq!(solver.letters[4][c], c == 4);
    }
    let second = w("brake");
    let fb = score(&second, &secret);
    solver.update(&second, fb);
    for c in 0..26usize {
        assert_eq!(solver.letters[2][c], c == 0);
        assert_eq!(solver.letters[4][c], c == 4);
    }
}

#[test]
fn contradictory_feedback_empties_the_pool() {
    // Feedback drawn from a secret outside the vocabulary can rule out
    // every candidate; the next proposal reports the unsolvable state.
    let targets = vocab(&["crane"]);
    let mut solver = WordlSolver::new(5, targets.clone(), targets);
    let guess = w("crane");
    let fb = score(&guess, &w("probe"));
    solver.update(&guess, fb);
    assert_eq!(solver.guess(), Err(SolverError::Unsolvable));
}

#[test]
fn empty_vocabulary_is_unsolvable() {
    let solver = WordlSolver::new(5, Vec::new(), Vec::new());
    assert_eq!(solver.guess(), Err(SolverError::Unsolvable));
}

#[test]
fn single_candidate_is_returned_as_solved() {
    let targets = vocab(&["crane", "slate"]);
    let mut solver = WordlSolver::new(5, targets.clone(), targets);
    let guess = w("slate");
    let fb = score(&guess, &w("crane"));
    solver.update(&guess, fb);
    assert_eq!(solver.guess(), Ok(w("crane")));
}

#[test]
fn scoring_prefers_the_evenly_splitting_word() {
    // Pool of three: "ab" scores 4 (each position splits 1 against 2, and
    // both of its letters cover two of three words), "aa" and "bb" score 3.
    let targets = vocab(&["aa", "ab", "bb"]);
    let solver = WordlSolver::new(2, targets.clone(), targets);
    assert_eq!(solver.guess(), Ok(w("ab")));
}

#[test]
fn ties_break_toward_vocabulary_order() {
    // "ab" and "ba" score identically; the earlier vocabulary word wins.
    let targets = vocab(&["ab", "ba"]);
    let solver = WordlSolver::new(2, targets.clone(), targets);
    assert_eq!(solver.guess(), Ok(w("ab")));
}
