use wordl::letters::counter;
use wordl::oracle::score;
use wordl::oracle::CharResult;
use wordl::scoring::inv_dist;

fn w(s: &str) -> Vec<u8> {
    s.as_bytes().to_vec()
}

#[test]
fn duplicate_rule_abca_vs_aabb() {
    // Position 0 matches exactly and consumes one 'a'; the trailing 'a'
    // draws on the second 'a' of the secret; 'c' is absent.
    let r = score(&w("abca"), &w("aabb"));
    assert_eq!(
        r,
        vec![
            CharResult::Green,
            CharResult::Yellow,
            CharResult::Grey,
            CharResult::Yellow,
        ]
    );
}

#[test]
fn duplicate_rule_speed_vs_erase() {
    // No exact matches; both 'e's of the guess draw on the two 'e's of the
    // secret, 's' is present elsewhere, 'p' and 'd' are absent.
    let r = score(&w("speed"), &w("erase"));
    assert_eq!(
        r,
        vec![
            CharResult::Yellow,
            CharResult::Grey,
            CharResult::Yellow,
            CharResult::Yellow,
            CharResult::Grey,
        ]
    );
}

#[test]
fn exact_guess_is_all_green() {
    let r = score(&w("crane"), &w("crane"));
    assert_eq!(r, vec![CharResult::Green; 5]);
}

#[test]
fn disjoint_guess_is_all_grey() {
    let r = score(&w("fight"), &w("mouse"));
    assert_eq!(
        r,
        vec![
            CharResult::Grey,
            CharResult::Grey,
            CharResult::Grey,
            CharResult::Grey,
            CharResult::Grey,
        ]
    );
}

#[test]
fn exact_match_consumes_budget_first() {
    // Secret holds one 'e'; the guess holds three. Only the exactly
    // matching position scores, the earlier 'e's are marked absent.
    let r = score(&w("geese"), &w("store"));
    assert_eq!(
        r,
        vec![
            CharResult::Grey,
            CharResult::Grey,
            CharResult::Grey,
            CharResult::Yellow,
            CharResult::Green,
        ]
    );
}

#[test]
fn slate_vs_crane_two_pass() {
    // The concrete opening round: 'a' and 'e' match exactly, the rest of
    // the guess is absent from the secret.
    let r = score(&w("slate"), &w("crane"));
    assert_eq!(
        r,
        vec![
            CharResult::Grey,
            CharResult::Grey,
            CharResult::Green,
            CharResult::Grey,
            CharResult::Green,
        ]
    );
}

#[test]
fn counter_counts_each_letter() {
    let h = counter(&w("aabz"));
    assert_eq!(h.len(), 26);
    assert_eq!(h[0], 2);
    assert_eq!(h[1], 1);
    assert_eq!(h[25], 1);
    assert_eq!(h[2], 0);
    assert_eq!(h[13], 0);
}

#[test]
fn inv_dist_peaks_at_half() {
    assert_eq!(inv_dist(0, 10), 0);
    assert_eq!(inv_dist(3, 10), 3);
    assert_eq!(inv_dist(5, 10), 5);
    assert_eq!(inv_dist(7, 10), 3);
    assert_eq!(inv_dist(10, 10), 0);
    assert_eq!(inv_dist(2, 5), 2);
    assert_eq!(inv_dist(3, 5), 2);
    assert_eq!(inv_dist(0, 0), 0);
}
