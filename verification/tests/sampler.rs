use textbook_rsa::gcd;
use textbook_rsa::keys::RsaError;
use textbook_rsa::sampler::{
    draw_bounds, judge_draw, random_coprime, select_exponent, usable_exponent, SearchStep,
    DRAW_LIMIT,
};

#[test]
fn a_candidate_is_kept_exactly_when_it_is_usable() {
    assert_eq!(usable_exponent(17, 3120), Some(17));
    assert_eq!(usable_exponent(3119, 3120), Some(3119));
    assert_eq!(usable_exponent(1, 3120), None);
    assert_eq!(usable_exponent(0, 3120), None);
    assert_eq!(usable_exponent(6, 3120), None);
    assert_eq!(usable_exponent(3120, 3120), None);
    assert_eq!(usable_exponent(3121, 3120), None);
    assert_eq!(usable_exponent(2, 3), Some(2));
    assert_eq!(usable_exponent(1, 2), None);
    assert_eq!(usable_exponent(1, 1), None);
    assert_eq!(usable_exponent(0, 0), None);
}

#[test]
fn no_exponent_is_drawn_for_a_totient_of_two_or_less() {
    assert_eq!(random_coprime(0), Err(RsaError::NonTerminatingSearch));
    assert_eq!(random_coprime(1), Err(RsaError::NonTerminatingSearch));
    assert_eq!(random_coprime(2), Err(RsaError::NonTerminatingSearch));
}

#[test]
fn the_only_usable_exponent_is_found() {
    assert_eq!(random_coprime(3), Ok(2));
    assert_eq!(random_coprime(4), Ok(3));
    assert_eq!(random_coprime(6), Ok(5));
}

#[test]
fn a_drawn_exponent_is_coprime_and_in_range() {
    for _ in 0..200 {
        let e = random_coprime(3120).unwrap();
        assert!(1 < e && e < 3120);
        assert_eq!(gcd(e, 3120), 1);
        assert_eq!(usable_exponent(e, 3120), Some(e));
    }
}

#[test]
fn draws_vary() {
    let first = random_coprime(4294967291).unwrap();
    let mut differs = false;
    for _ in 0..64 {
        if random_coprime(4294967291).unwrap() != first {
            differs = true;
        }
    }
    assert!(differs);
}

#[test]
fn the_draw_limit_is_a_million() {
    assert_eq!(DRAW_LIMIT, 1_000_000);
}

#[test]
fn a_usable_draw_is_accepted_whenever_it_comes() {
    assert_eq!(judge_draw(1, 17, 3120), SearchStep::Accept(17));
    assert_eq!(judge_draw(999_999, 17, 3120), SearchStep::Accept(17));
    assert_eq!(judge_draw(DRAW_LIMIT, 17, 3120), SearchStep::Accept(17));
    assert_eq!(judge_draw(1, 2, 3), SearchStep::Accept(2));
}

#[test]
fn an_unusable_draw_is_followed_by_another_below_the_limit() {
    assert_eq!(judge_draw(1, 1, 3120), SearchStep::Retry);
    assert_eq!(judge_draw(1, 6, 3120), SearchStep::Retry);
    assert_eq!(judge_draw(500, 3120, 3120), SearchStep::Retry);
    assert_eq!(judge_draw(DRAW_LIMIT - 1, 1, 3120), SearchStep::Retry);
    assert_eq!(judge_draw(0, 1, 3120), SearchStep::Retry);
}

#[test]
fn the_search_is_given_up_at_the_limit() {
    assert_eq!(judge_draw(DRAW_LIMIT, 1, 3120), SearchStep::GiveUp);
    assert_eq!(judge_draw(DRAW_LIMIT, 6, 3120), SearchStep::GiveUp);
    assert_eq!(judge_draw(DRAW_LIMIT + 1, 1, 3120), SearchStep::GiveUp);
    assert_eq!(judge_draw(u32::MAX, 1, 2), SearchStep::GiveUp);
}

#[test]
fn the_first_usable_draw_is_selected() {
    assert_eq!(select_exponent(&vec![1, 6, 10, 17, 19], 3120), Ok(17));
    assert_eq!(select_exponent(&vec![19, 17], 3120), Ok(19));
    assert_eq!(select_exponent(&vec![1, 1, 1, 2], 3), Ok(2));
    assert_eq!(select_exponent(&vec![3119], 3120), Ok(3119));
}

#[test]
fn draws_without_a_usable_one_fail() {
    assert_eq!(select_exponent(&vec![], 3120), Err(RsaError::NonTerminatingSearch));
    assert_eq!(select_exponent(&vec![1, 6, 10, 3120, 0], 3120), Err(RsaError::NonTerminatingSearch));
    assert_eq!(select_exponent(&vec![1, 1, 1], 2), Err(RsaError::NonTerminatingSearch));
    assert_eq!(select_exponent(&vec![1, 2, 3], 1), Err(RsaError::NonTerminatingSearch));
    assert_eq!(select_exponent(&vec![1, 2, 3], 0), Err(RsaError::NonTerminatingSearch));
}

#[test]
fn a_usable_draw_beyond_the_limit_is_never_reached() {
    let limit = DRAW_LIMIT as usize;
    let mut draws = vec![1u32; limit];
    draws.push(17);
    assert_eq!(select_exponent(&draws, 3120), Err(RsaError::NonTerminatingSearch));
    draws[limit - 1] = 19;
    assert_eq!(select_exponent(&draws, 3120), Ok(19));
}

#[test]
fn draws_are_asked_from_one_up_to_the_totient() {
    assert_eq!(draw_bounds(3), Some((1, 3)));
    assert_eq!(draw_bounds(4), Some((1, 4)));
    assert_eq!(draw_bounds(3120), Some((1, 3120)));
    assert_eq!(draw_bounds(u32::MAX), Some((1, u32::MAX)));
}

#[test]
fn no_draw_is_asked_for_a_totient_of_two_or_less() {
    assert_eq!(draw_bounds(0), None);
    assert_eq!(draw_bounds(1), None);
    assert_eq!(draw_bounds(2), None);
}

#[test]
fn every_value_of_the_range_can_be_drawn_and_none_outside() {
    let mut seen = [false; 7];
    for _ in 0..2000 {
        let e = random_coprime(7).unwrap();
        assert!(2 <= e && e <= 6);
        seen[e as usize] = true;
    }
    assert_eq!(seen, [false, false, true, true, true, true, true]);
}
