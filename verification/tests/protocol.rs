use pillar_core::difficulty::{get_base_difficulty_from_depth, get_reward_from_depth_and_stampers, INITIAL_BLOCK_REWARD};
use pillar_core::N_TRANSMISSION_SIGNATURES;

#[test]
fn test_initial() {
    for i in 1..499 {
        assert!(get_base_difficulty_from_depth(i) == 4);
    }
}

#[test]
fn test_second() {
    for i in 500..999 {
        assert!(get_base_difficulty_from_depth(i) == 6)
    }
}

#[test]
fn test_reward_initial() {
    assert_eq!(get_reward_from_depth_and_stampers(1, N_TRANSMISSION_SIGNATURES), INITIAL_BLOCK_REWARD);
    assert_eq!(get_reward_from_depth_and_stampers(1, 0), 0);
    assert!(get_reward_from_depth_and_stampers(1, 1) < INITIAL_BLOCK_REWARD);
}
