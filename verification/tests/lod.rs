use sim_core::lod::{agent_sprite_key, classify_chunk_mobility_activity, next_cooldown, vehicle_sprite_key, MobilityActivity, ACTIVITY_HYSTERESIS_TICKS};

#[test]
fn classifies_to_hot_when_two_or_more_subscribers() {
    assert_eq!(
        classify_chunk_mobility_activity(2, 0, MobilityActivity::Hot, 0),
        MobilityActivity::Hot
    );
    assert_eq!(
        classify_chunk_mobility_activity(5, 100, MobilityActivity::Asleep, 0),
        MobilityActivity::Hot
    );
}

#[test]
fn classifies_to_active_with_single_subscriber() {
    assert_eq!(
        classify_chunk_mobility_activity(1, 0, MobilityActivity::Active, 0),
        MobilityActivity::Active
    );
    assert_eq!(
        classify_chunk_mobility_activity(1, 100, MobilityActivity::Warm, 0),
        MobilityActivity::Active
    );
}

#[test]
fn classifies_to_warm_with_population_no_subscribers() {
    assert_eq!(
        classify_chunk_mobility_activity(0, 5, MobilityActivity::Warm, 0),
        MobilityActivity::Warm
    );
}

#[test]
fn classifies_to_asleep_when_empty() {
    assert_eq!(
        classify_chunk_mobility_activity(0, 0, MobilityActivity::Asleep, 0),
        MobilityActivity::Asleep
    );
}

#[test]
fn hysteresis_holds_previous_state_during_cooldown() {
    assert_eq!(
        classify_chunk_mobility_activity(0, 5, MobilityActivity::Hot, 10),
        MobilityActivity::Hot
    );
}

#[test]
fn hysteresis_allows_transition_after_cooldown_expires() {
    assert_eq!(
        classify_chunk_mobility_activity(0, 5, MobilityActivity::Hot, 0),
        MobilityActivity::Warm
    );
}

#[test]
fn cooldown_keeps_previous_even_when_target_differs() {
    assert_eq!(
        classify_chunk_mobility_activity(3, 0, MobilityActivity::Asleep, 1),
        MobilityActivity::Asleep
    );
    assert_eq!(
        classify_chunk_mobility_activity(0, 0, MobilityActivity::Warm, 255),
        MobilityActivity::Warm
    );
}

#[test]
fn cooldown_is_irrelevant_when_target_equals_previous() {
    assert_eq!(
        classify_chunk_mobility_activity(1, 7, MobilityActivity::Active, 12),
        MobilityActivity::Active
    );
}

#[test]
fn sprite_keys_take_the_stable_index_modulo_their_sprite_count() {
    assert_eq!(agent_sprite_key(35), "pedestrian:3");
    assert_eq!(agent_sprite_key(15), "pedestrian:15");
    assert_eq!(vehicle_sprite_key(35), "vehicle:3");
    assert_eq!(vehicle_sprite_key(8), "vehicle:0");
}

#[test]
fn a_change_restarts_the_cooldown_and_otherwise_it_counts_down() {
    assert_eq!(next_cooldown(true, 0), ACTIVITY_HYSTERESIS_TICKS);
    assert_eq!(next_cooldown(true, 5), ACTIVITY_HYSTERESIS_TICKS);
    assert_eq!(next_cooldown(false, 5), 4);
    assert_eq!(next_cooldown(false, 0), 0);
}
