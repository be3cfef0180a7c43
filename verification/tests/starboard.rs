use dotbot::starboard::{
    action_after_star_added, action_after_star_removed, distinct_star_count, is_starboard_channel,
    random_starboard_id, star_added, star_removed, StarStruct, StarboardAction, MIN_STARS,
    STARBOARD_CHANNEL_ID,
};

fn record(stars: Vec<i64>, starboard_id: Option<i64>) -> StarStruct {
    StarStruct { _id: 10, stars, starboard_id, author_id: 7 }
}

#[test]
fn first_star_makes_a_new_record() {
    let r = star_added(None, 10, 1, 7);
    assert_eq!(r._id, 10);
    assert_eq!(r.stars, vec![1]);
    assert_eq!(r.starboard_id, None);
    assert_eq!(r.author_id, 7);
}

#[test]
fn later_star_is_appended() {
    let r = star_added(Some(record(vec![1, 2], Some(99))), 10, 3, 8);
    assert_eq!(r.stars, vec![1, 2, 3]);
    assert_eq!(r.starboard_id, Some(99));
    assert_eq!(r.author_id, 8);
}

#[test]
fn removing_takes_all_stars_of_the_user() {
    let r = star_removed(&record(vec![1, 2, 1, 3], Some(5)), 10, 1);
    assert_eq!(r.stars, vec![2, 3]);
    assert_eq!(r.starboard_id, Some(5));
    assert_eq!(r.author_id, 7);
}

#[test]
fn remove_undoes_add_for_a_new_user() {
    let before = record(vec![4, 5], None);
    let added = star_added(Some(before.clone()), 10, 6, 7);
    let removed = star_removed(&added, 10, 6);
    assert_eq!(removed.stars, before.stars);
}

#[test]
fn distinct_stars_are_counted_once() {
    assert_eq!(distinct_star_count(&vec![]), 0);
    assert_eq!(distinct_star_count(&vec![1, 2, 2, 3, 1]), 3);
}

#[test]
fn third_distinct_star_posts() {
    assert_eq!(MIN_STARS, 3);
    assert_eq!(action_after_star_added(&record(vec![1, 2, 3], None)), StarboardAction::Post);
    assert_eq!(action_after_star_added(&record(vec![1, 2, 2], None)), StarboardAction::Ignore);
    assert_eq!(action_after_star_added(&record(vec![1, 2, 3], Some(44))), StarboardAction::Edit(44));
    assert_eq!(action_after_star_added(&record(vec![1, 2, 3, 4], Some(44))), StarboardAction::Edit(44));
}

#[test]
fn removal_edits_only_posted_messages() {
    assert_eq!(action_after_star_removed(&None), StarboardAction::Ignore);
    assert_eq!(action_after_star_removed(&Some(record(vec![1], None))), StarboardAction::Ignore);
    assert_eq!(action_after_star_removed(&Some(record(vec![1], Some(8)))), StarboardAction::Edit(8));
}

#[test]
fn starboard_channel_is_recognised() {
    assert!(is_starboard_channel(STARBOARD_CHANNEL_ID));
    assert!(is_starboard_channel(1162423699455090748));
    assert!(!is_starboard_channel(1));
}

#[test]
fn random_star_comes_from_the_list() {
    assert_eq!(random_starboard_id(&vec![]), None);
    let ids = vec![3, 9, 27];
    for _ in 0..20 {
        let x = random_starboard_id(&ids).unwrap();
        assert!(ids.contains(&x));
    }
}
