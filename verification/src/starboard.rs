//! The starboard's records: who starred which message, and what the bot does
//! on the starboard channel when a star comes or goes.

use vstd::prelude::*;
use rand::seq::SliceRandom;

verus! {

/// Distinct stars a message needs to reach the starboard.
pub const MIN_STARS: usize = 3;

/// The channel the starboard posts in.
pub const STARBOARD_CHANNEL_ID: u64 = 1162423699455090748;

/// What the starboard keeps about one starred message.
#[derive(Debug, Clone)]
pub struct StarStruct {
    /// The starred message.
    pub _id: i64,
    /// The users who starred it, one entry per star given.
    pub stars: Vec<i64>,
    /// The bot's message on the starboard channel, once there is one.
    pub starboard_id: Option<i64>,
    /// The author of the starred message.
    pub author_id: i64,
}

/// The record after `user_id` stars message `id` by `author_id`, given the
/// stored record of that message, if there is one.  A new record holds the
/// one star; a stored one gets the star appended and keeps its starboard
/// message.
pub fn star_added(existing: Option<StarStruct>, id: i64, user_id: i64, author_id: i64) -> (r: StarStruct)
    ensures
        r._id == id,
        r.author_id == author_id,
        match existing {
            None => r.stars@ == seq![user_id] && r.starboard_id is None,
            Some(e) => r.stars@ == e.stars@.push(user_id) && r.starboard_id == e.starboard_id,
        },
{
    match existing {
        None => {
            let mut stars = Vec::new();
            stars.push(user_id);
            StarStruct { _id: id, stars, starboard_id: None, author_id }
        },
        Some(e) => {
            let mut stars = e.stars;
            stars.push(user_id);
            StarStruct { _id: id, stars, starboard_id: e.starboard_id, author_id }
        },
    }
}

/// The stars of `s` other than those of `user_id`.
pub open spec fn without_user(s: Seq<i64>, user_id: i64) -> Seq<i64> {
    s.filter(|x: i64| x != user_id)
}

/// The record of message `id` after `user_id` takes back their stars: every
/// star of that user goes, the rest of the record stays.
pub fn star_removed(existing: &StarStruct, id: i64, user_id: i64) -> (r: StarStruct)
    ensures
        r._id == id,
        r.stars@ == without_user(existing.stars@, user_id),
        r.starboard_id == existing.starboard_id,
        r.author_id == existing.author_id,
{
    let mut stars: Vec<i64> = Vec::new();
    let mut i: usize = 0;
    while i < existing.stars.len()
        invariant
            i <= existing.stars.len(),
            stars@ == without_user(existing.stars@.take(i as int), user_id),
        decreases existing.stars.len() - i,
    {
        proof {
            reveal(Seq::filter);
            assert(existing.stars@.take(i + 1).drop_last() =~= existing.stars@.take(i as int));
        }
        if existing.stars[i] != user_id {
            stars.push(existing.stars[i]);
        }
        i = i + 1;
    }
    assert(existing.stars@.take(existing.stars.len() as int) =~= existing.stars@);
    StarStruct { _id: id, stars, starboard_id: existing.starboard_id, author_id: existing.author_id }
}

/// Number of distinct users among `stars`.
pub open spec fn distinct_stars(stars: Seq<i64>) -> nat {
    stars.to_set().len()
}

/// Number of distinct users who starred a message.
pub fn distinct_star_count(stars: &Vec<i64>) -> (n: usize)
    ensures
        n == distinct_stars(stars@),
{
    let mut seen: Vec<i64> = Vec::new();
    let mut i: usize = 0;
    while i < stars.len()
        invariant
            i <= stars.len(),
            seen@.no_duplicates(),
            seen@.to_set() == stars@.take(i as int).to_set(),
            seen.len() <= i,
        decreases stars.len() - i,
    {
        let x = stars[i];
        let mut j: usize = 0;
        let mut found = false;
        while j < seen.len()
            invariant
                j <= seen.len(),
                found <==> exists|k: int| 0 <= k < j && seen@[k] == x,
            decreases seen.len() - j,
        {
            if seen[j] == x {
                found = true;
            }
            j = j + 1;
        }
        proof {
            assert(stars@.take(i + 1) =~= stars@.take(i as int) + seq![x]);
            Seq::lemma_to_set_insert_commutes(stars@.take(i as int), x);
        }
        if !found {
            let ghost old_seen = seen@;
            seen.push(x);
            proof {
                assert(seen@ =~= old_seen + seq![x]);
                Seq::lemma_to_set_insert_commutes(old_seen, x);
                assert forall|a: int, b: int| 0 <= a < seen.len() && 0 <= b < seen.len() && a != b
                    implies seen@[a] != seen@[b] by {
                    if a < old_seen.len() && b < old_seen.len() {
                    } else if a == old_seen.len() {
                        assert(seen@[b] == old_seen[b]);
                    } else {
                        assert(seen@[a] == old_seen[a]);
                    }
                }
            }
        } else {
            proof {
                let k = choose|k: int| 0 <= k < seen.len() && seen@[k] == x;
                assert(seen@.to_set().contains(x));
                assert(seen@.to_set().insert(x) =~= seen@.to_set());
            }
        }
        i = i + 1;
    }
    proof {
        assert(stars@.take(stars.len() as int) =~= stars@);
        seen@.unique_seq_to_set();
    }
    seen.len()
}

/// What the bot does on the starboard channel.
#[derive(Debug, PartialEq, Eq, Clone, Copy)]
pub enum StarboardAction {
    /// Post the message on the starboard.
    Post,
    /// Update the star count on the given starboard message.
    Edit(i64),
    /// Leave the starboard as it is.
    Ignore,
}

/// What follows a new star: a message that has just reached `MIN_STARS`
/// distinct stars and is not on the starboard yet is posted; one with at
/// least `MIN_STARS` that is there gets its count updated; anything else is
/// left alone.
pub fn action_after_star_added(record: &StarStruct) -> (a: StarboardAction)
    requires
        distinct_stars(record.stars@) > MIN_STARS ==> record.starboard_id is Some,
    ensures
        distinct_stars(record.stars@) == MIN_STARS && record.starboard_id is None ==> a
            == StarboardAction::Post,
        distinct_stars(record.stars@) >= MIN_STARS && record.starboard_id is Some ==> a
            == StarboardAction::Edit(record.starboard_id->0),
        distinct_stars(record.stars@) < MIN_STARS ==> a == StarboardAction::Ignore,
{
    let n = distinct_star_count(&record.stars);
    if n < MIN_STARS {
        StarboardAction::Ignore
    } else {
        match record.starboard_id {
            Some(m) => StarboardAction::Edit(m),
            None => StarboardAction::Post,
        }
    }
}

/// What follows a withdrawn star: a message that is on the starboard gets
/// its count updated; anything else is left alone.
pub fn action_after_star_removed(record: &Option<StarStruct>) -> (a: StarboardAction)
    ensures
        match record {
            Some(r) => match r.starboard_id {
                Some(m) => a == StarboardAction::Edit(m),
                None => a == StarboardAction::Ignore,
            },
            None => a == StarboardAction::Ignore,
        },
{
    match record {
        Some(r) => match r.starboard_id {
            Some(m) => StarboardAction::Edit(m),
            None => StarboardAction::Ignore,
        },
        None => StarboardAction::Ignore,
    }
}

/// Whether a reaction was made in the starboard channel itself (such
/// reactions do not count as stars).
pub fn is_starboard_channel(channel_id: u64) -> (b: bool)
    ensures
        b == (channel_id == STARBOARD_CHANNEL_ID),
{
    channel_id == STARBOARD_CHANNEL_ID
}

} // verus!

verus! {

/// `rand`'s `SliceRandom::choose` with the thread's generator: the contract
/// claims only that the result is one of the ids, and `None` exactly when
/// there are none; which id comes back is left to chance and not stated.
#[verifier::external_body]
fn choose_id(ids: &Vec<i64>) -> (r: Option<i64>)
    ensures
        r is None <==> ids.len() == 0,
        r matches Some(x) ==> ids@.contains(x),
{
    ids.choose(&mut rand::thread_rng()).map(|x| *x)
}

/// A starboard message picked at random among `ids` (the starboard messages
/// of all starred messages that have one); `None` when there are none.
pub fn random_starboard_id(ids: &Vec<i64>) -> (r: Option<i64>)
    ensures
        r is None <==> ids.len() == 0,
        r matches Some(x) ==> ids@.contains(x),
{
    choose_id(ids)
}

} // verus!

verus! {

/// Taking a star back undoes giving it, for a user who had not starred the
/// message before.
pub proof fn law_remove_undoes_add(stars: Seq<i64>, user_id: i64)
    requires
        !stars.contains(user_id),
    ensures
        without_user(stars.push(user_id), user_id) == stars,
{
    reveal(Seq::filter);
    assert(stars.push(user_id).drop_last() =~= stars);
    lemma_without_absent(stars, user_id);
}

proof fn lemma_without_absent(stars: Seq<i64>, user_id: i64)
    requires
        !stars.contains(user_id),
    ensures
        without_user(stars, user_id) == stars,
    decreases stars.len(),
{
    reveal(Seq::filter);
    if stars.len() > 0 {
        assert(!stars.drop_last().contains(user_id)) by {
            if stars.drop_last().contains(user_id) {
                let k = choose|k: int| 0 <= k < stars.drop_last().len() && stars.drop_last()[k] == user_id;
                assert(stars[k] == user_id);
            }
        }
        lemma_without_absent(stars.drop_last(), user_id);
        assert(stars.last() != user_id) by {
            if stars.last() == user_id {
                assert(stars[stars.len() - 1] == user_id);
            }
        }
        assert(stars.drop_last().push(stars.last()) =~= stars);
    }
}

/// After a user takes their star back, none of their stars is left.
pub proof fn law_removed_user_has_no_star(stars: Seq<i64>, user_id: i64)
    ensures
        !without_user(stars, user_id).contains(user_id),
{
    let f = |x: i64| x != user_id;
    if without_user(stars, user_id).contains(user_id) {
        let k = choose|k: int| 0 <= k < without_user(stars, user_id).len() && without_user(stars, user_id)[k] == user_id;
        stars.lemma_filter_pred(f, k);
    }
}

/// A user who stars a message again is not counted twice.
pub proof fn law_repeat_star_not_counted(stars: Seq<i64>, user_id: i64)
    requires
        stars.contains(user_id),
    ensures
        distinct_stars(stars.push(user_id)) == distinct_stars(stars),
{
    Seq::lemma_to_set_insert_commutes(stars, user_id);
    assert(stars.push(user_id) =~= stars + seq![user_id]);
    assert(stars.to_set().contains(user_id));
    assert(stars.to_set().insert(user_id) =~= stars.to_set());
}

/// A new star raises the count of distinct users by at most one.
pub proof fn law_star_adds_at_most_one(stars: Seq<i64>, user_id: i64)
    ensures
        distinct_stars(stars) <= distinct_stars(stars.push(user_id)) <= distinct_stars(stars) + 1,
{
    Seq::lemma_to_set_insert_commutes(stars, user_id);
    assert(stars.push(user_id) =~= stars + seq![user_id]);
    vstd::seq_lib::seq_to_set_is_finite(stars);
    if stars.to_set().contains(user_id) {
        assert(stars.to_set().insert(user_id) =~= stars.to_set());
    }
}

} // verus!
