//! The SM-2 variant scheduler: pure functions from an item's history and a
//! review outcome to the next interval, ease factor, review instant and
//! status.
//!
//! Both ease factors and intervals are fixed-point millionths: an ease
//! factor of 2.5 is `2_500_000`, an interval of one day is `1_000_000`.

use vstd::prelude::*;

verus! {

use crate::models::{Status, Timestamp};

/// Hard floor for the ease factor, system-wide: 1.3.
pub const EASE_FLOOR: u64 = 1_300_000;

/// Ease factor of a freshly added item: 2.5.
pub const EASE_START: u64 = 2_500_000;

/// One day of interval.
pub const DAY_MICRO: u64 = 1_000_000;

/// The interval after a correct review: one day on the first success, three
/// days on the second, then the prior interval times the prior ease factor,
/// exactly when the product lands on the fixed-point grid and truncated to
/// it otherwise, saturating at the largest representable interval. Here
/// the ease factor, a pure number, divides out its own scale.
pub open spec fn correct_interval(times_quizzed: int, interval: int, ease: int) -> int {
    if times_quizzed == 0 {
        1_000_000
    } else if times_quizzed == 1 {
        3_000_000
    } else if interval * ease / 1_000_000 > u64::MAX {
        u64::MAX as int
    } else {
        interval * ease / 1_000_000
    }
}

/// The ease factor after a correct review: `"easy"` adds 0.15 with no
/// ceiling (saturating only at the representation's end), `"hard"`
/// subtracts 0.15 floored at 1.3, and any other difficulty, `"good"`
/// included, leaves it unchanged.
pub open spec fn correct_ease(ease: int, difficulty: Seq<char>) -> int {
    if difficulty == "easy"@ {
        if ease + 150_000 > u64::MAX {
            u64::MAX as int
        } else {
            ease + 150_000
        }
    } else if difficulty == "hard"@ {
        if ease - 150_000 >= 1_300_000 {
            ease - 150_000
        } else {
            1_300_000
        }
    } else {
        ease
    }
}

/// The ease factor after an incorrect review: 0.2 down, floored at 1.3.
pub open spec fn incorrect_ease(ease: int) -> int {
    if ease - 200_000 >= 1_300_000 {
        ease - 200_000
    } else {
        1_300_000
    }
}

/// Apply the SM-2 variant to a correct answer. Returns the new interval and
/// ease factor.
pub fn review_correct(times_quizzed: u32, interval_micro: u64, ease_micro: u64, difficulty: &str)
    -> (r: (u64, u64))
    ensures
        r.0 == correct_interval(times_quizzed as int, interval_micro as int, ease_micro as int),
        r.1 == correct_ease(ease_micro as int, difficulty@),
{
    let new_interval: u64 = if times_quizzed == 0 {
        1_000_000
    } else if times_quizzed == 1 {
        3_000_000
    } else {
        let a: u128 = interval_micro as u128;
        let b: u128 = ease_micro as u128;
        proof {
            assert(a * b <= u128::MAX) by (nonlinear_arith)
                requires
                    a <= u64::MAX && b <= u64::MAX,
            ;
        }
        let p: u128 = a * b / 1_000_000;
        proof {
            assert(p == (interval_micro as int) * (ease_micro as int) / 1_000_000);
        }
        if p > u64::MAX as u128 {
            u64::MAX
        } else {
            p as u64
        }
    };
    let new_ease: u64 = if crate::text::str_eq(difficulty, "easy") {
        if ease_micro <= u64::MAX - 150_000 {
            ease_micro + 150_000
        } else {
            u64::MAX
        }
    } else if crate::text::str_eq(difficulty, "hard") {
        if ease_micro >= 1_450_000 {
            ease_micro - 150_000
        } else {
            1_300_000
        }
    } else {
        ease_micro
    };
    (new_interval, new_ease)
}

/// Apply the SM-2 variant to an incorrect answer: the interval resets to
/// one day and the ease factor drops by 0.2, floored at 1.3. Returns the
/// new interval and ease factor.
pub fn review_incorrect(ease_micro: u64) -> (r: (u64, u64))
    ensures
        r.0 == DAY_MICRO,
        r.1 == incorrect_ease(ease_micro as int),
{
    let new_ease: u64 = if ease_micro >= 1_500_000 {
        ease_micro - 200_000
    } else {
        1_300_000
    };
    (1_000_000, new_ease)
}

/// On the fixed-point grid the geometric step is the exact real product:
/// whenever the prior interval times the prior ease factor has no digits
/// below a millionth of a day, the returned interval, read in days, equals
/// the product of the two, read in days and as a pure ease number; scaled
/// to the fixed-point units, that is the equation below.
pub proof fn lemma_growth_exact(times_quizzed: int, interval: int, ease: int)
    requires
        times_quizzed >= 2,
        0 <= interval,
        0 <= ease,
        (interval * ease) % 1_000_000 == 0,
        interval * ease / 1_000_000 <= u64::MAX,
    ensures
        correct_interval(times_quizzed, interval, ease) * 1_000_000 == interval * ease,
{
    assert(correct_interval(times_quizzed, interval, ease) == interval * ease / 1_000_000);
    assert(interval * ease / 1_000_000 * 1_000_000 == interval * ease) by (nonlinear_arith)
        requires
            (interval * ease) % 1_000_000 == 0,
    ;
}

/// The first success schedules one day, whatever the prior interval and
/// ease factor were.
pub proof fn lemma_first_success(interval: int, ease: int)
    ensures
        correct_interval(0, interval, ease) == 1_000_000,
{
}

/// The second success schedules three days, whatever the prior interval
/// and ease factor were.
pub proof fn lemma_second_success(interval: int, ease: int)
    ensures
        correct_interval(1, interval, ease) == 3_000_000,
{
}

/// An incorrect review always drops the ease factor by exactly 0.2 down to
/// the 1.3 floor, and never below it: 1.3 stays, 1.4 floors, 2.5 lands on
/// 2.3.
pub proof fn lemma_incorrect_review(ease: int)
    requires
        ease >= 1_300_000,
    ensures
        incorrect_ease(ease) >= 1_300_000,
        ease >= 1_500_000 ==> incorrect_ease(ease) == ease - 200_000,
        ease < 1_500_000 ==> incorrect_ease(ease) == 1_300_000,
{
}

/// `"easy"` adds exactly 0.15 to the ease factor whenever the sum stays
/// representable, with no other ceiling.
pub proof fn lemma_difficulty_easy(ease: int)
    requires
        0 <= ease <= u64::MAX - 150_000,
    ensures
        correct_ease(ease, "easy"@) == ease + 150_000,
{
}

/// `"hard"` subtracts exactly 0.15, floored at 1.3.
pub proof fn lemma_difficulty_hard(ease: int)
    ensures
        correct_ease(ease, "hard"@) == (if ease - 150_000 >= 1_300_000 {
            ease - 150_000
        } else {
            1_300_000
        }),
{
    reveal_strlit("easy");
    reveal_strlit("hard");
    assert("easy"@[0] == 'e' && "hard"@[0] == 'h');
}

/// Any other difficulty, `"good"` included, leaves the ease factor as it
/// was.
pub proof fn lemma_difficulty_other(ease: int, difficulty: Seq<char>)
    requires
        difficulty != "easy"@,
        difficulty != "hard"@,
    ensures
        correct_ease(ease, difficulty) == ease,
{
}

/// The instant of the next review: `now` plus the interval truncated to
/// whole seconds (a day is 86 400 seconds), saturating at the end of year
/// 9999 so the result stays writable — but never before `now` itself, for
/// a `now` already past that year.
pub open spec fn next_review_spec(now: Timestamp, interval: int) -> Timestamp {
    let add = interval * 86400 / 1_000_000;
    if now.secs + add <= 253_402_300_799 {
        Timestamp { secs: (now.secs + add) as i64, nanos: now.nanos }
    } else if now.secs > 253_402_300_799 {
        now
    } else {
        Timestamp { secs: 253_402_300_799, nanos: now.nanos }
    }
}

/// Compute the next review instant from `now` and the interval.
pub fn next_review(now: &Timestamp, interval_micro: u64) -> (r: Timestamp)
    requires
        -9_000_000_000_000 <= now.secs <= 9_000_000_000_000,
    ensures
        r == next_review_spec(*now, interval_micro as int),
{
    let add128: u128 = (interval_micro as u128) * 86400 / 1_000_000;
    proof {
        assert(add128 == (interval_micro as int) * 86400 / 1_000_000);
        assert((interval_micro as int) * 86400 / 1_000_000 <= u64::MAX as int * 86400
            / 1_000_000) by (nonlinear_arith)
            requires
                interval_micro <= u64::MAX,
        ;
    }
    let add: i64 = add128 as i64;
    if now.secs <= 253_402_300_799 - add {
        Timestamp { secs: now.secs + add, nanos: now.nanos }
    } else if now.secs > 253_402_300_799 {
        *now
    } else {
        Timestamp { secs: 253_402_300_799, nanos: now.nanos }
    }
}

/// Status classification, first match wins: a never-scheduled item is
/// `new`; an interval of thirty days or more with at least 90 % accuracy
/// over at least five quizzes is `mastered` (undefined accuracy fails the
/// accuracy test); an interval of seven days or more is `reviewing`;
/// anything else is `learning`.
pub open spec fn status_of(interval: int, times_correct: int, times_quizzed: int) -> Status {
    if interval == 0 {
        Status::New
    } else if interval >= 30_000_000 && times_quizzed > 0 && 10 * times_correct >= 9
        * times_quizzed && times_quizzed >= 5 {
        Status::Mastered
    } else if interval >= 7_000_000 {
        Status::Reviewing
    } else {
        Status::Learning
    }
}

/// Compute the status an item's fields determine. This is the single
/// source of truth the storage layer uses to repair a stored status.
pub fn compute_status(interval_micro: u64, times_correct: u32, times_quizzed: u32) -> (r: Status)
    ensures
        r == status_of(interval_micro as int, times_correct as int, times_quizzed as int),
{
    if interval_micro == 0 {
        Status::New
    } else if interval_micro >= 30_000_000 && times_quizzed > 0 && 10 * (times_correct as u64) >= 9
        * (times_quizzed as u64) && times_quizzed >= 5 {
        Status::Mastered
    } else if interval_micro >= 7_000_000 {
        Status::Reviewing
    } else {
        Status::Learning
    }
}

} // verus!
