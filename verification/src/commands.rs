//! The command logic over an in-memory collection: recording reviews,
//! adding an item, listing and statistics. The surrounding I/O layer loads
//! the collection, calls these, and saves it back.

use vstd::prelude::*;

verus! {

use crate::models::{AppError, LearningItem, ReviewInput, SrsDatabase, Status, Timestamp, ts_le};
use crate::sm2::{correct_interval, correct_ease, incorrect_ease, next_review_spec, status_of};
use crate::text::is_prefix_of;

/// What one recorded review reports back: the item's full ID, the echoed
/// result, and the new scheduling state.
pub struct ReviewOutcome {
    pub id: String,
    pub result: String,
    pub next_review: Timestamp,
    pub interval_micro: u64,
    pub status: Status,
}

/// How many item IDs start with `p`, among the first `upto` items.
pub open spec fn match_count(items: Seq<LearningItem>, p: Seq<char>, upto: int) -> int
    decreases upto,
{
    if upto <= 0 {
        0
    } else {
        match_count(items, p, upto - 1) + if is_prefix_of(p, items[upto - 1].id@) {
            1int
        } else {
            0int
        }
    }
}

/// The first index at or after `from` whose item ID starts with `p`, or -1.
pub open spec fn first_match(items: Seq<LearningItem>, p: Seq<char>, from: int) -> int
    decreases items.len() - from,
{
    if from < 0 || from >= items.len() {
        -1
    } else if is_prefix_of(p, items[from].id@) {
        from
    } else {
        first_match(items, p, from + 1)
    }
}

/// Find the unique item whose ID starts with `prefix` and return its
/// index: no match is `NotFound`, more than one is `AmbiguousId`, both
/// naming the prefix.
pub fn find_item_by_prefix(items: &Vec<LearningItem>, prefix: &str) -> (r: Result<usize, AppError>)
    ensures
        match_count(items@, prefix@, items@.len() as int) >= 0,
        match_count(items@, prefix@, items@.len() as int) == 0 ==> (r matches Err(e) && e matches
            AppError::NotFound(p) && p@ == prefix@),
        match_count(items@, prefix@, items@.len() as int) == 1 ==> (r matches Ok(i) && i as int
            == first_match(items@, prefix@, 0) && i < items@.len() && is_prefix_of(
            prefix@,
            items@[i as int].id@,
        )),
        match_count(items@, prefix@, items@.len() as int) >= 2 ==> (r matches Err(e) && e matches
            AppError::AmbiguousId(p) && p@ == prefix@),
{
    let n = items.len();
    let mut i: usize = 0;
    let mut cnt: usize = 0;
    let mut first: usize = 0;
    while i < n
        invariant
            n == items@.len(),
            0 <= i <= n,
            cnt == match_count(items@, prefix@, i as int),
            cnt <= i,
            cnt >= 1 ==> first as int == first_match(items@, prefix@, 0) && first < i
                && is_prefix_of(prefix@, items@[first as int].id@),
            cnt == 0 ==> forall|j: int| 0 <= j < i ==> !is_prefix_of(
                prefix@,
                (#[trigger] items@[j]).id@,
            ),
        decreases n - i,
    {
        if crate::text::str_starts_with(items[i].id.as_str(), prefix) {
            if cnt == 0 {
                first = i;
                proof {
                    lemma_first_match_here(items@, prefix@, i as int);
                }
            }
            cnt = cnt + 1;
        }
        i = i + 1;
    }
    if cnt == 0 {
        Err(AppError::NotFound(String::from_str(prefix)))
    } else if cnt == 1 {
        Ok(first)
    } else {
        Err(AppError::AmbiguousId(String::from_str(prefix)))
    }
}

/// If nothing before `i` matches and `i` does, the first match is `i`.
proof fn lemma_first_match_here(items: Seq<LearningItem>, p: Seq<char>, i: int)
    requires
        0 <= i < items.len(),
        is_prefix_of(p, items[i].id@),
        forall|j: int| 0 <= j < i ==> !is_prefix_of(p, (#[trigger] items[j]).id@),
    ensures
        first_match(items, p, 0) == i,
{
    lemma_first_match_from(items, p, 0, i);
}

proof fn lemma_first_match_from(items: Seq<LearningItem>, p: Seq<char>, from: int, i: int)
    requires
        0 <= from <= i < items.len(),
        is_prefix_of(p, items[i].id@),
        forall|j: int| from <= j < i ==> !is_prefix_of(p, (#[trigger] items[j]).id@),
    ensures
        first_match(items, p, from) == i,
    decreases i - from,
{
    if from < i {
        lemma_first_match_from(items, p, from + 1, i);
    }
}

/// The difficulty a review input carries, with `"good"` standing in for an
/// absent one.
pub open spec fn difficulty_of(inp: ReviewInput) -> Seq<char> {
    match inp.difficulty {
        Some(d) => d@,
        None => "good"@,
    }
}

/// An item after one recorded review: the scheduler's new interval and
/// ease factor, the counters stepped (saturating at their width), the quiz
/// instant remembered, the next review planned from `now`, and the status
/// recomputed.
pub open spec fn reviewed_item(
    it: LearningItem,
    correct: bool,
    difficulty: Seq<char>,
    now: Timestamp,
) -> LearningItem {
    let ni = if correct {
        correct_interval(it.times_quizzed as int, it.interval_micro as int, it.ease_micro as int)
    } else {
        1_000_000int
    };
    let ne = if correct {
        correct_ease(it.ease_micro as int, difficulty)
    } else {
        incorrect_ease(it.ease_micro as int)
    };
    let tq: int = if it.times_quizzed == u32::MAX {
        u32::MAX as int
    } else {
        it.times_quizzed + 1
    };
    let tc: int = if correct && it.times_correct < u32::MAX {
        it.times_correct + 1
    } else {
        it.times_correct as int
    };
    LearningItem {
        interval_micro: ni as u64,
        ease_micro: ne as u64,
        times_quizzed: tq as u32,
        times_correct: tc as u32,
        last_quizzed: Some(now),
        next_review: next_review_spec(now, ni),
        status: status_of(ni, tc, tq),
        ..it
    }
}

/// Record one review on one item in place.
pub fn apply_review(it: &mut LearningItem, correct: bool, difficulty: &str, now: Timestamp)
    requires
        -9_000_000_000_000 <= now.secs <= 9_000_000_000_000,
    ensures
        *final(it) == reviewed_item(*old(it), correct, difficulty@, now),
{
    let (ni, ne) = if correct {
        crate::sm2::review_correct(it.times_quizzed, it.interval_micro, it.ease_micro, difficulty)
    } else {
        crate::sm2::review_incorrect(it.ease_micro)
    };
    it.interval_micro = ni;
    it.ease_micro = ne;
    if it.times_quizzed < u32::MAX {
        it.times_quizzed = it.times_quizzed + 1;
    }
    if correct && it.times_correct < u32::MAX {
        it.times_correct = it.times_correct + 1;
    }
    it.last_quizzed = Some(now);
    it.next_review = crate::sm2::next_review(&now, ni);
    it.status = crate::sm2::compute_status(it.interval_micro, it.times_correct, it.times_quizzed);
}

/// One step of the batch: locate the input's item, review it, and report.
pub open spec fn apply_one(
    items: Seq<LearningItem>,
    inp: ReviewInput,
    now: Timestamp,
) -> Result<(Seq<LearningItem>, ReviewOutcome), AppError> {
    let cnt = match_count(items, inp.id@, items.len() as int);
    if cnt == 0 {
        Err(AppError::NotFound(inp.id))
    } else if cnt >= 2 {
        Err(AppError::AmbiguousId(inp.id))
    } else {
        let i = first_match(items, inp.id@, 0);
        let correct = inp.result@ == "correct"@;
        let ni = reviewed_item(items[i], correct, difficulty_of(inp), now);
        Ok(
            (
                items.update(i, ni),
                ReviewOutcome {
                    id: items[i].id,
                    result: inp.result,
                    next_review: ni.next_review,
                    interval_micro: ni.interval_micro,
                    status: ni.status,
                },
            ),
        )
    }
}

/// The whole batch, first failure aborting.
pub open spec fn apply_reviews(
    items: Seq<LearningItem>,
    inputs: Seq<ReviewInput>,
    now: Timestamp,
) -> Result<(Seq<LearningItem>, Seq<ReviewOutcome>), AppError>
    decreases inputs.len(),
{
    if inputs.len() == 0 {
        Ok((items, Seq::empty()))
    } else {
        match apply_one(items, inputs[0], now) {
            Err(e) => Err(e),
            Ok((its, out)) => match apply_reviews(its, inputs.skip(1), now) {
                Err(e) => Err(e),
                Ok((its2, outs)) => Ok((its2, seq![out] + outs)),
            },
        }
    }
}

/// Appending one input to a batch runs the batch, then that input.
proof fn lemma_apply_snoc(
    items: Seq<LearningItem>,
    inputs: Seq<ReviewInput>,
    x: ReviewInput,
    now: Timestamp,
)
    ensures
        apply_reviews(items, inputs.push(x), now) == (match apply_reviews(items, inputs, now) {
            Err(e) => Err(e),
            Ok((its, outs)) => match apply_one(its, x, now) {
                Err(e) => Err(e),
                Ok((its2, out)) => Ok((its2, outs.push(out))),
            },
        }),
    decreases inputs.len(),
{
    let ext = inputs.push(x);
    if inputs.len() == 0 {
        assert(ext[0] == x);
        assert(ext.skip(1) =~= Seq::<ReviewInput>::empty());
        match apply_one(items, x, now) {
            Err(e) => {},
            Ok((its, out)) => {
                assert(apply_reviews(its, ext.skip(1), now) == Ok::<_, AppError>(
                    (its, Seq::<ReviewOutcome>::empty()),
                ));
                assert(seq![out] + Seq::<ReviewOutcome>::empty() =~= Seq::empty().push(out));
            },
        }
    } else {
        assert(ext[0] == inputs[0]);
        assert(ext.skip(1) =~= inputs.skip(1).push(x));
        match apply_one(items, inputs[0], now) {
            Err(e) => {},
            Ok((its, out)) => {
                lemma_apply_snoc(its, inputs.skip(1), x, now);
                match apply_reviews(its, inputs.skip(1), now) {
                    Err(e) => {},
                    Ok((its2, outs)) => {
                        match apply_one(its2, x, now) {
                            Err(e) => {},
                            Ok((its3, out2)) => {
                                assert(seq![out] + outs.push(out2) =~= (seq![out] + outs).push(
                                    out2,
                                ));
                            },
                        }
                    },
                }
            },
        }
    }
}

/// Record a batch of reviews against the items in place: each input names
/// an item by ID prefix, says whether the answer was correct
/// (`result == "correct"`) and optionally how hard it was. The first
/// failing lookup aborts the batch with its error; items already reviewed
/// keep their new state, and the caller is expected not to save then.
pub fn review_items(items: &mut Vec<LearningItem>, inputs: &Vec<ReviewInput>, now: Timestamp) -> (r:
    Result<Vec<ReviewOutcome>, AppError>)
    requires
        -9_000_000_000_000 <= now.secs <= 9_000_000_000_000,
    ensures
        r matches Ok(outs) ==> apply_reviews(old(items)@, inputs@, now) == Ok::<_, AppError>(
            (final(items)@, outs@),
        ),
        r matches Err(e) ==> apply_reviews(old(items)@, inputs@, now) == Err::<
            (Seq<LearningItem>, Seq<ReviewOutcome>),
            _,
        >(e),
{
    let n = inputs.len();
    let mut outs: Vec<ReviewOutcome> = Vec::new();
    let mut idx: usize = 0;
    while idx < n
        invariant
            n == inputs@.len(),
            0 <= idx <= n,
            -9_000_000_000_000 <= now.secs <= 9_000_000_000_000,
            apply_reviews(old(items)@, inputs@.take(idx as int), now) == Ok::<_, AppError>(
                (items@, outs@),
            ),
        decreases n - idx,
    {
        let ghost pre = items@;
        let ghost preouts = outs@;
        let ghost cur = inputs@[idx as int];
        let inp = &inputs[idx];
        let found = find_item_by_prefix(items, inp.id.as_str());
        proof {
            assert(inputs@.take(idx as int + 1) =~= inputs@.take(idx as int).push(cur));
            lemma_apply_snoc(old(items)@, inputs@.take(idx as int), cur, now);
        }
        let i = match found {
            Ok(i) => i,
            Err(e) => {
                let e2 = match e {
                    AppError::NotFound(_) => AppError::NotFound(inp.id.clone()),
                    _ => AppError::AmbiguousId(inp.id.clone()),
                };
                proof {
                    assert(apply_one(pre, cur, now) == Err::<
                        (Seq<LearningItem>, ReviewOutcome),
                        AppError,
                    >(e2));
                    lemma_apply_prefix_err(old(items)@, inputs@, idx as int + 1, now);
                    assert(inputs@.take(n as int) =~= inputs@);
                }
                return Err(e2);
            },
        };
        let correct = crate::text::str_eq(inp.result.as_str(), "correct");
        let difficulty: &str = match &inp.difficulty {
            Some(d) => d.as_str(),
            None => "good",
        };
        proof {
            assert(difficulty@ == difficulty_of(cur));
        }
        let out_id = items[i].id.clone();
        let result_echo = inp.result.clone();
        let it = &mut items[i];
        apply_review(it, correct, difficulty, now);
        let out = ReviewOutcome {
            id: out_id,
            result: result_echo,
            next_review: it.next_review,
            interval_micro: it.interval_micro,
            status: it.status,
        };
        proof {
            let ni = reviewed_item(pre[i as int], correct, difficulty_of(cur), now);
            assert(items@ == pre.update(i as int, ni));
            assert(out.id == pre[i as int].id);
            assert(out.result == cur.result);
            assert(apply_one(pre, cur, now) == Ok::<_, AppError>((items@, out)));
        }
        outs.push(out);
        idx = idx + 1;
    }
    proof {
        assert(inputs@.take(n as int) =~= inputs@);
    }
    Ok(outs)
}

/// If a prefix of the batch already failed, the whole batch fails the same
/// way.
proof fn lemma_apply_prefix_err(
    items: Seq<LearningItem>,
    inputs: Seq<ReviewInput>,
    upto: int,
    now: Timestamp,
)
    requires
        0 <= upto <= inputs.len(),
        apply_reviews(items, inputs.take(upto), now) is Err,
    ensures
        apply_reviews(items, inputs, now) == apply_reviews(items, inputs.take(upto), now),
    decreases inputs.len() - upto,
{
    if upto < inputs.len() {
        let cur = inputs[upto];
        assert(inputs.take(upto + 1) =~= inputs.take(upto).push(cur));
        lemma_apply_snoc(items, inputs.take(upto), cur, now);
        lemma_apply_prefix_err(items, inputs, upto + 1, now);
    } else {
        assert(inputs.take(upto) =~= inputs);
    }
}

/// Whether some existing item already has this front text, compared
/// case-insensitively.
pub open spec fn has_duplicate_front(items: Seq<LearningItem>, front: Seq<char>) -> bool {
    exists|i: int|
        0 <= i < items.len() && crate::text::lower_of((#[trigger] items[i]).front@)
            == crate::text::lower_of(front)
}

/// Add a new learning item to the collection: a blank front or back is
/// invalid input, a front already present (case-insensitively) is a
/// duplicate, and otherwise the item is appended with the given identity,
/// the given or auto-detected type, creation time `now`, a first review a
/// day ahead, and fresh scheduling state.
pub fn add_item(
    db: &mut SrsDatabase,
    front: String,
    back: String,
    item_type: Option<String>,
    context: Option<String>,
    context_ja: Option<String>,
    source: Option<String>,
    id: String,
    now: Timestamp,
) -> (r: Result<(), AppError>)
    requires
        -9_000_000_000_000 <= now.secs <= 9_000_000_000_000,
    ensures
        final(db).version == old(db).version,
        final(db).last_updated == old(db).last_updated,
        crate::text::all_space(front@) || crate::text::all_space(back@) ==> (r matches Err(e)
            && e matches AppError::InvalidInput(_) && final(db).items@ == old(db).items@),
        !(crate::text::all_space(front@) || crate::text::all_space(back@))
            && has_duplicate_front(old(db).items@, front@) ==> (r matches Err(e) && e matches
            AppError::Duplicate(f) && f@ == front@ && final(db).items@ == old(db).items@),
        !(crate::text::all_space(front@) || crate::text::all_space(back@))
            && !has_duplicate_front(old(db).items@, front@) ==> (r is Ok && final(db).items@.len()
            == old(db).items@.len() + 1 && final(db).items@.take(old(db).items@.len() as int)
            == old(db).items@ && added_item_fits(
            final(db).items@.last(),
            front@,
            back@,
            item_type,
            context,
            context_ja,
            source,
            id,
            now,
        )),
{
    if crate::text::str_is_blank(front.as_str()) || crate::text::str_is_blank(back.as_str()) {
        return Err(AppError::InvalidInput(String::from_str("'front' and 'back' are required")));
    }
    let front_lower = crate::text::lowercase(front.as_str());
    let n = db.items.len();
    let mut i: usize = 0;
    while i < n
        invariant
            n == db.items@.len(),
            0 <= i <= n,
            !crate::text::all_space(front@),
            !crate::text::all_space(back@),
            db.version == old(db).version,
            db.last_updated == old(db).last_updated,
            db.items@ == old(db).items@,
            front_lower@ == crate::text::lower_of(front@),
            forall|j: int| 0 <= j < i ==> crate::text::lower_of((#[trigger] db.items@[j]).front@)
                != crate::text::lower_of(front@),
        decreases n - i,
    {
        let il = crate::text::lowercase(db.items[i].front.as_str());
        if crate::text::str_eq(il.as_str(), front_lower.as_str()) {
            proof {
                assert(crate::text::lower_of(db.items@[i as int].front@) == crate::text::lower_of(
                    front@,
                ));
            }
            return Err(AppError::Duplicate(front));
        }
        i = i + 1;
    }
    let resolved_type: String = match item_type {
        Some(t) => t,
        None => crate::auto_detect_type(front.as_str()),
    };
    let next = crate::sm2::next_review(&now, 1_000_000);
    let item = LearningItem {
        id,
        item_type: resolved_type,
        front,
        back,
        context,
        context_ja,
        source,
        created_at: now,
        last_quizzed: None,
        next_review: next,
        times_quizzed: 0,
        times_correct: 0,
        ease_micro: crate::sm2::EASE_START,
        interval_micro: 0,
        status: Status::New,
        extra: Vec::new(),
    };
    db.items.push(item);
    proof {
        assert(final(db).items@.take(old(db).items@.len() as int) =~= old(db).items@);
    }
    Ok(())
}

/// What the appended item must look like. The type is the given one, or
/// `word` for a one-word front and `phrase` otherwise.
pub open spec fn added_item_fits(
    it: LearningItem,
    front: Seq<char>,
    back: Seq<char>,
    item_type: Option<String>,
    context: Option<String>,
    context_ja: Option<String>,
    source: Option<String>,
    id: String,
    now: Timestamp,
) -> bool {
    &&& it.id == id
    &&& it.front@ == front
    &&& it.back@ == back
    &&& (match item_type {
        Some(t) => it.item_type == t,
        None => it.item_type@ == (if crate::word_count(front) <= 1 {
            "word"@
        } else {
            "phrase"@
        }),
    })
    &&& it.context == context
    &&& it.context_ja == context_ja
    &&& it.source == source
    &&& it.created_at == now
    &&& it.last_quizzed is None
    &&& it.next_review == next_review_spec(now, 1_000_000)
    &&& it.times_quizzed == 0
    &&& it.times_correct == 0
    &&& it.ease_micro == 2_500_000u64
    &&& it.interval_micro == 0u64
    &&& it.status == Status::New
    &&& it.extra@.len() == 0
}

/// Whether a listing keeps this item: due items by review instant, weak
/// items by a short accuracy record, or a status filter, else everything.
pub open spec fn selected(
    it: LearningItem,
    due: bool,
    weak: bool,
    sf: Option<Seq<char>>,
    now: Timestamp,
) -> bool {
    if due {
        ts_le(it.next_review, now)
    } else if weak {
        it.times_quizzed >= 2 && 100 * it.times_correct < 70 * it.times_quizzed
    } else {
        match sf {
            Some(s) => crate::models::status_label(it.status) == s,
            None => true,
        }
    }
}

/// The selected indices among the first `upto` items, ascending.
pub open spec fn selected_indices(
    items: Seq<LearningItem>,
    due: bool,
    weak: bool,
    sf: Option<Seq<char>>,
    now: Timestamp,
    upto: int,
) -> Seq<usize>
    decreases upto,
{
    if upto <= 0 {
        Seq::empty()
    } else {
        let p = selected_indices(items, due, weak, sf, now, upto - 1);
        if selected(items[upto - 1], due, weak, sf, now) {
            p.push((upto - 1) as usize)
        } else {
            p
        }
    }
}

/// The selected indices come out strictly increasing, so pairwise
/// distinct.
pub proof fn lemma_selected_indices_increasing(
    items: Seq<LearningItem>,
    due: bool,
    weak: bool,
    sf: Option<Seq<char>>,
    now: Timestamp,
    upto: int,
)
    requires
        0 <= upto <= usize::MAX,
    ensures
        forall|k: int|
            0 <= k < selected_indices(items, due, weak, sf, now, upto).len()
                ==> #[trigger] selected_indices(items, due, weak, sf, now, upto)[k] < upto,
        forall|k1: int, k2: int|
            0 <= k1 < k2 < selected_indices(items, due, weak, sf, now, upto).len()
                ==> #[trigger] selected_indices(items, due, weak, sf, now, upto)[k1]
                < #[trigger] selected_indices(items, due, weak, sf, now, upto)[k2],
    decreases upto,
{
    if upto > 0 {
        lemma_selected_indices_increasing(items, due, weak, sf, now, upto - 1);
        let p = selected_indices(items, due, weak, sf, now, upto - 1);
        let s = selected_indices(items, due, weak, sf, now, upto);
        if selected(items[upto - 1], due, weak, sf, now) {
            assert(s == p.push((upto - 1) as usize));
            assert forall|k: int| 0 <= k < s.len() implies #[trigger] s[k] < upto by {
                if k < p.len() {
                    assert(s[k] == p[k]);
                } else {
                    assert(s[k] == (upto - 1) as usize);
                }
            }
            assert forall|k1: int, k2: int| 0 <= k1 < k2 < s.len() implies #[trigger] s[k1]
                < #[trigger] s[k2] by {
                assert(s[k1] == p[k1]);
                if k2 < p.len() {
                    assert(s[k2] == p[k2]);
                } else {
                    assert(s[k2] == (upto - 1) as usize);
                    assert(p[k1] < upto - 1);
                }
            }
        } else {
            assert(s == p);
        }
    }
}

/// Order of the due listing: earliest next review first, the lower ease
/// factor breaking ties.
pub open spec fn due_key_le(a: LearningItem, b: LearningItem) -> bool {
    ||| a.next_review.secs < b.next_review.secs
    ||| (a.next_review.secs == b.next_review.secs && a.next_review.nanos < b.next_review.nanos)
    ||| (a.next_review == b.next_review && a.ease_micro <= b.ease_micro)
}

fn due_le(items: &Vec<LearningItem>, a: usize, b: usize) -> (r: bool)
    requires
        a < items@.len(),
        b < items@.len(),
    ensures
        r == due_key_le(items@[a as int], items@[b as int]),
{
    let x = &items[a];
    let y = &items[b];
    x.next_review.secs < y.next_review.secs || (x.next_review.secs == y.next_review.secs
        && x.next_review.nanos < y.next_review.nanos) || (x.next_review.secs == y.next_review.secs
        && x.next_review.nanos == y.next_review.nanos && x.ease_micro <= y.ease_micro)
}

/// List the indices of the items a listing shows, at most `limit` of them:
/// without the due flag, in item order and exactly the selected ones; with
/// it, the same count of selected indices, ordered by next review instant
/// and ease factor.
pub fn list_items(
    items: &Vec<LearningItem>,
    due: bool,
    weak: bool,
    status_filter: Option<&str>,
    limit: Option<usize>,
    now: &Timestamp,
) -> (r: Vec<usize>)
    ensures
        ({
            let sf = match status_filter {
                Some(s) => Some(s@),
                None => None::<Seq<char>>,
            };
            let full = selected_indices(items@, due, weak, sf, *now, items@.len() as int);
            &&& r@.len() == (match limit {
                Some(l) => if l < full.len() {
                    l as int
                } else {
                    full.len() as int
                },
                None => full.len() as int,
            })
            &&& forall|k: int|
                0 <= k < r@.len() ==> r@[k] < items@.len() && selected(
                    items@[#[trigger] r@[k] as int],
                    due,
                    weak,
                    sf,
                    *now,
                )
            &&& forall|k1: int, k2: int| 0 <= k1 < k2 < r@.len() ==> r@[k1] != r@[k2]
            &&& (!due ==> r@ == full.take(r@.len() as int))
            &&& (due ==> forall|k: int|
                0 < k < r@.len() ==> due_key_le(
                    items@[#[trigger] r@[k - 1] as int],
                    items@[r@[k] as int],
                ))
        }),
{
    let ghost sf = match status_filter {
        Some(s) => Some(s@),
        None => None::<Seq<char>>,
    };
    let n = items.len();
    let mut v: Vec<usize> = Vec::new();
    let mut i: usize = 0;
    while i < n
        invariant
            sf == (match status_filter {
                Some(s) => Some(s@),
                None => None::<Seq<char>>,
            }),
            n == items@.len(),
            0 <= i <= n,
            v@ == selected_indices(items@, due, weak, sf, *now, i as int),
            forall|k: int|
                0 <= k < v@.len() ==> v@[k] < n && selected(
                    items@[#[trigger] v@[k] as int],
                    due,
                    weak,
                    sf,
                    *now,
                ),
        decreases n - i,
    {
        let it = &items[i];
        let keep: bool = if due {
            it.next_review.le(now)
        } else if weak {
            it.times_quizzed >= 2 && 100 * (it.times_correct as u64) < 70 * (it.times_quizzed
                as u64)
        } else {
            match status_filter {
                Some(sflt) => {
                    let lbl = it.status.label();
                    crate::text::str_eq(lbl.as_str(), sflt)
                },
                None => true,
            }
        };
        proof {
            assert(keep == selected(items@[i as int], due, weak, sf, *now));
        }
        if keep {
            v.push(i);
        }
        i = i + 1;
    }
    proof {
        assert(v@ == selected_indices(items@, due, weak, sf, *now, n as int));
        lemma_selected_indices_increasing(items@, due, weak, sf, *now, n as int);
        assert(forall|k1: int, k2: int| 0 <= k1 < k2 < v@.len() ==> v@[k1] != v@[k2]);
    }
    let ghost full = v@;
    if due {
        let m = v.len();
        let mut a: usize = 1;
        while a < m
            invariant
            sf == (match status_filter {
                Some(s) => Some(s@),
                None => None::<Seq<char>>,
            }),
                m == v@.len(),
                v@.len() == full.len(),
                a >= 1,
                forall|k: int|
                    0 <= k < v@.len() ==> v@[k] < items@.len() && selected(
                        items@[#[trigger] v@[k] as int],
                        due,
                        weak,
                        sf,
                        *now,
                    ),
                forall|k: int| 0 < k < a && k < m ==> due_key_le(
                    items@[#[trigger] v@[k - 1] as int],
                    items@[v@[k] as int],
                ),
                forall|k1: int, k2: int| 0 <= k1 < k2 < v@.len() ==> v@[k1] != v@[k2],
            decreases m - a,
        {
            let mut b: usize = a;
            let mut go = true;
            while go && b > 0
                invariant
            sf == (match status_filter {
                Some(s) => Some(s@),
                None => None::<Seq<char>>,
            }),
                    m == v@.len(),
                    v@.len() == full.len(),
                    0 <= b <= a < m,
                    forall|k: int|
                        0 <= k < v@.len() ==> v@[k] < items@.len() && selected(
                            items@[#[trigger] v@[k] as int],
                            due,
                            weak,
                            sf,
                            *now,
                        ),
                    forall|k: int| 0 < k <= a && k != b && k - 1 != b ==> due_key_le(
                        items@[#[trigger] v@[k - 1] as int],
                        items@[v@[k] as int],
                    ),
                    0 < b < a ==> due_key_le(
                        items@[v@[b - 1] as int],
                        items@[v@[b + 1] as int],
                    ),
                    forall|k: int| b < k <= a ==> due_key_le(
                        items@[v@[b as int] as int],
                        items@[#[trigger] v@[k] as int],
                    ),
                    !go ==> b > 0 && due_key_le(
                        items@[v@[b - 1] as int],
                        items@[v@[b as int] as int],
                    ),
                    forall|k1: int, k2: int| 0 <= k1 < k2 < v@.len() ==> v@[k1] != v@[k2],
                decreases b + if go {
                    1int
                } else {
                    0int
                },
            {
                if due_le(items, v[b - 1], v[b]) {
                    go = false;
                } else {
                    proof {
                        lemma_due_key_connex(
                            items@[v@[b as int - 1] as int],
                            items@[v@[b as int] as int],
                        );
                    }
                    let ghost pre = v@;
                    let x = v[b - 1];
                    let y = v[b];
                    v[b - 1] = y;
                    v[b] = x;
                    proof {
                        assert forall|k1: int, k2: int| 0 <= k1 < k2 < v@.len() implies v@[k1]
                            != v@[k2] by {
                            let o1: int = if k1 == b - 1 {
                                b as int
                            } else if k1 == b {
                                b - 1
                            } else {
                                k1
                            };
                            let o2: int = if k2 == b - 1 {
                                b as int
                            } else if k2 == b {
                                b - 1
                            } else {
                                k2
                            };
                            assert(v@[k1] == pre[o1]);
                            assert(v@[k2] == pre[o2]);
                            assert(pre[o1] != pre[o2]);
                        }
                    }
                    b = b - 1;
                }
            }
            proof {
                assert forall|k: int| 0 < k <= a implies due_key_le(
                    items@[#[trigger] v@[k - 1] as int],
                    items@[v@[k] as int],
                ) by {
                    if k == b {
                    } else if k - 1 == b {
                        assert(due_key_le(items@[v@[b as int] as int], items@[v@[k] as int]));
                    }
                }
            }
            a = a + 1;
        }
    }
    match limit {
        Some(l) => {
            if l < v.len() {
                v.truncate(l);
                proof {
                    if !due {
                        assert(v@ == full.take(l as int));
                    }
                }
            }
        },
        None => {},
    }
    proof {
        if v@.len() == full.len() {
            assert(full.take(full.len() as int) =~= full);
        }
    }
    v
}

/// The due order is total: two items always compare one way or the other.
proof fn lemma_due_key_connex(a: LearningItem, b: LearningItem)
    ensures
        due_key_le(a, b) || due_key_le(b, a),
{
}

/// How many of the first `upto` items are due at `now`.
pub open spec fn count_due(items: Seq<LearningItem>, now: Timestamp, upto: int) -> int
    decreases upto,
{
    if upto <= 0 {
        0
    } else {
        count_due(items, now, upto - 1) + if ts_le(items[upto - 1].next_review, now) {
            1int
        } else {
            0int
        }
    }
}

/// Total quizzes over the first `upto` items.
pub open spec fn sum_quizzed(items: Seq<LearningItem>, upto: int) -> int
    decreases upto,
{
    if upto <= 0 {
        0
    } else {
        sum_quizzed(items, upto - 1) + items[upto - 1].times_quizzed
    }
}

/// Total correct answers over the first `upto` items.
pub open spec fn sum_correct(items: Seq<LearningItem>, upto: int) -> int
    decreases upto,
{
    if upto <= 0 {
        0
    } else {
        sum_correct(items, upto - 1) + items[upto - 1].times_correct
    }
}

/// How many of the first `upto` items carry this status.
pub open spec fn count_status(items: Seq<LearningItem>, st: Status, upto: int) -> int
    decreases upto,
{
    if upto <= 0 {
        0
    } else {
        count_status(items, st, upto - 1) + if items[upto - 1].status == st {
            1int
        } else {
            0int
        }
    }
}

/// How many of the first `upto` items carry this type.
pub open spec fn count_type(items: Seq<LearningItem>, t: Seq<char>, upto: int) -> int
    decreases upto,
{
    if upto <= 0 {
        0
    } else {
        count_type(items, t, upto - 1) + if items[upto - 1].item_type@ == t {
            1int
        } else {
            0int
        }
    }
}

proof fn lemma_count_type_bound(items: Seq<LearningItem>, t: Seq<char>, upto: int)
    requires
        0 <= upto,
    ensures
        0 <= count_type(items, t, upto) <= upto,
    decreases upto,
{
    if upto > 0 {
        lemma_count_type_bound(items, t, upto - 1);
    }
}

proof fn lemma_count_type_zero(items: Seq<LearningItem>, t: Seq<char>, upto: int)
    requires
        0 <= upto <= items.len(),
        forall|j: int| 0 <= j < upto ==> (#[trigger] items[j]).item_type@ != t,
    ensures
        count_type(items, t, upto) == 0,
    decreases upto,
{
    if upto > 0 {
        lemma_count_type_zero(items, t, upto - 1);
    }
}

/// The overall learning statistics of a collection at one instant.
pub struct StatsSummary {
    pub total_items: usize,
    pub due_now: usize,
    pub total_quizzed: u64,
    pub total_correct: u64,
    pub accuracy_tenths: u64,
    pub new_count: usize,
    pub learning_count: usize,
    pub reviewing_count: usize,
    pub mastered_count: usize,
    pub by_type: Vec<(String, usize)>,
    pub next_due: Option<Timestamp>,
}

/// Compute the statistics a collection shows: item and due counts, the
/// overall accuracy in tenths of a percent (rounded half up, zero when
/// nothing was quizzed), counts per status, counts per item type in first
/// appearance order, and the earliest review instant still ahead of `now`.
pub fn compute_stats(items: &Vec<LearningItem>, now: &Timestamp) -> (r: StatsSummary)
    requires
        items@.len() < 4_294_967_296,
        sum_correct(items@, items@.len() as int) <= sum_quizzed(items@, items@.len() as int),
    ensures
        r.total_items == items@.len(),
        r.due_now == count_due(items@, *now, items@.len() as int),
        r.total_quizzed == sum_quizzed(items@, items@.len() as int),
        r.total_correct == sum_correct(items@, items@.len() as int),
        r.accuracy_tenths == (if sum_quizzed(items@, items@.len() as int) > 0 {
            (2000 * sum_correct(items@, items@.len() as int) + sum_quizzed(
                items@,
                items@.len() as int,
            )) / (2 * sum_quizzed(items@, items@.len() as int))
        } else {
            0int
        }),
        r.new_count == count_status(items@, Status::New, items@.len() as int),
        r.learning_count == count_status(items@, Status::Learning, items@.len() as int),
        r.reviewing_count == count_status(items@, Status::Reviewing, items@.len() as int),
        r.mastered_count == count_status(items@, Status::Mastered, items@.len() as int),
        forall|k: int|
            0 <= k < r.by_type@.len() ==> (#[trigger] r.by_type@[k]).1 == count_type(
                items@,
                r.by_type@[k].0@,
                items@.len() as int,
            ),
        forall|k1: int, k2: int|
            0 <= k1 < k2 < r.by_type@.len() ==> (#[trigger] r.by_type@[k1]).0@ != (
            #[trigger] r.by_type@[k2]).0@,
        forall|j: int|
            0 <= j < items@.len() ==> exists|k: int|
                0 <= k < r.by_type@.len() && (#[trigger] r.by_type@[k]).0@ == (
                #[trigger] items@[j]).item_type@,
        r.next_due matches Some(t) ==> (exists|j: int|
            0 <= j < items@.len() && (#[trigger] items@[j]).next_review == t) && !ts_le(t, *now)
            && (forall|j: int|
            0 <= j < items@.len() && !ts_le((#[trigger] items@[j]).next_review, *now) ==> ts_le(
                t,
                items@[j].next_review,
            )),
        r.next_due is None ==> forall|j: int|
            0 <= j < items@.len() ==> ts_le((#[trigger] items@[j]).next_review, *now),
{
    let n = items.len();
    let mut due_now: usize = 0;
    let mut tq: u64 = 0;
    let mut tc: u64 = 0;
    let mut cnew: usize = 0;
    let mut clearn: usize = 0;
    let mut crev: usize = 0;
    let mut cmast: usize = 0;
    let mut by_type: Vec<(String, usize)> = Vec::new();
    let mut next_due: Option<Timestamp> = None;
    let mut i: usize = 0;
    while i < n
        invariant
            n == items@.len(),
            n < 4_294_967_296,
            0 <= i <= n,
            due_now == count_due(items@, *now, i as int),
            due_now <= i,
            tq == sum_quizzed(items@, i as int),
            tc == sum_correct(items@, i as int),
            tq <= i * 4_294_967_295,
            tc <= i * 4_294_967_295,
            cnew == count_status(items@, Status::New, i as int),
            clearn == count_status(items@, Status::Learning, i as int),
            crev == count_status(items@, Status::Reviewing, i as int),
            cmast == count_status(items@, Status::Mastered, i as int),
            cnew <= i && clearn <= i && crev <= i && cmast <= i,
            forall|k: int|
                0 <= k < by_type@.len() ==> (#[trigger] by_type@[k]).1 == count_type(
                    items@,
                    by_type@[k].0@,
                    i as int,
                ),
            forall|k: int| 0 <= k < by_type@.len() ==> (#[trigger] by_type@[k]).1 <= i,
            forall|k1: int, k2: int|
                0 <= k1 < k2 < by_type@.len() ==> (#[trigger] by_type@[k1]).0@ != (
                #[trigger] by_type@[k2]).0@,
            forall|j: int|
                0 <= j < i ==> exists|k: int|
                    0 <= k < by_type@.len() && (#[trigger] by_type@[k]).0@ == (
                    #[trigger] items@[j]).item_type@,
            next_due matches Some(t) ==> (exists|j: int|
                0 <= j < i && (#[trigger] items@[j]).next_review == t) && !ts_le(t, *now) && (
            forall|j: int|
                0 <= j < i && !ts_le((#[trigger] items@[j]).next_review, *now) ==> ts_le(
                    t,
                    items@[j].next_review,
                )),
            next_due is None ==> forall|j: int|
                0 <= j < i ==> ts_le((#[trigger] items@[j]).next_review, *now),
        decreases n - i,
    {
        let it = &items[i];
        if it.next_review.le(now) {
            due_now = due_now + 1;
        }
        proof {
            assert((i + 1) * 4_294_967_295 == i * 4_294_967_295 + 4_294_967_295)
                by (nonlinear_arith);
        }
        tq = tq + (it.times_quizzed as u64);
        tc = tc + (it.times_correct as u64);
        match it.status {
            Status::New => {
                cnew = cnew + 1;
            },
            Status::Learning => {
                clearn = clearn + 1;
            },
            Status::Reviewing => {
                crev = crev + 1;
            },
            Status::Mastered => {
                cmast = cmast + 1;
            },
        }
        let tn = by_type.len();
        let mut k: usize = 0;
        let mut found = false;
        let ghost t = items@[i as int].item_type@;
        while !found && k < tn
            invariant
                n == items@.len(),
                0 <= i < n,
                t == items@[i as int].item_type@,
                tn == by_type@.len(),
                0 <= k <= tn,
                it == items@[i as int],
                forall|k2: int|
                    0 <= k2 < by_type@.len() ==> (#[trigger] by_type@[k2]).1 == count_type(
                        items@,
                        by_type@[k2].0@,
                        if found && by_type@[k2].0@ == t {
                            i as int + 1
                        } else {
                            i as int
                        },
                    ),
                forall|k2: int| 0 <= k2 < by_type@.len() ==> (#[trigger] by_type@[k2]).1 <= i + 1,
                forall|k1: int, k2: int|
                    0 <= k1 < k2 < by_type@.len() ==> (#[trigger] by_type@[k1]).0@ != (
                    #[trigger] by_type@[k2]).0@,
                forall|j: int|
                    0 <= j < i ==> exists|k2: int|
                        0 <= k2 < by_type@.len() && (#[trigger] by_type@[k2]).0@ == (
                        #[trigger] items@[j]).item_type@,
                !found ==> forall|k2: int| 0 <= k2 < k ==> (#[trigger] by_type@[k2]).0@ != t,
                found ==> exists|k2: int|
                    0 <= k2 < by_type@.len() && (#[trigger] by_type@[k2]).0@ == t,
            decreases tn - k + if found {
                0int
            } else {
                1int
            },
        {
            if crate::text::str_eq(by_type[k].0.as_str(), it.item_type.as_str()) {
                let c = by_type[k].1;
                proof {
                    lemma_count_type_bound(items@, by_type@[k as int].0@, i as int);
                }
                let ghost pre = by_type@;
                by_type[k].1 = c + 1;
                found = true;
                proof {
                    assert(by_type@.len() == pre.len());
                    assert(forall|k2: int|
                        0 <= k2 < pre.len() ==> (#[trigger] by_type@[k2]).0 == pre[k2].0);
                    assert forall|j: int| 0 <= j < i implies exists|k2: int|
                        0 <= k2 < by_type@.len() && (#[trigger] by_type@[k2]).0@ == (
                        #[trigger] items@[j]).item_type@ by {
                        let w = choose|w: int|
                            0 <= w < pre.len() && (#[trigger] pre[w]).0@ == items@[j].item_type@;
                        assert(by_type@[w].0@ == items@[j].item_type@);
                    }
                }
            } else {
                k = k + 1;
            }
        }
        if !found {
            proof {
                assert forall|j: int| 0 <= j < i implies (#[trigger] items@[j]).item_type@
                    != t by {
                    if items@[j].item_type@ == t {
                        assert(exists|k2: int|
                            0 <= k2 < by_type@.len() && (#[trigger] by_type@[k2]).0@ == items@[
                                j
                            ].item_type@);
                        let k2 = choose|k2: int|
                            0 <= k2 < by_type@.len() && (#[trigger] by_type@[k2]).0@ == items@[
                                j
                            ].item_type@;
                        assert(by_type@[k2].0@ != t);
                    }
                }
                lemma_count_type_zero(items@, t, i as int);
            }
            let ghost pre = by_type@;
            by_type.push((it.item_type.clone(), 1));
            proof {
                assert forall|j: int| 0 <= j < i implies exists|k2: int|
                    0 <= k2 < by_type@.len() && (#[trigger] by_type@[k2]).0@ == (
                    #[trigger] items@[j]).item_type@ by {
                    let w = choose|w: int|
                        0 <= w < pre.len() && (#[trigger] pre[w]).0@ == items@[j].item_type@;
                    assert(by_type@[w].0@ == items@[j].item_type@);
                }
                assert(by_type@[by_type@.len() - 1].0@ == t);
                assert forall|k2: int| 0 <= k2 < by_type@.len() implies (
                #[trigger] by_type@[k2]).1 == count_type(items@, by_type@[k2].0@, i as int + 1) by {
                    if k2 < pre.len() {
                        assert(by_type@[k2] == pre[k2]);
                        assert(pre[k2].0@ != t);
                        assert(by_type@[k2].0@ != t);
                        assert(count_type(items@, by_type@[k2].0@, i as int + 1) == count_type(
                            items@,
                            by_type@[k2].0@,
                            i as int,
                        ));
                    } else {
                        assert(k2 == by_type@.len() - 1);
                        assert(by_type@[k2].1 == 1);
                        assert(count_type(items@, t, i as int + 1) == count_type(
                            items@,
                            t,
                            i as int,
                        ) + 1);
                    }
                }
            }
        } else {
            proof {
                assert forall|k2: int| 0 <= k2 < by_type@.len() implies (
                #[trigger] by_type@[k2]).1 == count_type(items@, by_type@[k2].0@, i as int + 1) by {
                    if by_type@[k2].0@ != t {
                        assert(count_type(items@, by_type@[k2].0@, i as int + 1) == count_type(
                            items@,
                            by_type@[k2].0@,
                            i as int,
                        ));
                    }
                }
            }
        }
        proof {
            assert forall|j: int| 0 <= j < i + 1 implies exists|k2: int|
                0 <= k2 < by_type@.len() && (#[trigger] by_type@[k2]).0@ == (
                #[trigger] items@[j]).item_type@ by {
                if j == i {
                    assert(exists|k2: int|
                        0 <= k2 < by_type@.len() && (#[trigger] by_type@[k2]).0@ == t);
                }
            }
        }
        let is_future = !it.next_review.le(now);
        if is_future {
            let better = match &next_due {
                Some(t) => it.next_review.le(&t) && !(t.le(&it.next_review)),
                None => true,
            };
            if better {
                next_due = Some(it.next_review);
            }
        }
        i = i + 1;
    }
    let accuracy_tenths: u64 = if tq > 0 {
        let num: u128 = 2000 * (tc as u128) + (tq as u128);
        let den: u128 = 2 * (tq as u128);
        let res = num / den;
        proof {
            assert(tc <= tq);
            assert(num <= den * 1001);
            assert(res <= 1001) by (nonlinear_arith)
                requires
                    num <= den * 1001 && den >= 1 && res == num / den,
            ;
        }
        res as u64
    } else {
        0
    };
    let ghost gb = by_type@;
    let r = StatsSummary {
        total_items: n,
        due_now,
        total_quizzed: tq,
        total_correct: tc,
        accuracy_tenths,
        new_count: cnew,
        learning_count: clearn,
        reviewing_count: crev,
        mastered_count: cmast,
        by_type,
        next_due,
    };
    proof {
        assert(r.by_type@ == gb);
        assert forall|j: int| 0 <= j < items@.len() implies exists|k: int|
            0 <= k < r.by_type@.len() && (#[trigger] r.by_type@[k]).0@ == (
            #[trigger] items@[j]).item_type@ by {
            let w = choose|w: int| 0 <= w < gb.len() && (#[trigger] gb[w]).0@ == items@[
                j
            ].item_type@;
            assert(r.by_type@[w].0@ == items@[j].item_type@);
        }
    }
    r
}

/// Whether one array element describes a review input: an `id` string, a
/// `result` string, and an optional `difficulty` string.
pub open spec fn input_shape_ok(es: Seq<(Seq<char>, crate::json::JModel)>) -> bool {
    &&& crate::storage::read_str(es, "id"@) is Some
    &&& crate::storage::read_str(es, "result"@) is Some
    &&& crate::storage::read_opt_str(es, "difficulty"@) is Some
}

/// Whether `inp` is exactly the review input an array element describes.
pub open spec fn input_parses(
    es: Seq<(Seq<char>, crate::json::JModel)>,
    inp: ReviewInput,
) -> bool {
    &&& crate::storage::read_str(es, "id"@) == Some(inp.id@)
    &&& crate::storage::read_str(es, "result"@) == Some(inp.result@)
    &&& crate::storage::read_opt_str(es, "difficulty"@) == Some(
        crate::storage::opt_view(inp.difficulty),
    )
}

/// Whether a tree is a well-formed, nonempty batch of review inputs.
pub open spec fn inputs_shape_ok(m: crate::json::JModel) -> bool {
    &&& m is Arr
    &&& m->Arr_0.len() >= 1
    &&& forall|i: int|
        0 <= i < m->Arr_0.len() ==> (#[trigger] m->Arr_0[i]) is Obj && input_shape_ok(
            crate::storage::obj_entries(m->Arr_0[i])->0,
        )
}

/// Whether a text denotes a well-formed, nonempty batch of review inputs.
pub open spec fn text_parses_inputs(s: Seq<char>) -> bool {
    match crate::json::json_parse_of(s) {
        Some(m) => inputs_shape_ok(m),
        None => false,
    }
}

/// Read a batch of review inputs from JSON text: an array of objects,
/// each with an `id`, a `result`, and optionally a `difficulty`. Succeeds
/// exactly on a well-formed nonempty batch, yielding exactly the inputs it
/// describes; malformed text, a wrong shape and an empty array are all
/// invalid input, exactly as the review command treats its standard-input
/// batch.
pub fn parse_review_inputs(text: &str) -> (r: Result<Vec<ReviewInput>, AppError>)
    ensures
        (r is Ok) == text_parses_inputs(text@),
        r matches Ok(v) ==> (crate::json::json_parse_of(text@) matches Some(m) && v@.len()
            == m->Arr_0.len() && v@.len() >= 1 && forall|i: int|
            0 <= i < v@.len() ==> input_parses(
                crate::storage::obj_entries(m->Arr_0[i])->0,
                v@[i],
            )),
        r matches Err(e) ==> e matches AppError::InvalidInput(_),
{
    let j = match crate::json::parse_json_text(text) {
        Ok(j) => j,
        Err(m) => {
            let mut msg = String::from_str("Invalid JSON: ");
            msg.append(m.as_str());
            return Err(AppError::InvalidInput(msg));
        },
    };
    let arr: &Vec<crate::json::JsonVal> = match &j {
        crate::json::JsonVal::Arr(a) => a,
        _ => {
            return Err(AppError::InvalidInput(String::from_str("Invalid JSON: expected an array")));
        },
    };
    let ghost m = crate::json::jview(j);
    let ghost marr = m->Arr_0;
    proof {
        assert(marr.len() == arr@.len());
        assert(forall|k: int| 0 <= k < marr.len() ==> #[trigger] marr[k] == crate::json::jview(
            arr@[k],
        ));
    }
    let n = arr.len();
    if n == 0 {
        return Err(AppError::InvalidInput(String::from_str("Empty review array")));
    }
    let mut out: Vec<ReviewInput> = Vec::new();
    let mut i: usize = 0;
    while i < n
        invariant
            n == arr@.len(),
            n >= 1,
            0 <= i <= n,
            crate::json::json_parse_of(text@) == Some(m),
            m == crate::json::jview(j),
            m is Arr,
            marr == m->Arr_0,
            marr.len() == n,
            forall|k: int| 0 <= k < marr.len() ==> #[trigger] marr[k] == crate::json::jview(
                arr@[k],
            ),
            out@.len() == i,
            forall|k: int|
                0 <= k < i ==> (#[trigger] marr[k]) is Obj && input_shape_ok(
                    crate::storage::obj_entries(marr[k])->0,
                ) && input_parses(crate::storage::obj_entries(marr[k])->0, out@[k]),
        decreases n - i,
    {
        let entries: &Vec<(String, crate::json::JsonVal)> = match &arr[i] {
            crate::json::JsonVal::Obj(es) => es,
            _ => {
                proof {
                    assert(marr[i as int] == crate::json::jview(arr@[i as int]));
                    assert(!(marr[i as int] is Obj));
                }
                return Err(
                    AppError::InvalidInput(String::from_str("Invalid JSON: expected an object")),
                );
            },
        };
        proof {
            assert(marr[i as int] == crate::json::jview(arr@[i as int]));
            assert(crate::json::jview(arr@[i as int])->Obj_0 =~= crate::json::entries_model(
                entries@,
            ));
            assert(crate::storage::obj_entries(marr[i as int]) == Some(
                crate::json::entries_model(entries@),
            ));
        }
        let id = match crate::storage::get_str(entries, "id") {
            Ok(s) => s,
            Err(_) => {
                return Err(AppError::InvalidInput(String::from_str("Invalid JSON: bad id")));
            },
        };
        let result = match crate::storage::get_str(entries, "result") {
            Ok(s) => s,
            Err(_) => {
                return Err(AppError::InvalidInput(String::from_str("Invalid JSON: bad result")));
            },
        };
        let difficulty = match crate::storage::get_opt_str(entries, "difficulty") {
            Ok(o) => o,
            Err(_) => {
                return Err(
                    AppError::InvalidInput(String::from_str("Invalid JSON: bad difficulty")),
                );
            },
        };
        out.push(ReviewInput { id, result, difficulty });
        i = i + 1;
    }
    Ok(out)
}

} // verus!
