//! The storage layer: the self-healing repair pass, reading the collection
//! from its JSON text, and serialising it back. The surrounding I/O layer
//! hands in the file's contents (or its absence) and writes the returned
//! text to disk.
//!
//! The wire schema is mirrored by spec functions on both sides: the
//! readers (`last_val`, `read_str`, ... , `item_parses`, `db_parses`) say
//! what collection a JSON tree denotes, and the writers
//! (`item_wire_entries`, `db_wire_tree`) say what tree a collection
//! serialises to, so `load` and `save` pin their results down to the named
//! JSON parse and print.

use vstd::prelude::*;

verus! {

use crate::json::{
    JsonVal,
    JModel,
    jview,
    entries_model,
    json_parse_of,
    json_text_of,
    renderable,
    parse_json_text,
    render_json_text,
};
use crate::models::{
    AppError,
    LearningItem,
    SrsDatabase,
    Status,
    Timestamp,
    label_status,
    status_label,
};
use crate::numbers::{
    format_micro,
    format_u64,
    parse_micro,
    parse_count,
    parse_micro_spec,
    parse_count_spec,
    micro_text,
    dec_digits,
    lemma_plain_decimal_int,
};
use crate::sm2::status_of;
use crate::time::{ts_writable, format_rfc3339, parse_rfc3339, rfc3339_of, rfc3339_parse};

/// What the repair pass makes of one item: the ease factor clamped up to
/// the 1.3 floor, the correct count clamped down to the quiz count, and
/// the status recomputed from the (possibly clamped) fields.
pub open spec fn healed_item(it: LearningItem) -> LearningItem {
    let e: u64 = if it.ease_micro < 1_300_000 {
        1_300_000
    } else {
        it.ease_micro
    };
    let c: u32 = if it.times_correct > it.times_quizzed {
        it.times_quizzed
    } else {
        it.times_correct
    };
    LearningItem {
        ease_micro: e,
        times_correct: c,
        status: status_of(it.interval_micro as int, c as int, it.times_quizzed as int),
        ..it
    }
}

/// Whether an item is a fixed point of the repair pass.
pub open spec fn item_healed(it: LearningItem) -> bool {
    it == healed_item(it)
}

/// Whether every item of a collection is repaired.
pub open spec fn db_healed(db: SrsDatabase) -> bool {
    forall|i: int| 0 <= i < db.items@.len() ==> item_healed(#[trigger] db.items@[i])
}

/// The repair pass is idempotent on one item.
pub proof fn lemma_heal_idempotent(it: LearningItem)
    ensures
        healed_item(healed_item(it)) == healed_item(it),
{
}

/// Repair-pass idempotence: applying the repair pass twice to any item
/// sequence yields the same sequence as applying it once, so a second pass
/// over a repaired collection changes nothing.
pub proof fn lemma_repair_idempotent(items: Seq<LearningItem>)
    ensures
        items.map_values(|it: LearningItem| healed_item(it)).map_values(
            |it: LearningItem| healed_item(it),
        ) == items.map_values(|it: LearningItem| healed_item(it)),
{
    let h = |it: LearningItem| healed_item(it);
    assert(items.map_values(h).map_values(h) =~= items.map_values(h)) by {
        assert forall|i: int| 0 <= i < items.len() implies items.map_values(h).map_values(h)[i]
            == items.map_values(h)[i] by {
            lemma_heal_idempotent(items[i]);
        }
    }
}

/// Validate and self-heal every item of the collection in place.
pub fn self_heal(db: &mut SrsDatabase)
    ensures
        final(db).version == old(db).version,
        final(db).last_updated == old(db).last_updated,
        final(db).items@.len() == old(db).items@.len(),
        forall|i: int| 0 <= i < old(db).items@.len() ==> final(db).items@[i] == healed_item(
            old(db).items@[i],
        ),
{
    let n = db.items.len();
    let mut i: usize = 0;
    while i < n
        invariant
            n == db.items@.len(),
            0 <= i <= n,
            db.version == old(db).version,
            db.last_updated == old(db).last_updated,
            db.items@.len() == old(db).items@.len(),
            forall|j: int| 0 <= j < i ==> db.items@[j] == healed_item(old(db).items@[j]),
            forall|j: int| i <= j < n ==> db.items@[j] == old(db).items@[j],
        decreases n - i,
    {
        let it = &mut db.items[i];
        if it.ease_micro < crate::sm2::EASE_FLOOR {
            it.ease_micro = crate::sm2::EASE_FLOOR;
        }
        if it.times_correct > it.times_quizzed {
            it.times_correct = it.times_quizzed;
        }
        let st = crate::sm2::compute_status(it.interval_micro, it.times_correct, it.times_quizzed);
        it.status = st;
        i = i + 1;
    }
}

/// An error naming the field the stored item text got wrong.
fn field_error(name: &str) -> (r: AppError)
    ensures
        r matches AppError::JsonError(_),
{
    let mut m = String::from_str("invalid or missing field ");
    m.append(name);
    AppError::JsonError(m)
}

// ------------------------------------------------------------------
// Reading side: what collection a JSON tree denotes.
// ------------------------------------------------------------------

/// The value of the last occurrence of `key` in an entry list — the
/// occurrence that wins when the entries are read in order.
pub open spec fn last_val(es: Seq<(Seq<char>, JModel)>, key: Seq<char>) -> Option<JModel>
    decreases es.len(),
{
    if es.len() == 0 {
        None
    } else if es.last().0 == key {
        Some(es.last().1)
    } else {
        last_val(es.drop_last(), key)
    }
}

/// A required string field.
pub open spec fn read_str(es: Seq<(Seq<char>, JModel)>, key: Seq<char>) -> Option<Seq<char>> {
    match last_val(es, key) {
        Some(JModel::Str(s)) => Some(s),
        _ => None,
    }
}

/// An optional string field: absent or null reads as nothing.
pub open spec fn read_opt_str(es: Seq<(Seq<char>, JModel)>, key: Seq<char>) -> Option<
    Option<Seq<char>>,
> {
    match last_val(es, key) {
        None => Some(None),
        Some(JModel::Null) => Some(None),
        Some(JModel::Str(s)) => Some(Some(s)),
        _ => None,
    }
}

/// A required instant field: an RFC 3339 string.
pub open spec fn read_ts(es: Seq<(Seq<char>, JModel)>, key: Seq<char>) -> Option<(int, int)> {
    match last_val(es, key) {
        Some(JModel::Str(s)) => rfc3339_parse(s),
        _ => None,
    }
}

/// An optional instant field: absent or null reads as nothing.
pub open spec fn read_opt_ts(es: Seq<(Seq<char>, JModel)>, key: Seq<char>) -> Option<
    Option<(int, int)>,
> {
    match last_val(es, key) {
        None => Some(None),
        Some(JModel::Null) => Some(None),
        Some(JModel::Str(s)) => match rfc3339_parse(s) {
            Some(t) => Some(Some(t)),
            None => None,
        },
        _ => None,
    }
}

/// A counter field, zero when absent.
pub open spec fn read_count(es: Seq<(Seq<char>, JModel)>, key: Seq<char>) -> Option<u32> {
    match last_val(es, key) {
        None => Some(0u32),
        Some(JModel::Num(s)) => parse_count_spec(s),
        _ => None,
    }
}

/// A fixed-point field with its default when absent.
pub open spec fn read_micro(es: Seq<(Seq<char>, JModel)>, key: Seq<char>, default: u64) -> Option<
    u64,
> {
    match last_val(es, key) {
        None => Some(default),
        Some(JModel::Num(s)) => parse_micro_spec(s),
        _ => None,
    }
}

/// The status field: `new` when absent or unrecognised (the repair pass
/// recomputes it anyway), an error when not a string.
pub open spec fn read_status(es: Seq<(Seq<char>, JModel)>) -> Option<Status> {
    match last_val(es, "status"@) {
        None => Some(Status::New),
        Some(JModel::Str(s)) => match label_status(s) {
            Some(st) => Some(st),
            None => Some(Status::New),
        },
        _ => None,
    }
}

/// The field names the item schema knows.
pub open spec fn known_item_key(k: Seq<char>) -> bool {
    ||| k == "id"@
    ||| k == "type"@
    ||| k == "front"@
    ||| k == "back"@
    ||| k == "context"@
    ||| k == "context_ja"@
    ||| k == "source"@
    ||| k == "created_at"@
    ||| k == "last_quizzed"@
    ||| k == "next_review"@
    ||| k == "times_quizzed"@
    ||| k == "times_correct"@
    ||| k == "ease_factor"@
    ||| k == "interval_days"@
    ||| k == "status"@
}

/// The unrecognised entries of an item object, in order.
pub open spec fn extra_entries(es: Seq<(Seq<char>, JModel)>) -> Seq<(Seq<char>, JModel)>
    decreases es.len(),
{
    if es.len() == 0 {
        Seq::empty()
    } else if known_item_key(es.last().0) {
        extra_entries(es.drop_last())
    } else {
        extra_entries(es.drop_last()).push(es.last())
    }
}

/// The view of an option of owned text.
pub open spec fn opt_view(o: Option<String>) -> Option<Seq<char>> {
    match o {
        Some(s) => Some(s@),
        None => None,
    }
}

/// The two numbers of an instant.
pub open spec fn ts_pair(t: Timestamp) -> (int, int) {
    (t.secs as int, t.nanos as int)
}

/// The two numbers of an optional instant.
pub open spec fn opt_ts_pair(o: Option<Timestamp>) -> Option<(int, int)> {
    match o {
        Some(t) => Some(ts_pair(t)),
        None => None,
    }
}

/// Whether an item object is well-formed for the schema: every reader
/// succeeds and every kept extra value can be written back as text.
pub open spec fn item_shape_ok(es: Seq<(Seq<char>, JModel)>) -> bool {
    &&& read_str(es, "id"@) is Some
    &&& read_str(es, "type"@) is Some
    &&& read_str(es, "front"@) is Some
    &&& read_str(es, "back"@) is Some
    &&& read_opt_str(es, "context"@) is Some
    &&& read_opt_str(es, "context_ja"@) is Some
    &&& read_opt_str(es, "source"@) is Some
    &&& read_ts(es, "created_at"@) is Some
    &&& read_opt_ts(es, "last_quizzed"@) is Some
    &&& read_ts(es, "next_review"@) is Some
    &&& read_count(es, "times_quizzed"@) is Some
    &&& read_count(es, "times_correct"@) is Some
    &&& read_micro(es, "ease_factor"@, 2_500_000) is Some
    &&& read_micro(es, "interval_days"@, 0) is Some
    &&& read_status(es) is Some
    &&& forall|k: int|
        0 <= k < extra_entries(es).len() ==> json_text_of(
            (#[trigger] extra_entries(es)[k]).1,
        ) is Some
}

/// Whether `it` is exactly the item the entry list describes, before the
/// repair pass: each field the corresponding reader's value, the extras
/// the unrecognised entries in order, each as its written text.
pub open spec fn item_parses(es: Seq<(Seq<char>, JModel)>, it: LearningItem) -> bool {
    &&& read_str(es, "id"@) == Some(it.id@)
    &&& read_str(es, "type"@) == Some(it.item_type@)
    &&& read_str(es, "front"@) == Some(it.front@)
    &&& read_str(es, "back"@) == Some(it.back@)
    &&& read_opt_str(es, "context"@) == Some(opt_view(it.context))
    &&& read_opt_str(es, "context_ja"@) == Some(opt_view(it.context_ja))
    &&& read_opt_str(es, "source"@) == Some(opt_view(it.source))
    &&& read_ts(es, "created_at"@) == Some(ts_pair(it.created_at))
    &&& read_opt_ts(es, "last_quizzed"@) == Some(opt_ts_pair(it.last_quizzed))
    &&& read_ts(es, "next_review"@) == Some(ts_pair(it.next_review))
    &&& read_count(es, "times_quizzed"@) == Some(it.times_quizzed)
    &&& read_count(es, "times_correct"@) == Some(it.times_correct)
    &&& read_micro(es, "ease_factor"@, 2_500_000) == Some(it.ease_micro)
    &&& read_micro(es, "interval_days"@, 0) == Some(it.interval_micro)
    &&& read_status(es) == Some(it.status)
    &&& it.extra@.len() == extra_entries(es).len()
    &&& forall|k: int|
        0 <= k < it.extra@.len() ==> (#[trigger] it.extra@[k]).0@ == extra_entries(es)[k].0
            && Some(it.extra@[k].1@) == json_text_of(extra_entries(es)[k].1)
}

/// The entry list of an object tree.
pub open spec fn obj_entries(m: JModel) -> Option<Seq<(Seq<char>, JModel)>> {
    match m {
        JModel::Obj(es) => Some(es),
        _ => None,
    }
}

/// The version tag: the schema default when absent.
pub open spec fn read_version(es: Seq<(Seq<char>, JModel)>) -> Option<Seq<char>> {
    match last_val(es, "version"@) {
        None => Some("1.0"@),
        Some(JModel::Str(s)) => Some(s),
        _ => None,
    }
}

/// The item array: empty when absent.
pub open spec fn read_items(es: Seq<(Seq<char>, JModel)>) -> Option<Seq<JModel>> {
    match last_val(es, "items"@) {
        None => Some(Seq::empty()),
        Some(JModel::Arr(a)) => Some(a),
        _ => None,
    }
}

/// Whether a whole tree is well-formed for the collection schema. Unknown
/// top-level fields are ignored (and so not kept).
pub open spec fn db_shape_ok(m: JModel) -> bool {
    &&& m is Obj
    &&& read_version(obj_entries(m)->0) is Some
    &&& read_opt_ts(obj_entries(m)->0, "last_updated"@) is Some
    &&& read_items(obj_entries(m)->0) is Some
    &&& forall|i: int|
        0 <= i < read_items(obj_entries(m)->0)->0.len() ==> (#[trigger] read_items(
            obj_entries(m)->0,
        )->0[i]) is Obj && item_shape_ok(obj_entries(read_items(obj_entries(m)->0)->0[i])->0)
}

/// Whether `db` is exactly the collection the tree describes, before the
/// repair pass.
pub open spec fn db_parses(m: JModel, db: SrsDatabase) -> bool {
    let es = obj_entries(m)->0;
    let its = read_items(es)->0;
    &&& db_shape_ok(m)
    &&& read_version(es) == Some(db.version@)
    &&& read_opt_ts(es, "last_updated"@) == Some(opt_ts_pair(db.last_updated))
    &&& db.items@.len() == its.len()
    &&& forall|i: int|
        0 <= i < its.len() ==> item_parses(obj_entries(#[trigger] its[i])->0, db.items@[i])
}

/// Whether a text denotes a well-formed collection.
pub open spec fn text_loads(s: Seq<char>) -> bool {
    match json_parse_of(s) {
        Some(m) => db_shape_ok(m),
        None => false,
    }
}

/// Whether `db` is exactly what loading the tree yields: the collection it
/// describes with the repair pass applied to every item.
pub open spec fn db_loads(m: JModel, db: SrsDatabase) -> bool {
    let es = obj_entries(m)->0;
    let its = read_items(es)->0;
    &&& db_shape_ok(m)
    &&& read_version(es) == Some(db.version@)
    &&& read_opt_ts(es, "last_updated"@) == Some(opt_ts_pair(db.last_updated))
    &&& db.items@.len() == its.len()
    &&& forall|i: int|
        0 <= i < its.len() ==> exists|pre: LearningItem|
            item_parses(obj_entries(#[trigger] its[i])->0, pre) && db.items@[i] == healed_item(pre)
}

/// The last occurrence in a concatenation is the second part's, else the
/// first part's.
proof fn lemma_last_val_append(a: Seq<(Seq<char>, JModel)>, b: Seq<(Seq<char>, JModel)>, key: Seq<char>)
    ensures
        last_val(a + b, key) == (match last_val(b, key) {
            Some(v) => Some(v),
            None => last_val(a, key),
        }),
    decreases b.len(),
{
    if b.len() == 0 {
        assert(a + b =~= a);
    } else {
        assert((a + b).drop_last() =~= a + b.drop_last());
        assert((a + b).last() == b.last());
        lemma_last_val_append(a, b.drop_last(), key);
    }
}

/// The last occurrence beats everything before it.
proof fn lemma_last_val_at(es: Seq<(Seq<char>, JModel)>, key: Seq<char>, i: int)
    requires
        0 <= i < es.len(),
        es[i].0 == key,
        forall|j: int| i < j < es.len() ==> (#[trigger] es[j]).0 != key,
    ensures
        last_val(es, key) == Some(es[i].1),
    decreases es.len(),
{
    if i + 1 == es.len() {
    } else {
        assert(es.drop_last()[i] == es[i]);
        lemma_last_val_at(es.drop_last(), key, i);
    }
}

/// With no occurrence at all, the reader finds nothing.
proof fn lemma_last_val_none(es: Seq<(Seq<char>, JModel)>, key: Seq<char>)
    requires
        forall|j: int| 0 <= j < es.len() ==> (#[trigger] es[j]).0 != key,
    ensures
        last_val(es, key) is None,
    decreases es.len(),
{
    if es.len() > 0 {
        lemma_last_val_none(es.drop_last(), key);
    }
}

/// Find the last entry with this key, scanning from the end.
pub(crate) fn find_last<'a>(es: &'a Vec<(String, JsonVal)>, key: &str) -> (r: Option<&'a JsonVal>)
    ensures
        r matches Some(v) ==> last_val(entries_model(es@), key@) == Some(jview(*v)),
        r is None ==> last_val(entries_model(es@), key@) is None,
{
    let n = es.len();
    let mut i: usize = n;
    while i > 0
        invariant
            n == es@.len(),
            0 <= i <= n,
            forall|j: int| i <= j < n ==> (#[trigger] entries_model(es@)[j]).0 != key@,
        decreases i,
    {
        i = i - 1;
        if crate::text::str_eq(es[i].0.as_str(), key) {
            proof {
                lemma_last_val_at(entries_model(es@), key@, i as int);
            }
            return Some(&es[i].1);
        }
        proof {
            assert(entries_model(es@)[i as int].0 == es@[i as int].0@);
        }
    }
    proof {
        lemma_last_val_none(entries_model(es@), key@);
    }
    None
}

/// Whether a field name is one the item schema knows.
fn is_known_item_key(k: &str) -> (r: bool)
    ensures
        r == known_item_key(k@),
{
    crate::text::str_eq(k, "id") || crate::text::str_eq(k, "type") || crate::text::str_eq(
        k,
        "front",
    ) || crate::text::str_eq(k, "back") || crate::text::str_eq(k, "context") || crate::text::str_eq(
        k,
        "context_ja",
    ) || crate::text::str_eq(k, "source") || crate::text::str_eq(k, "created_at")
        || crate::text::str_eq(k, "last_quizzed") || crate::text::str_eq(k, "next_review")
        || crate::text::str_eq(k, "times_quizzed") || crate::text::str_eq(k, "times_correct")
        || crate::text::str_eq(k, "ease_factor") || crate::text::str_eq(k, "interval_days")
        || crate::text::str_eq(k, "status")
}

/// A required string field, or the schema error.
pub(crate) fn get_str(es: &Vec<(String, JsonVal)>, key: &'static str) -> (r: Result<String, AppError>)
    ensures
        r matches Ok(s) ==> read_str(entries_model(es@), key@) == Some(s@),
        r is Err ==> read_str(entries_model(es@), key@) is None,
        r matches Err(e) ==> e matches AppError::JsonError(_),
{
    match find_last(es, key) {
        Some(JsonVal::Str(s)) => Ok(s.clone()),
        Some(_) => Err(field_error(key)),
        None => Err(field_error(key)),
    }
}

/// An optional string field, or the schema error.
pub(crate) fn get_opt_str(es: &Vec<(String, JsonVal)>, key: &'static str) -> (r: Result<
    Option<String>,
    AppError,
>)
    ensures
        r matches Ok(o) ==> read_opt_str(entries_model(es@), key@) == Some(opt_view(o)),
        r is Err ==> read_opt_str(entries_model(es@), key@) is None,
        r matches Err(e) ==> e matches AppError::JsonError(_),
{
    match find_last(es, key) {
        Some(JsonVal::Str(s)) => Ok(Some(s.clone())),
        Some(JsonVal::Null) => Ok(None),
        Some(_) => Err(field_error(key)),
        None => Ok(None),
    }
}

/// A required instant field, or the schema error.
fn get_ts(es: &Vec<(String, JsonVal)>, key: &'static str) -> (r: Result<Timestamp, AppError>)
    ensures
        r matches Ok(t) ==> read_ts(entries_model(es@), key@) == Some(ts_pair(t)),
        r is Err ==> read_ts(entries_model(es@), key@) is None,
        r matches Err(e) ==> e matches AppError::JsonError(_),
{
    match find_last(es, key) {
        Some(JsonVal::Str(s)) => match parse_rfc3339(s.as_str()) {
            Some(t) => Ok(t),
            None => Err(field_error(key)),
        },
        Some(_) => Err(field_error(key)),
        None => Err(field_error(key)),
    }
}

/// An optional instant field, or the schema error.
fn get_opt_ts(es: &Vec<(String, JsonVal)>, key: &'static str) -> (r: Result<
    Option<Timestamp>,
    AppError,
>)
    ensures
        r matches Ok(o) ==> read_opt_ts(entries_model(es@), key@) == Some(opt_ts_pair(o)),
        r is Err ==> read_opt_ts(entries_model(es@), key@) is None,
        r matches Err(e) ==> e matches AppError::JsonError(_),
{
    match find_last(es, key) {
        Some(JsonVal::Str(s)) => match parse_rfc3339(s.as_str()) {
            Some(t) => Ok(Some(t)),
            None => Err(field_error(key)),
        },
        Some(JsonVal::Null) => Ok(None),
        Some(_) => Err(field_error(key)),
        None => Ok(None),
    }
}

/// A counter field, or the schema error.
fn get_count(es: &Vec<(String, JsonVal)>, key: &'static str) -> (r: Result<u32, AppError>)
    ensures
        r matches Ok(n) ==> read_count(entries_model(es@), key@) == Some(n),
        r is Err ==> read_count(entries_model(es@), key@) is None,
        r matches Err(e) ==> e matches AppError::JsonError(_),
{
    match find_last(es, key) {
        Some(JsonVal::Num(s)) => match parse_count(s.as_str()) {
            Some(n) => Ok(n),
            None => Err(field_error(key)),
        },
        Some(_) => Err(field_error(key)),
        None => Ok(0),
    }
}

/// A fixed-point field, or the schema error.
fn get_micro(es: &Vec<(String, JsonVal)>, key: &'static str, default: u64) -> (r: Result<
    u64,
    AppError,
>)
    ensures
        r matches Ok(n) ==> read_micro(entries_model(es@), key@, default) == Some(n),
        r is Err ==> read_micro(entries_model(es@), key@, default) is None,
        r matches Err(e) ==> e matches AppError::JsonError(_),
{
    match find_last(es, key) {
        Some(JsonVal::Num(s)) => match parse_micro(s.as_str()) {
            Some(n) => Ok(n),
            None => Err(field_error(key)),
        },
        Some(_) => Err(field_error(key)),
        None => Ok(default),
    }
}

/// The status field, or the schema error.
fn get_status(es: &Vec<(String, JsonVal)>) -> (r: Result<Status, AppError>)
    ensures
        r matches Ok(st) ==> read_status(entries_model(es@)) == Some(st),
        r is Err ==> read_status(entries_model(es@)) is None,
        r matches Err(e) ==> e matches AppError::JsonError(_),
{
    match find_last(es, "status") {
        Some(JsonVal::Str(s)) => match Status::from_label(s.as_str()) {
            Some(st) => Ok(st),
            None => Ok(Status::New),
        },
        Some(_) => Err(field_error("status")),
        None => Ok(Status::New),
    }
}

/// A snoc step of the unrecognised-entry filter.
proof fn lemma_extra_snoc(es: Seq<(Seq<char>, JModel)>, p: (Seq<char>, JModel))
    ensures
        !known_item_key(p.0) ==> extra_entries(es.push(p)) == extra_entries(es).push(p),
        known_item_key(p.0) ==> extra_entries(es.push(p)) == extra_entries(es),
{
    assert(es.push(p).drop_last() =~= es);
    assert(es.push(p).last() == p);
}

/// Read one stored item from its object entries: succeeds exactly on a
/// well-formed item object, yielding exactly the item it describes.
fn parse_item(entries: &Vec<(String, JsonVal)>) -> (r: Result<LearningItem, AppError>)
    ensures
        (r is Ok) == item_shape_ok(entries_model(entries@)),
        r matches Ok(it) ==> item_parses(entries_model(entries@), it),
        r matches Err(e) ==> e matches AppError::JsonError(_),
{
    let ghost m = entries_model(entries@);
    let id = get_str(entries, "id")?;
    let item_type = get_str(entries, "type")?;
    let front = get_str(entries, "front")?;
    let back = get_str(entries, "back")?;
    let context = get_opt_str(entries, "context")?;
    let context_ja = get_opt_str(entries, "context_ja")?;
    let source = get_opt_str(entries, "source")?;
    let created_at = get_ts(entries, "created_at")?;
    let last_quizzed = get_opt_ts(entries, "last_quizzed")?;
    let next_review = get_ts(entries, "next_review")?;
    let times_quizzed = get_count(entries, "times_quizzed")?;
    let times_correct = get_count(entries, "times_correct")?;
    let ease_micro = get_micro(entries, "ease_factor", 2_500_000)?;
    let interval_micro = get_micro(entries, "interval_days", 0)?;
    let status = get_status(entries)?;

    let n = entries.len();
    let mut extra: Vec<(String, String)> = Vec::new();
    let mut i: usize = 0;
    while i < n
        invariant
            n == entries@.len(),
            0 <= i <= n,
            m == entries_model(entries@),
            extra@.len() == extra_entries(m.take(i as int)).len(),
            forall|k: int|
                0 <= k < extra@.len() ==> (#[trigger] extra@[k]).0@ == extra_entries(
                    m.take(i as int),
                )[k].0 && Some(extra@[k].1@) == json_text_of(extra_entries(m.take(i as int))[k].1),
        decreases n - i,
    {
        proof {
            assert(m.take(i as int + 1) =~= m.take(i as int).push(m[i as int]));
            lemma_extra_snoc(m.take(i as int), m[i as int]);
            assert(m[i as int] == (entries@[i as int].0@, jview(entries@[i as int].1)));
        }
        let pair = &entries[i];
        if !is_known_item_key(pair.0.as_str()) {
            match render_json_text(&pair.1) {
                Some(txt) => {
                    extra.push((pair.0.clone(), txt));
                },
                None => {
                    proof {
                        lemma_extra_prefix(m, i as int + 1);
                        let bad: int = extra_entries(m.take(i as int)).len() as int;
                        assert(extra_entries(m)[bad] == m[i as int]);
                        assert(json_text_of(extra_entries(m)[bad].1) is None);
                    }
                    return Err(field_error("extra"));
                },
            }
        }
        i = i + 1;
    }
    proof {
        assert(m.take(n as int) =~= m);
        assert(item_shape_ok(m)) by {
            assert forall|k: int| 0 <= k < extra_entries(m).len() implies json_text_of(
                (#[trigger] extra_entries(m)[k]).1,
            ) is Some by {
                assert(Some(extra@[k].1@) == json_text_of(extra_entries(m)[k].1));
            }
        }
    }
    Ok(
        LearningItem {
            id,
            item_type,
            front,
            back,
            context,
            context_ja,
            source,
            created_at,
            last_quizzed,
            next_review,
            times_quizzed,
            times_correct,
            ease_micro,
            interval_micro,
            status,
            extra,
        },
    )
}

/// The unrecognised entries of a prefix are a prefix of the unrecognised
/// entries of the whole.
proof fn lemma_extra_prefix(es: Seq<(Seq<char>, JModel)>, j: int)
    requires
        0 <= j <= es.len(),
    ensures
        extra_entries(es.take(j)).len() <= extra_entries(es).len(),
        forall|k: int|
            0 <= k < extra_entries(es.take(j)).len() ==> #[trigger] extra_entries(es)[k]
                == extra_entries(es.take(j))[k],
    decreases es.len() - j,
{
    if j < es.len() {
        assert(es.take(j + 1) =~= es.take(j).push(es[j]));
        lemma_extra_snoc(es.take(j), es[j]);
        lemma_extra_prefix(es, j + 1);
    } else {
        assert(es.take(j) =~= es);
    }
}

/// Read the collection from its parsed JSON tree: succeeds exactly on a
/// well-formed collection tree, yielding exactly the collection it
/// describes (not yet repaired).
fn parse_database(j: &JsonVal) -> (r: Result<SrsDatabase, AppError>)
    ensures
        (r is Ok) == db_shape_ok(jview(*j)),
        r matches Ok(db) ==> db_parses(jview(*j), db),
        r matches Err(e) ==> e matches AppError::JsonError(_),
{
    let entries = match j {
        JsonVal::Obj(entries) => entries,
        _ => {
            return Err(field_error("collection"));
        },
    };
    proof {
        assert(jview(*j)->Obj_0 =~= entries_model(entries@));
        assert(obj_entries(jview(*j)) == Some(entries_model(entries@)));
    }
    let ghost m = entries_model(entries@);
    let version: String = match find_last(entries, "version") {
        Some(JsonVal::Str(s)) => s.clone(),
        Some(_) => {
            return Err(field_error("version"));
        },
        None => crate::default_version(),
    };
    proof {
        assert(read_version(m) == Some(version@));
    }
    let last_updated = match find_last(entries, "last_updated") {
        Some(JsonVal::Str(s)) => match parse_rfc3339(s.as_str()) {
            Some(t) => Some(t),
            None => {
                return Err(field_error("last_updated"));
            },
        },
        Some(JsonVal::Null) => None,
        Some(_) => {
            return Err(field_error("last_updated"));
        },
        None => None,
    };
    proof {
        assert(read_opt_ts(m, "last_updated"@) == Some(opt_ts_pair(last_updated)));
    }
    let raw_items: &Vec<JsonVal> = match find_last(entries, "items") {
        Some(JsonVal::Arr(a)) => a,
        Some(_) => {
            return Err(field_error("items"));
        },
        None => {
            let db = SrsDatabase { version, last_updated, items: Vec::new() };
            proof {
                assert(read_items(m) == Some(Seq::<JModel>::empty()));
            }
            return Ok(db);
        },
    };
    let ghost marr = read_items(m)->0;
    proof {
        assert(marr.len() == raw_items@.len());
        assert(forall|k: int| 0 <= k < marr.len() ==> #[trigger] marr[k] == jview(
            raw_items@[k],
        ));
    }
    let rn = raw_items.len();
    let mut items: Vec<LearningItem> = Vec::new();
    let mut i: usize = 0;
    while i < rn
        invariant
            rn == raw_items@.len(),
            0 <= i <= rn,
            m == entries_model(entries@),
            obj_entries(jview(*j)) == Some(m),
            read_version(m) is Some,
            read_opt_ts(m, "last_updated"@) is Some,
            read_items(m) == Some(marr),
            forall|k: int| 0 <= k < marr.len() ==> #[trigger] marr[k] == jview(raw_items@[k]),
            marr.len() == rn,
            items@.len() == i,
            forall|k: int|
                0 <= k < i ==> (#[trigger] marr[k]) is Obj && item_shape_ok(obj_entries(marr[k])->0)
                    && item_parses(obj_entries(marr[k])->0, items@[k]),
        decreases rn - i,
    {
        let ientries = match &raw_items[i] {
            JsonVal::Obj(es) => es,
            _ => {
                proof {
                    assert(marr[i as int] == jview(raw_items@[i as int]));
                    assert(!(marr[i as int] is Obj));
                    assert(!db_shape_ok(jview(*j)));
                }
                return Err(field_error("items"));
            },
        };
        proof {
            assert(marr[i as int] == jview(raw_items@[i as int]));
            assert(jview(raw_items@[i as int])->Obj_0 =~= entries_model(ientries@));
            assert(obj_entries(marr[i as int]) == Some(entries_model(ientries@)));
        }
        match parse_item(ientries) {
            Ok(it) => {
                items.push(it);
            },
            Err(e) => {
                proof {
                    assert(!item_shape_ok(obj_entries(marr[i as int])->0));
                    assert(!db_shape_ok(jview(*j)));
                }
                return Err(e);
            },
        }
        i = i + 1;
    }
    proof {
        assert(db_shape_ok(jview(*j)));
    }
    Ok(SrsDatabase { version, last_updated, items })
}

// ------------------------------------------------------------------
// Writing side: what tree a collection serialises to.
// ------------------------------------------------------------------

/// Whether one item can be written: its instants lie in the representable
/// calendar and each kept extra field is well-formed JSON text.
pub open spec fn item_savable(it: LearningItem) -> bool {
    &&& ts_writable(it.created_at)
    &&& (it.last_quizzed matches Some(t) ==> ts_writable(t))
    &&& ts_writable(it.next_review)
    &&& forall|k: int|
        0 <= k < it.extra@.len() ==> json_parse_of((#[trigger] it.extra@[k]).1@) is Some
}

/// The wire entries of one stored item, in wire order: the known fields
/// (skipping absent example fields, writing an absent quiz instant as
/// null), then the kept extras, each parsed back from its text.
pub open spec fn item_wire_entries(it: LearningItem) -> Seq<(Seq<char>, JModel)> {
    let head: Seq<(Seq<char>, JModel)> = seq![
        ("id"@, JModel::Str(it.id@)),
        ("type"@, JModel::Str(it.item_type@)),
        ("front"@, JModel::Str(it.front@)),
        ("back"@, JModel::Str(it.back@)),
    ];
    let ctx: Seq<(Seq<char>, JModel)> = match it.context {
        Some(s) => seq![("context"@, JModel::Str(s@))],
        None => Seq::empty(),
    };
    let ctx_ja: Seq<(Seq<char>, JModel)> = match it.context_ja {
        Some(s) => seq![("context_ja"@, JModel::Str(s@))],
        None => Seq::empty(),
    };
    let src: Seq<(Seq<char>, JModel)> = match it.source {
        Some(s) => seq![("source"@, JModel::Str(s@))],
        None => Seq::empty(),
    };
    let lq: JModel = match it.last_quizzed {
        Some(t) => JModel::Str(rfc3339_of(t.secs as int, t.nanos as int)->0),
        None => JModel::Null,
    };
    let tail: Seq<(Seq<char>, JModel)> = seq![
        ("created_at"@, JModel::Str(rfc3339_of(it.created_at.secs as int, it.created_at.nanos as int)->0)),
        ("last_quizzed"@, lq),
        ("next_review"@, JModel::Str(rfc3339_of(it.next_review.secs as int, it.next_review.nanos as int)->0)),
        ("times_quizzed"@, JModel::Num(dec_digits(it.times_quizzed as int))),
        ("times_correct"@, JModel::Num(dec_digits(it.times_correct as int))),
        ("ease_factor"@, JModel::Num(micro_text(it.ease_micro as int))),
        ("interval_days"@, JModel::Num(micro_text(it.interval_micro as int))),
        ("status"@, JModel::Str(status_label(it.status))),
    ];
    let extras: Seq<(Seq<char>, JModel)> = Seq::new(
        it.extra@.len(),
        |k: int| (it.extra@[k].0@, json_parse_of(it.extra@[k].1@)->0),
    );
    head + ctx + ctx_ja + src + tail + extras
}

/// The wire tree of the whole collection.
pub open spec fn db_wire_tree(db: SrsDatabase) -> JModel {
    let lu: JModel = match db.last_updated {
        Some(t) => JModel::Str(rfc3339_of(t.secs as int, t.nanos as int)->0),
        None => JModel::Null,
    };
    JModel::Obj(
        seq![
            ("version"@, JModel::Str(db.version@)),
            ("last_updated"@, lu),
            ("items"@, JModel::Arr(
                Seq::new(db.items@.len(), |i: int| JModel::Obj(item_wire_entries(db.items@[i]))),
            )),
        ],
    )
}

/// The object entries of one stored item, in wire order; `None` exactly
/// when the item cannot be written. On success the entries' view is the
/// item's wire form, and every value in it can be rendered.
#[verifier::rlimit(100)]
fn build_item(it: &LearningItem) -> (r: Option<Vec<(String, JsonVal)>>)
    ensures
        (r is Some) == item_savable(*it),
        r matches Some(es) ==> entries_model(es@) == item_wire_entries(*it),
        r matches Some(es) ==> forall|k: int|
            0 <= k < es@.len() ==> renderable(jview((#[trigger] es@[k]).1)),
{
    let mut es: Vec<(String, JsonVal)> = Vec::new();
    es.push((String::from_str("id"), JsonVal::Str(it.id.clone())));
    es.push((String::from_str("type"), JsonVal::Str(it.item_type.clone())));
    es.push((String::from_str("front"), JsonVal::Str(it.front.clone())));
    es.push((String::from_str("back"), JsonVal::Str(it.back.clone())));
    match &it.context {
        Some(s) => {
            es.push((String::from_str("context"), JsonVal::Str(s.clone())));
        },
        None => {},
    }
    match &it.context_ja {
        Some(s) => {
            es.push((String::from_str("context_ja"), JsonVal::Str(s.clone())));
        },
        None => {},
    }
    match &it.source {
        Some(s) => {
            es.push((String::from_str("source"), JsonVal::Str(s.clone())));
        },
        None => {},
    }
    let created = match format_rfc3339(&it.created_at) {
        Some(s) => s,
        None => {
            return None;
        },
    };
    es.push((String::from_str("created_at"), JsonVal::Str(created)));
    match &it.last_quizzed {
        Some(t) => {
            let s = match format_rfc3339(t) {
                Some(s) => s,
                None => {
                    return None;
                },
            };
            es.push((String::from_str("last_quizzed"), JsonVal::Str(s)));
        },
        None => {
            es.push((String::from_str("last_quizzed"), JsonVal::Null));
        },
    }
    let next = match format_rfc3339(&it.next_review) {
        Some(s) => s,
        None => {
            return None;
        },
    };
    es.push((String::from_str("next_review"), JsonVal::Str(next)));
    proof {
        lemma_plain_decimal_int(it.times_quizzed as int);
        lemma_plain_decimal_int(it.times_correct as int);
    }
    es.push((String::from_str("times_quizzed"), JsonVal::Num(format_u64(it.times_quizzed as u64))));
    es.push((String::from_str("times_correct"), JsonVal::Num(format_u64(it.times_correct as u64))));
    es.push((String::from_str("ease_factor"), JsonVal::Num(format_micro(it.ease_micro))));
    es.push((String::from_str("interval_days"), JsonVal::Num(format_micro(it.interval_micro))));
    es.push((String::from_str("status"), JsonVal::Str(it.status.label())));
    let ghost known_len = es@.len();
    proof {
        let w = item_wire_entries(*it);
        assert(entries_model(es@) =~= w.take(known_len as int));
        assert(forall|k: int|
            0 <= k < es@.len() ==> renderable(jview((#[trigger] es@[k]).1)));
    }
    let xn = it.extra.len();
    let mut xi: usize = 0;
    while xi < xn
        invariant
            xn == it.extra@.len(),
            0 <= xi <= xn,
            es@.len() == known_len + xi,
            known_len + xn == item_wire_entries(*it).len(),
            entries_model(es@) == item_wire_entries(*it).take(es@.len() as int),
            forall|k: int| 0 <= k < es@.len() ==> renderable(jview((#[trigger] es@[k]).1)),
            forall|k: int| 0 <= k < xi ==> json_parse_of((#[trigger] it.extra@[k]).1@) is Some,
        decreases xn - xi,
    {
        let pair = &it.extra[xi];
        match parse_json_text(pair.1.as_str()) {
            Ok(v) => {
                let ghost pre = es@;
                es.push((pair.0.clone(), v));
                proof {
                    let w = item_wire_entries(*it);
                    assert(w[known_len + xi] == (it.extra@[xi as int].0@, json_parse_of(
                        it.extra@[xi as int].1@,
                    )->0));
                    assert(entries_model(es@) =~= w.take(es@.len() as int)) by {
                        assert(entries_model(pre) == w.take(pre.len() as int));
                        assert forall|k: int| 0 <= k < es@.len() implies entries_model(es@)[k]
                            == w.take(es@.len() as int)[k] by {
                            if k < pre.len() {
                                assert(entries_model(es@)[k] == entries_model(pre)[k]);
                            }
                        }
                    }
                }
            },
            Err(_) => {
                return None;
            },
        }
        xi = xi + 1;
    }
    proof {
        assert(item_wire_entries(*it).take(es@.len() as int) =~= item_wire_entries(*it));
    }
    Some(es)
}

/// Whether a collection can be written at all.
pub open spec fn db_savable(db: SrsDatabase) -> bool {
    &&& (db.last_updated matches Some(t) ==> ts_writable(t))
    &&& forall|i: int| 0 <= i < db.items@.len() ==> item_savable(#[trigger] db.items@[i])
}

/// The full JSON tree of the collection; `None` exactly when it cannot be
/// written. On success the tree's view is the collection's wire form.
fn build_database(db: &SrsDatabase) -> (r: Option<JsonVal>)
    ensures
        (r is Some) == db_savable(*db),
        r matches Some(j) ==> jview(j) == db_wire_tree(*db),
        r matches Some(j) ==> renderable(jview(j)),
{
    let lu: JsonVal = match &db.last_updated {
        Some(t) => {
            let s = match format_rfc3339(t) {
                Some(s) => s,
                None => {
                    return None;
                },
            };
            JsonVal::Str(s)
        },
        None => JsonVal::Null,
    };
    let ghost glu = jview(lu);
    let n = db.items.len();
    let mut arr: Vec<JsonVal> = Vec::new();
    let mut i: usize = 0;
    while i < n
        invariant
            n == db.items@.len(),
            0 <= i <= n,
            arr@.len() == i,
            forall|k: int| 0 <= k < i ==> jview(#[trigger] arr@[k]) == JModel::Obj(
                item_wire_entries(db.items@[k]),
            ),
            forall|k: int| 0 <= k < i ==> renderable(jview(#[trigger] arr@[k])),
            forall|k: int| 0 <= k < i ==> item_savable(#[trigger] db.items@[k]),
        decreases n - i,
    {
        let es = match build_item(&db.items[i]) {
            Some(es) => es,
            None => {
                return None;
            },
        };
        let ghost ges = es@;
        arr.push(JsonVal::Obj(es));
        proof {
            let built = arr@[i as int];
            assert(jview(built)->Obj_0 =~= entries_model(ges));
            assert(jview(built) == JModel::Obj(entries_model(ges)));
            assert(renderable(jview(built))) by {
                assert forall|k: int| 0 <= k < entries_model(ges).len() implies renderable(
                    (#[trigger] entries_model(ges)[k]).1,
                ) by {
                    assert(entries_model(ges)[k].1 == jview(ges[k].1));
                }
            }
        }
        i = i + 1;
    }
    let ghost garr = arr@;
    let items_val = JsonVal::Arr(arr);
    proof {
        let sq = jview(items_val)->Arr_0;
        assert(sq.len() == garr.len());
        assert(forall|k: int| 0 <= k < garr.len() ==> #[trigger] sq[k] == jview(garr[k]));
        assert(sq =~= Seq::new(
            db.items@.len(),
            |k: int| JModel::Obj(item_wire_entries(db.items@[k])),
        ));
        assert(renderable(jview(items_val))) by {
            assert forall|k: int| 0 <= k < sq.len() implies renderable(#[trigger] sq[k]) by {
                assert(sq[k] == jview(garr[k]));
            }
        }
    }
    let ghost gitems = jview(items_val);
    let ver = JsonVal::Str(db.version.clone());
    let ghost gver = jview(ver);
    let mut top: Vec<(String, JsonVal)> = Vec::new();
    top.push((String::from_str("version"), ver));
    top.push((String::from_str("last_updated"), lu));
    top.push((String::from_str("items"), items_val));
    proof {
        assert(top@.len() == 3);
        assert(jview(top@[0].1) == gver);
        assert(jview(top@[1].1) == glu);
        assert(jview(top@[2].1) == gitems);
    }
    let ghost gtop = top@;
    let r = JsonVal::Obj(top);
    proof {
        assert(jview(r)->Obj_0 =~= entries_model(gtop));
        assert(jview(r) == JModel::Obj(entries_model(gtop)));
        assert(entries_model(gtop) =~= db_wire_tree(*db)->Obj_0);
        assert(jview(r) == db_wire_tree(*db));
        assert(renderable(jview(r))) by {
            assert forall|k: int| 0 <= k < entries_model(gtop).len() implies renderable(
                (#[trigger] entries_model(gtop)[k]).1,
            ) by {
                assert(entries_model(gtop)[k].1 == jview(gtop[k].1));
                if k == 0 {
                    assert(jview(gtop[0].1) == gver);
                } else if k == 1 {
                    assert(jview(gtop[1].1) == glu);
                } else {
                    assert(jview(gtop[2].1) == gitems);
                }
            }
        }
    }
    Some(r)
}

/// Serialise the collection for saving: stamp its last-updated instant to
/// `now` and return the JSON text to be written to disk — exactly the
/// named rendering of the collection's wire tree. Succeeds exactly when
/// `now` and every item can be written; the items themselves are never
/// changed.
pub fn save(db: &mut SrsDatabase, now: Timestamp) -> (r: Result<String, AppError>)
    ensures
        final(db).version == old(db).version,
        final(db).items@ == old(db).items@,
        final(db).last_updated == Some(now),
        (r is Ok) == (ts_writable(now) && forall|i: int|
            0 <= i < old(db).items@.len() ==> item_savable(#[trigger] old(db).items@[i])),
        r matches Ok(s) ==> json_text_of(db_wire_tree(*final(db))) == Some(s@),
        r matches Err(e) ==> e matches AppError::JsonError(_),
{
    db.last_updated = Some(now);
    proof {
        assert(db.items@ == old(db).items@);
        assert forall|i: int| 0 <= i < old(db).items@.len() implies item_savable(
            #[trigger] old(db).items@[i],
        ) == item_savable(db.items@[i]) by {
            assert(old(db).items@[i] == db.items@[i]);
        }
    }
    let tree = build_database(db);
    match tree {
        None => Err(field_error("collection instant")),
        Some(j) => {
            match render_json_text(&j) {
                Some(s) => Ok(s),
                None => {
                    // Unreachable: every number the builder wrote is a
                    // plain decimal, so the tree is renderable.
                    proof {
                        assert(false);
                    }
                    Err(field_error("collection"))
                },
            }
        },
    }
}

/// Load the collection from the data file's contents, or from its absence
/// (`None`): absence means first use and yields a fresh empty collection
/// stamped with `now`; contents must denote a well-formed collection,
/// which comes back with the repair pass applied to every item.
pub fn load(contents: Option<&str>, now: Timestamp) -> (r: Result<SrsDatabase, AppError>)
    ensures
        contents is None ==> (r matches Ok(db) && db.version@ == "1.0"@ && db.last_updated
            == Some(now) && db.items@.len() == 0),
        contents matches Some(text) ==> (r is Ok) == text_loads(text@),
        contents matches Some(text) ==> (r matches Ok(db) ==> (json_parse_of(text@) matches Some(m)
            && db_loads(m, db) && db_healed(db))),
        r matches Err(e) ==> e matches AppError::JsonError(_),
{
    match contents {
        None => Ok(SrsDatabase::new(now)),
        Some(text) => load_text(text),
    }
}

/// Load the collection from the data file's contents, failing on a missing
/// file: `None` means the file was absent and is a hard `NoDataFile`
/// failure naming the path. On contents it behaves exactly as `load`.
pub fn load_existing(contents: Option<&str>, path: &str) -> (r: Result<SrsDatabase, AppError>)
    ensures
        contents is None ==> (r matches Err(e) && e matches AppError::NoDataFile(p) && p@
            == path@),
        contents matches Some(text) ==> (r is Ok) == text_loads(text@),
        contents matches Some(text) ==> (r matches Ok(db) ==> (json_parse_of(text@) matches Some(m)
            && db_loads(m, db) && db_healed(db))),
        contents matches Some(text) ==> (r matches Err(e) ==> e matches AppError::JsonError(_)),
{
    match contents {
        None => Err(AppError::NoDataFile(String::from_str(path))),
        Some(text) => load_text(text),
    }
}

/// Parse and repair the collection text.
fn load_text(text: &str) -> (r: Result<SrsDatabase, AppError>)
    ensures
        (r is Ok) == text_loads(text@),
        r matches Ok(db) ==> (json_parse_of(text@) matches Some(m) && db_loads(m, db) && db_healed(
            db,
        )),
        r matches Err(e) ==> e matches AppError::JsonError(_),
{
    let j = match parse_json_text(text) {
        Ok(j) => j,
        Err(m) => {
            return Err(AppError::JsonError(m));
        },
    };
    let mut db = match parse_database(&j) {
        Ok(db) => db,
        Err(e) => {
            return Err(e);
        },
    };
    let ghost parsed = db;
    let ghost m = jview(j);
    self_heal(&mut db);
    proof {
        assert forall|i: int| 0 <= i < db.items@.len() implies item_healed(
            #[trigger] db.items@[i],
        ) by {
            lemma_heal_idempotent(parsed.items@[i]);
        }
        let its = read_items(obj_entries(m)->0)->0;
        assert(db_loads(m, db)) by {
            assert forall|i: int| 0 <= i < its.len() implies exists|pre: LearningItem|
                item_parses(obj_entries(#[trigger] its[i])->0, pre) && db.items@[i] == healed_item(
                    pre,
                ) by {
                let pre = parsed.items@[i];
                assert(item_parses(obj_entries(its[i])->0, pre) && db.items@[i] == healed_item(
                    pre,
                ));
            }
        }
    }
    Ok(db)
}

} // verus!
