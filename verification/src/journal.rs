//! The text log behind the store: one line `key: text` per write, the
//! line `key: __DELETED__` per removal; reading the log back rebuilds the map.

use vstd::prelude::*;

use crate::db_types::{
    int_text, is_digit, lemma_int_text_round_trip, lemma_nat_text, nat_text, value_from_text,
    DataValue,
};

verus! {

/// The text of a removal record.
pub open spec fn tombstone() -> Seq<char> {
    "__DELETED__"@
}

/// The first index `p >= i` where `line` holds the separator `": "`, or -1.
pub open spec fn find_sep(line: Seq<char>, i: int) -> int
    decreases line.len() - i,
{
    if i < 0 || i + 1 >= line.len() {
        -1
    } else if line[i] == ':' && line[i + 1] == ' ' {
        i
    } else {
        find_sep(line, i + 1)
    }
}

/// What one record does to the map: a removal of `k` if `t` is the removal
/// mark (and removals are honoured), else a binding of `k` to the value `t` reads as.
pub open spec fn apply_record(
    m: Map<Seq<char>, DataValue>,
    k: Seq<char>,
    t: Seq<char>,
    tombstones: bool,
) -> Map<Seq<char>, DataValue> {
    if tombstones && t == tombstone() {
        m.remove(k)
    } else {
        m.insert(k, value_from_text(t))
    }
}

/// What one line of the log does to the map: a line is split at its first
/// `": "` into key and text; a line without one changes nothing.
pub open spec fn apply_line(m: Map<Seq<char>, DataValue>, line: Seq<char>, tombstones: bool) -> Map<
    Seq<char>,
    DataValue,
> {
    let p = find_sep(line, 0);
    if p < 0 {
        m
    } else {
        apply_record(m, line.subrange(0, p), line.subrange(p + 2, line.len() as int), tombstones)
    }
}

/// A line ended by `"\r\n"` loses the `'\r'` as well.
pub open spec fn strip_cr(l: Seq<char>) -> Seq<char> {
    if l.len() > 0 && l.last() == '\r' {
        l.drop_last()
    } else {
        l
    }
}

/// Reading `s` left to right: the map built from its complete lines, and the
/// unfinished last line.
pub open spec fn scan(s: Seq<char>, tombstones: bool) -> (Map<Seq<char>, DataValue>, Seq<char>)
    decreases s.len(),
{
    if s.len() == 0 {
        (Map::empty(), seq![])
    } else {
        let prev = scan(s.drop_last(), tombstones);
        if s.last() == '\n' {
            (apply_line(prev.0, strip_cr(prev.1), tombstones), seq![])
        } else {
            (prev.0, prev.1.push(s.last()))
        }
    }
}

/// The map that the log `s` rebuilds (lines as `BufRead::lines` yields them:
/// a last line without `'\n'` counts when it is not empty).
pub open spec fn replay(s: Seq<char>, tombstones: bool) -> Map<Seq<char>, DataValue> {
    let r = scan(s, tombstones);
    if r.1.len() > 0 {
        apply_line(r.0, r.1, tombstones)
    } else {
        r.0
    }
}

/// The record line for binding `k` to the text `t`.
pub open spec fn record(k: Seq<char>, t: Seq<char>) -> Seq<char> {
    k + seq![':', ' '] + t + seq!['\n']
}

/// The log ends at a line boundary.
pub open spec fn log_complete(s: Seq<char>) -> bool {
    s.len() == 0 || s.last() == '\n'
}

/// A key that a record can carry: no line break, no `": "` inside.
pub open spec fn key_fits(k: Seq<char>) -> bool {
    &&& !k.contains('\n')
    &&& forall|i: int| 0 <= i < k.len() - 1 ==> !(#[trigger] k[i] == ':' && k[i + 1] == ' ')
}

/// A text that a record can carry: no line break, and no `'\r'` at its end.
pub open spec fn text_fits(t: Seq<char>) -> bool {
    &&& !t.contains('\n')
    &&& !(t.len() > 0 && t.last() == '\r')
}

// ---------------------------------------------------------------- lemmas

pub proof fn lemma_scan_append_partial(s: Seq<char>, t: Seq<char>, tombstones: bool)
    requires
        !t.contains('\n'),
    ensures
        scan(s + t, tombstones).0 == scan(s, tombstones).0,
        scan(s + t, tombstones).1 == scan(s, tombstones).1 + t,
    decreases t.len(),
{
    if t.len() == 0 {
        assert(s + t =~= s);
    } else {
        let t2 = t.drop_last();
        assert(!t2.contains('\n')) by {
            if t2.contains('\n') {
                let i = choose|i: int| 0 <= i < t2.len() && t2[i] == '\n';
                assert(t[i] == '\n');
            }
        }
        lemma_scan_append_partial(s, t2, tombstones);
        assert((s + t).drop_last() =~= s + t2);
        assert((s + t).last() == t.last());
        assert(t.last() != '\n') by {
            assert(t[t.len() - 1] == t.last());
        }
        assert(scan(s, tombstones).1 + t2 + seq![t.last()] =~= scan(s, tombstones).1 + t);
    }
}

pub proof fn lemma_find_sep_record(k: Seq<char>, t: Seq<char>, i: int)
    requires
        key_fits(k),
        0 <= i <= k.len(),
    ensures
        find_sep(k + seq![':', ' '] + t, i) == k.len(),
    decreases k.len() - i,
{
    let line = k + seq![':', ' '] + t;
    if i < k.len() {
        lemma_find_sep_record(k, t, i + 1);
        assert(line[i] == k[i]);
        if i + 1 < k.len() {
            assert(line[i + 1] == k[i + 1]);
        } else {
            assert(line[i + 1] == ':');
        }
    } else {
        assert(line[i] == ':' && line[i + 1] == ' ');
    }
}

/// A log that ends at a line boundary, extended by one record, rebuilds the
/// map of the log changed by that record.
pub proof fn lemma_replay_record(log: Seq<char>, k: Seq<char>, t: Seq<char>, tombstones: bool)
    requires
        log_complete(log),
        key_fits(k),
        text_fits(t),
    ensures
        replay(log + record(k, t), tombstones) == apply_record(
            replay(log, tombstones),
            k,
            t,
            tombstones,
        ),
        log_complete(log + record(k, t)),
{
    let body = k + seq![':', ' '] + t;
    assert(scan(log, tombstones).1 =~= Seq::<char>::empty()) by {
        if log.len() > 0 {
            assert(log.last() == '\n');
        }
    }
    assert(!body.contains('\n')) by {
        if body.contains('\n') {
            let i = choose|i: int| 0 <= i < body.len() && body[i] == '\n';
            if i < k.len() {
                assert(k[i] == '\n');
            } else if i >= k.len() + 2 {
                assert(t[i - k.len() - 2] == '\n');
            }
        }
    }
    lemma_scan_append_partial(log, body, tombstones);
    let full = log + record(k, t);
    assert(full =~= (log + body).push('\n'));
    assert(full.drop_last() =~= log + body);
    assert(scan(log, tombstones).1 + body =~= body);
    assert(strip_cr(body) == body) by {
        if t.len() > 0 {
            assert(body.last() == t.last());
        } else {
            assert(body.last() == ' ');
        }
    }
    lemma_find_sep_record(k, t, 0);
    assert(body.subrange(0, k.len() as int) =~= k);
    assert(body.subrange(k.len() as int + 2, body.len() as int) =~= t);
}


/// The records of the keys `ks`, in that order, each with its value's text in `m`.
pub open spec fn records_of(ks: Seq<Seq<char>>, m: Map<Seq<char>, DataValue>) -> Seq<char>
    decreases ks.len(),
{
    if ks.len() == 0 {
        seq![]
    } else {
        records_of(ks.drop_last(), m) + record(ks.last(), m[ks.last()].text())
    }
}

/// What a map becomes when it is written out and read back: each value
/// becomes what its text reads as; a value whose text is the removal mark is lost.
pub open spec fn reloaded(m: Map<Seq<char>, DataValue>) -> Map<Seq<char>, DataValue> {
    Map::new(
        |k: Seq<char>| m.contains_key(k) && m[k].text() != tombstone(),
        |k: Seq<char>| value_from_text(m[k].text()),
    )
}

/// The removal mark fits in a record.
pub proof fn lemma_tombstone_fits()
    ensures
        text_fits(tombstone()),
        tombstone().len() == 11,
        tombstone()[0] == '_',
{
    reveal_strlit("__DELETED__");
    assert(!tombstone().contains('\n')) by {
        if tombstone().contains('\n') {
            let i = choose|i: int| 0 <= i < tombstone().len() && tombstone()[i] == '\n';
        }
    }
}

proof fn lemma_records_complete(ks: Seq<Seq<char>>, m: Map<Seq<char>, DataValue>)
    ensures
        log_complete(records_of(ks, m)),
    decreases ks.len(),
{
    if ks.len() > 0 {
        let r = records_of(ks, m);
        assert(r.last() == '\n');
    }
}

/// Writing out the entries of `m` for the keys `ks` and reading them back
/// gives the entries of `reloaded(m)` for those keys.
proof fn lemma_records_replay(ks: Seq<Seq<char>>, m: Map<Seq<char>, DataValue>)
    requires
        ks.no_duplicates(),
        forall|i: int| 0 <= i < ks.len() ==> m.contains_key(#[trigger] ks[i]),
        forall|k: Seq<char>| #[trigger] m.contains_key(k) ==> key_fits(k) && text_fits(m[k].text()),
    ensures
        replay(records_of(ks, m), true) =~= Map::new(
            |k: Seq<char>| ks.contains(k) && m[k].text() != tombstone(),
            |k: Seq<char>| value_from_text(m[k].text()),
        ),
    decreases ks.len(),
{
    if ks.len() == 0 {
        assert(replay(seq![], true) =~= Map::<Seq<char>, DataValue>::empty());
    } else {
        let pre = ks.drop_last();
        let k = ks.last();
        assert(pre.no_duplicates()) by {
            assert forall|i: int, j: int| 0 <= i < j < pre.len() implies pre[i] != pre[j] by {
                assert(pre[i] == ks[i] && pre[j] == ks[j]);
            }
        }
        assert forall|i: int| 0 <= i < pre.len() implies m.contains_key(#[trigger] pre[i]) by {
            assert(pre[i] == ks[i]);
        }
        lemma_records_replay(pre, m);
        lemma_records_complete(pre, m);
        assert(m.contains_key(ks[ks.len() - 1]));
        lemma_replay_record(records_of(pre, m), k, m[k].text(), true);
        assert(!pre.contains(k)) by {
            if pre.contains(k) {
                let i = choose|i: int| 0 <= i < pre.len() && pre[i] == k;
                assert(ks[i] == ks[ks.len() - 1]);
            }
        }
        assert forall|x: Seq<char>| ks.contains(x) <==> pre.contains(x) || x == k by {
            if ks.contains(x) && x != k {
                let i = choose|i: int| 0 <= i < ks.len() && ks[i] == x;
                assert(pre[i] == x);
            }
            if pre.contains(x) {
                let i = choose|i: int| 0 <= i < pre.len() && pre[i] == x;
                assert(ks[i] == x);
            }
            if x == k {
                assert(ks[ks.len() - 1] == x);
            }
        }
    }
}

/// Compaction keeps what a restart would see: the records of every entry of
/// `m`, in any order that lists each key once, read back as `reloaded(m)`.
pub proof fn lemma_compact_replays(ks: Seq<Seq<char>>, m: Map<Seq<char>, DataValue>)
    requires
        ks.no_duplicates(),
        forall|k: Seq<char>| #[trigger] m.contains_key(k) <==> ks.contains(k),
        forall|k: Seq<char>| #[trigger] m.contains_key(k) ==> key_fits(k) && text_fits(m[k].text()),
    ensures
        replay(records_of(ks, m), true) == reloaded(m),
{
    assert forall|i: int| 0 <= i < ks.len() implies m.contains_key(#[trigger] ks[i]) by {
        assert(ks.contains(ks[i]));
    }
    lemma_records_replay(ks, m);
    assert(replay(records_of(ks, m), true) =~= reloaded(m));
}

/// A value reads back as itself from its text when its text reads as it
/// and is not the removal mark.
pub open spec fn survives_reload(v: DataValue) -> bool {
    value_from_text(v.text()) == v && v.text() != tombstone()
}

/// An integer reads back as itself.
pub proof fn lemma_integer_survives_reload(i: i64)
    ensures
        survives_reload(DataValue::Integer(i)),
{
    lemma_int_text_round_trip(i);
    lemma_tombstone_fits();
    let t = int_text(i as int);
    if i < 0 {
        assert(t[0] == '-');
    } else {
        lemma_nat_text(i as nat);
        assert(is_digit(t[0]));
    }
}

/// The text of an integer fits in a record.
pub proof fn lemma_integer_text_fits(i: i64)
    ensures
        text_fits(DataValue::Integer(i).text()),
{
    let t = int_text(i as int);
    let n: nat = if i < 0 { (-i) as nat } else { i as nat };
    lemma_nat_text(n);
    assert(forall|j: int| 0 <= j < t.len() ==> t[j] != '\n' && t[j] != '\r') by {
        assert forall|j: int| 0 <= j < t.len() implies t[j] != '\n' && t[j] != '\r' by {
            if i < 0 {
                if j > 0 {
                    assert(t[j] == nat_text(n)[j - 1]);
                    assert(is_digit(nat_text(n)[j - 1]));
                }
            } else {
                assert(is_digit(nat_text(n)[j]));
            }
        }
    }
}

/// A write survives a restart: a log that ends at a line boundary, extended
/// by the record of binding `k` to `v`, rebuilds the old log's map with `k`
/// bound to `v`, for every key and value that a record can carry and that
/// reads back as itself.
pub proof fn lemma_set_survives_restart(log: Seq<char>, k: Seq<char>, v: DataValue)
    requires
        log_complete(log),
        key_fits(k),
        text_fits(v.text()),
        survives_reload(v),
    ensures
        replay(log + record(k, v.text()), true) == replay(log, true).insert(k, v),
        log_complete(log + record(k, v.text())),
{
    lemma_replay_record(log, k, v.text(), true);
}

/// An integer write survives a restart: the log extended by the record of
/// binding `k` to the integer `i` rebuilds the old log's map with `k` bound to `i`.
pub proof fn lemma_integer_set_survives_restart(log: Seq<char>, k: Seq<char>, i: i64)
    requires
        log_complete(log),
        key_fits(k),
    ensures
        replay(log + record(k, DataValue::Integer(i).text()), true) == replay(log, true).insert(
            k,
            DataValue::Integer(i),
        ),
{
    lemma_integer_text_fits(i);
    lemma_integer_survives_reload(i);
    lemma_set_survives_restart(log, k, DataValue::Integer(i));
}

/// A removal survives a restart: the log extended by the removal record of
/// `k` rebuilds the old log's map without `k`.
pub proof fn lemma_remove_survives_restart(log: Seq<char>, k: Seq<char>)
    requires
        log_complete(log),
        key_fits(k),
    ensures
        replay(log + record(k, tombstone()), true) == replay(log, true).remove(k),
        log_complete(log + record(k, tombstone())),
{
    lemma_tombstone_fits();
    lemma_replay_record(log, k, tombstone(), true);
}


// ---------------------------------------------------------------- sessions

/// One change to a store together with what it writes to the log: a write
/// (`set` and its `set_record`), a removal (`remove` and its `remove_record`),
/// or a compaction that rewrites the log as the records of the keys `ks`
/// (`compact_contents`).
pub enum LogOp {
    Put(Seq<char>, DataValue),
    Remove(Seq<char>),
    Compact(Seq<Seq<char>>),
}

/// The store's map and its log after one change.
pub open spec fn apply_op(
    state: (Map<Seq<char>, DataValue>, Seq<char>),
    op: LogOp,
) -> (Map<Seq<char>, DataValue>, Seq<char>) {
    let (m, log) = state;
    match op {
        LogOp::Put(k, v) => (m.insert(k, v), log + record(k, v.text())),
        LogOp::Remove(k) => (m.remove(k), log + record(k, tombstone())),
        LogOp::Compact(ks) => (m, records_of(ks, m)),
    }
}

/// The store's map and its log after a sequence of changes.
pub open spec fn run_ops(
    state: (Map<Seq<char>, DataValue>, Seq<char>),
    ops: Seq<LogOp>,
) -> (Map<Seq<char>, DataValue>, Seq<char>)
    decreases ops.len(),
{
    if ops.len() == 0 {
        state
    } else {
        apply_op(run_ops(state, ops.drop_last()), ops.last())
    }
}

/// A change can be logged faithfully in a store with map `m`: its key and
/// text fit in a record; a compaction lists each key of `m` once.
pub open spec fn op_fits(m: Map<Seq<char>, DataValue>, op: LogOp) -> bool {
    match op {
        LogOp::Put(k, v) => key_fits(k) && text_fits(v.text()),
        LogOp::Remove(k) => key_fits(k),
        LogOp::Compact(ks) => ks.no_duplicates() && forall|k: Seq<char>|
            #[trigger] m.contains_key(k) <==> ks.contains(k),
    }
}

/// Every change of the sequence fits the store it is applied to.
pub open spec fn ops_fit(state: (Map<Seq<char>, DataValue>, Seq<char>), ops: Seq<LogOp>) -> bool
    decreases ops.len(),
{
    ops.len() == 0 || (ops_fit(state, ops.drop_last()) && op_fits(
        run_ops(state, ops.drop_last()).0,
        ops.last(),
    ))
}

/// The log is in step with the map: it ends at a line boundary, it replays
/// to what the map becomes on a restart, and every entry fits in a record.
pub open spec fn in_step(m: Map<Seq<char>, DataValue>, log: Seq<char>) -> bool {
    &&& log_complete(log)
    &&& replay(log, true) == reloaded(m)
    &&& forall|k: Seq<char>| #[trigger] m.contains_key(k) ==> key_fits(k) && text_fits(m[k].text())
}

proof fn lemma_op_keeps_step(m: Map<Seq<char>, DataValue>, log: Seq<char>, op: LogOp)
    requires
        in_step(m, log),
        op_fits(m, op),
    ensures
        in_step(apply_op((m, log), op).0, apply_op((m, log), op).1),
{
    match op {
        LogOp::Put(k, v) => {
            lemma_replay_record(log, k, v.text(), true);
            let m2 = m.insert(k, v);
            assert(replay(log + record(k, v.text()), true) =~= reloaded(m2));
        },
        LogOp::Remove(k) => {
            lemma_remove_survives_restart(log, k);
            let m2 = m.remove(k);
            assert(replay(log + record(k, tombstone()), true) =~= reloaded(m2));
        },
        LogOp::Compact(ks) => {
            lemma_compact_replays(ks, m);
            lemma_records_complete(ks, m);
        },
    }
}

/// The log stays in step with the store through any sequence of writes,
/// removals and compactions that can be logged faithfully: replaying the log
/// at any point gives what the store becomes on a restart.
pub proof fn lemma_ops_keep_log_in_step(
    m: Map<Seq<char>, DataValue>,
    log: Seq<char>,
    ops: Seq<LogOp>,
)
    requires
        in_step(m, log),
        ops_fit((m, log), ops),
    ensures
        in_step(run_ops((m, log), ops).0, run_ops((m, log), ops).1),
    decreases ops.len(),
{
    if ops.len() > 0 {
        lemma_ops_keep_log_in_step(m, log, ops.drop_last());
        let prev = run_ops((m, log), ops.drop_last());
        lemma_op_keeps_step(prev.0, prev.1, ops.last());
    }
}

/// A store opened on an empty log file and changed by any sequence of
/// writes, removals and compactions that can be logged faithfully reopens
/// as `reloaded` of its map: every key with the value its text reads as.
pub proof fn lemma_reopen_after_session(ops: Seq<LogOp>)
    requires
        ops_fit((Map::empty(), Seq::empty()), ops),
    ensures
        replay(run_ops((Map::empty(), Seq::empty()), ops).1, true) == reloaded(
            run_ops((Map::empty(), Seq::empty()), ops).0,
        ),
{
    let m0 = Map::<Seq<char>, DataValue>::empty();
    let log0 = Seq::<char>::empty();
    assert(replay(log0, true) =~= reloaded(m0));
    lemma_ops_keep_log_in_step(m0, log0, ops);
}

/// A reopened store has the same keys as the store it was written from
/// when no value's text is the removal mark; each value becomes what its text
/// reads as.
pub proof fn lemma_reloaded_keys(m: Map<Seq<char>, DataValue>)
    requires
        forall|k: Seq<char>| #[trigger] m.contains_key(k) ==> m[k].text() != tombstone(),
    ensures
        reloaded(m).dom() == m.dom(),
        forall|k: Seq<char>|
            #[trigger] m.contains_key(k) ==> reloaded(m)[k] == value_from_text(m[k].text()),
{
    assert(reloaded(m).dom() =~= m.dom());
}

/// Compaction rewrites the log but not what it replays to.
pub proof fn lemma_compaction_keeps_replay(
    m: Map<Seq<char>, DataValue>,
    log: Seq<char>,
    ks: Seq<Seq<char>>,
)
    requires
        in_step(m, log),
        ks.no_duplicates(),
        forall|k: Seq<char>| #[trigger] m.contains_key(k) <==> ks.contains(k),
    ensures
        replay(records_of(ks, m), true) == replay(log, true),
{
    lemma_compact_replays(ks, m);
}

} // verus!
