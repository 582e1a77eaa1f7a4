//! The store: a map from keys to values, kept in step with an append-only
//! text log that rebuilds it.

use vstd::prelude::*;

use crate::db_error::DbError;
use crate::db_types::{DataType, DataValue};
use crate::journal::{
    apply_line, find_sep, record, records_of, replay, scan, strip_cr, tombstone,
};
use crate::text::{
    chars_of, push_char, string_from_range, lemma_insert_sorted, lemma_lex_total, lex_less, lex_lt, str_views, string_views,
    strictly_sorted,
};
use vstd::hash_map::StringHashMap;

verus! {

broadcast use vstd::hash_map::group_hash_map_axioms;

/// The contents of the store.  Besides the map it keeps the list of its keys,
/// each once, from which `keys` and `compact_contents` read.
pub struct Database {
    data: StringHashMap<DataType>,
    order: Vec<String>,
}

impl View for Database {
    type V = Map<Seq<char>, DataValue>;

    closed spec fn view(&self) -> Map<Seq<char>, DataValue> {
        self.data@.map_values(|v: DataType| v@)
    }
}

impl Database {
    /// The key list names each key of the map once, and nothing else.
    pub closed spec fn wf(&self) -> bool {
        &&& string_views(self.order@).no_duplicates()
        &&& forall|k: Seq<char>|
            #![trigger self.data@.contains_key(k)]
            self.data@.contains_key(k) <==> string_views(self.order@).contains(k)
    }

    /// The keys in the order the store keeps them: each key once.
    pub closed spec fn key_list(&self) -> Seq<Seq<char>> {
        string_views(self.order@)
    }

    /// The key list names exactly the keys of the store, each once.
    pub proof fn lemma_key_list(&self)
        requires
            self.wf(),
        ensures
            self.key_list().no_duplicates(),
            forall|k: Seq<char>| #[trigger] self@.contains_key(k) <==> self.key_list().contains(k),
    {
        assert forall|k: Seq<char>| #[trigger] self@.contains_key(k) <==> self.key_list().contains(
            k,
        ) by {
            assert(self.data@.contains_key(k) <==> string_views(self.order@).contains(k));
        }
    }

    /// An empty store.
    pub fn new() -> (r: Self)
        ensures
            r.wf(),
            r@ == Map::<Seq<char>, DataValue>::empty(),
    {
        let r = Database { data: StringHashMap::new(), order: Vec::new() };
        assert(r@ =~= Map::<Seq<char>, DataValue>::empty());
        assert(string_views(r.order@) =~= Seq::<Seq<char>>::empty());
        r
    }

    /// The value under `key`, or `KeyNotFound` with the key.
    pub fn get(&self, key: &str) -> (r: Result<&DataType, DbError>)
        ensures
            match r {
                Ok(v) => self@.contains_key(key@) && v@ == self@[key@],
                Err(e) => !self@.contains_key(key@) && e@ == crate::db_error::ErrorView::KeyNotFound(
                    key@,
                ),
            },
    {
        match self.data.get(key) {
            Some(v) => Ok(v),
            None => Err(DbError::KeyNotFound(key.to_owned())),
        }
    }

    /// Whether `key` is in the store.
    pub fn key_exists(&self, key: &str) -> (r: bool)
        ensures
            r == self@.contains_key(key@),
    {
        self.data.contains_key(key)
    }

    /// Binds `key` to `value`, replacing what it was bound to.
    pub fn set(&mut self, key: &str, value: DataType)
        requires
            old(self).wf(),
        ensures
            final(self).wf(),
            final(self)@ == old(self)@.insert(key@, value@),
    {
        let ghost old_order = string_views(self.order@);
        if !self.data.contains_key(key) {
            self.order.push(key.to_owned());
            proof {
                assert(string_views(self.order@) =~= old_order.push(key@));
                assert forall|i: int, j: int|
                    0 <= i < j < string_views(self.order@).len() implies string_views(
                    self.order@,
                )[i] != string_views(self.order@)[j] by {
                    if j == old_order.len() {
                        assert(old_order[i] == string_views(self.order@)[i]);
                        assert(!old_order.contains(key@));
                    }
                }
            }
        }
        self.data.insert(key.to_owned(), value);
        proof {
            assert forall|k: Seq<char>|
                #![trigger self.data@.contains_key(k)]
                self.data@.contains_key(k) <==> string_views(self.order@).contains(k) by {
                if k == key@ {
                    if old_order.contains(key@) {
                        assert(string_views(self.order@) == old_order);
                    } else {
                        assert(string_views(self.order@).last() == key@);
                    }
                } else {
                    if string_views(self.order@).contains(k) && !old_order.contains(k) {
                        let i = choose|i: int|
                            0 <= i < string_views(self.order@).len() && string_views(
                                self.order@,
                            )[i] == k;
                        assert(i < old_order.len() ==> old_order[i] == k);
                    }
                    if old_order.contains(k) {
                        let i = choose|i: int| 0 <= i < old_order.len() && old_order[i] == k;
                        assert(string_views(self.order@)[i] == k);
                    }
                }
            }
            assert(self@ =~= old(self)@.insert(key@, value@));
        }
    }

    /// The position of `key` in the key list, if it is there.
    fn position_of(&self, key: &String) -> (r: Option<usize>)
        ensures
            match r {
                Some(i) => i < self.order.len() && self.order@[i as int]@ == key@,
                None => !string_views(self.order@).contains(key@),
            },
    {
        let mut i: usize = 0;
        while i < self.order.len()
            invariant
                i <= self.order.len(),
                forall|j: int| 0 <= j < i ==> #[trigger] self.order@[j]@ != key@,
            decreases self.order.len() - i,
        {
            if self.order[i] == *key {
                return Some(i);
            }
            i = i + 1;
        }
        proof {
            if string_views(self.order@).contains(key@) {
                let j = choose|j: int|
                    0 <= j < string_views(self.order@).len() && string_views(self.order@)[j]
                        == key@;
                assert(self.order@[j]@ == key@);
            }
        }
        None
    }

    /// Unbinds `key`; gives back what it was bound to, if anything.
    pub fn remove(&mut self, key: &str) -> (r: Option<DataType>)
        requires
            old(self).wf(),
        ensures
            final(self).wf(),
            final(self)@ == old(self)@.remove(key@),
            match r {
                Some(v) => old(self)@.contains_key(key@) && v@ == old(self)@[key@],
                None => !old(self)@.contains_key(key@),
            },
    {
        let ghost old_order = string_views(self.order@);
        let previous = match self.data.get(key) {
            Some(v) => Some(v.clone()),
            None => None,
        };
        let owned = key.to_owned();
        let ghost mut gone: int = -1;
        match self.position_of(&owned) {
            Some(i) => {
                self.order.remove(i);
                proof {
                    gone = i as int;
                    assert(string_views(self.order@) =~= old_order.remove(i as int));
                }
            },
            None => {},
        }
        self.data.remove(key);
        proof {
            let now = string_views(self.order@);
            assert forall|i: int, j: int| 0 <= i < j < now.len() implies now[i] != now[j] by {
                if gone >= 0 {
                    let p = gone;
                    let ii = if i < p { i } else { i + 1 };
                    let jj = if j < p { j } else { j + 1 };
                    assert(now[i] == old_order[ii]);
                    assert(now[j] == old_order[jj]);
                }
            }
            assert forall|k: Seq<char>|
                #![trigger self.data@.contains_key(k)]
                self.data@.contains_key(k) <==> now.contains(k) by {
                if gone >= 0 {
                    let p = gone;
                    assert(old_order[p] == key@);
                    if now.contains(k) {
                        let i = choose|i: int| 0 <= i < now.len() && now[i] == k;
                        let ii = if i < p { i } else { i + 1 };
                        assert(old_order[ii] == k);
                        assert(ii != p);
                    }
                    if old_order.contains(k) && k != key@ {
                        let i = choose|i: int| 0 <= i < old_order.len() && old_order[i] == k;
                        assert(i != p);
                        let ii = if i < p { i } else { i - 1 };
                        assert(now[ii] == k);
                    }
                } else {
                    assert(now == old_order);
                }
            }
            assert(self@ =~= old(self)@.remove(key@));
        }
        previous
    }

    /// The keys of the store, each once, in ascending lexicographic order.
    pub fn keys(&self) -> (r: Vec<&str>)
        requires
            self.wf(),
        ensures
            strictly_sorted(str_views(r@)),
            forall|k: Seq<char>| #[trigger] self@.contains_key(k) <==> str_views(r@).contains(k),
    {
        let n = self.order.len();
        let ghost keys = string_views(self.order@);
        let mut chars: Vec<Vec<char>> = Vec::new();
        for i in 0..n
            invariant
                n == self.order.len(),
                chars.len() == i,
                forall|t: int| 0 <= t < i ==> #[trigger] chars@[t]@ == keys[t],
                keys == string_views(self.order@),
        {
            chars.push(chars_of(self.order[i].as_str()));
        }
        let mut idx: Vec<usize> = Vec::new();
        for i in 0..n
            invariant
                n == self.order.len() == chars.len() == keys.len(),
                forall|t: int| 0 <= t < n ==> #[trigger] chars@[t]@ == keys[t],
                keys.no_duplicates(),
                idx.len() == i,
                idx@.no_duplicates(),
                forall|x: usize| x < i <==> #[trigger] idx@.contains(x),
                forall|t: int| 0 <= t < idx.len() ==> #[trigger] idx@[t] < i,
                strictly_sorted(idx@.map_values(|x: usize| keys[x as int])),
        {
            let ghost view_idx = idx@.map_values(|x: usize| keys[x as int]);
            let mut j: usize = 0;
            while j < idx.len() && lex_less(&chars[idx[j]], &chars[i])
                invariant
                    j <= idx.len(),
                    n == chars.len() == keys.len(),
                    i < n,
                    forall|t: int| 0 <= t < n ==> #[trigger] chars@[t]@ == keys[t],
                    forall|x: usize| x < i <==> #[trigger] idx@.contains(x),
                    forall|t: int| 0 <= t < idx.len() ==> #[trigger] idx@[t] < i,
                    view_idx == idx@.map_values(|x: usize| keys[x as int]),
                    forall|t: int| 0 <= t < j ==> lex_lt(#[trigger] view_idx[t], keys[i as int]),
                decreases idx.len() - j,
            {
                assert(idx@.contains(idx@[j as int]));
                j = j + 1;
            }
            proof {
                if j < idx.len() {
                    assert(idx@.contains(idx@[j as int]));
                    let y = idx@[j as int];
                    assert(y != i);
                    assert(keys[y as int] != keys[i as int]);
                    lemma_lex_total(keys[y as int], keys[i as int]);
                }
                lemma_insert_sorted(view_idx, j as int, keys[i as int]);
            }
            let ghost before = idx@;
            idx.insert(j, i);
            proof {
                assert(idx@ == before.insert(j as int, i));
                assert(idx@.map_values(|x: usize| keys[x as int]) =~= view_idx.insert(
                    j as int,
                    keys[i as int],
                ));
                assert forall|x: usize| x < i + 1 <==> #[trigger] idx@.contains(x) by {
                    if x < i {
                        assert(before.contains(x));
                        let t = choose|t: int| 0 <= t < before.len() && before[t] == x;
                        if t < j {
                            assert(idx@[t] == x);
                        } else {
                            assert(idx@[t + 1] == x);
                        }
                    } else if x == i {
                        assert(idx@[j as int] == x);
                    }
                    if idx@.contains(x) {
                        let t = choose|t: int| 0 <= t < idx@.len() && idx@[t] == x;
                        if t < j {
                            assert(before[t] == x);
                            assert(before.contains(x));
                        } else if t > j {
                            assert(before[t - 1] == x);
                            assert(before.contains(x));
                        }
                    }
                }
                assert forall|a: int, b: int| 0 <= a < b < idx@.len() implies idx@[a] != idx@[b] by {
                    if a == j as int {
                        let bb = b - 1;
                        assert(idx@[b] == before[bb]);
                        assert(before.contains(before[bb]));
                    } else if b == j as int {
                        assert(idx@[a] == before[a]);
                        assert(before.contains(before[a]));
                    } else {
                        let aa = if a < j { a } else { a - 1 };
                        let bb = if b < j { b } else { b - 1 };
                        assert(idx@[a] == before[aa] && idx@[b] == before[bb]);
                    }
                }
            }
        }
        let mut r: Vec<&str> = Vec::new();
        for t in 0..n
            invariant
                n == self.order.len() == keys.len() == idx.len(),
                keys == string_views(self.order@),
                forall|x: usize| x < n <==> #[trigger] idx@.contains(x),
                forall|u: int| 0 <= u < n ==> #[trigger] idx@[u] < n,
                r.len() == t,
                forall|u: int| 0 <= u < t ==> #[trigger] str_views(r@)[u] == keys[idx@[u] as int],
        {
            assert(idx@.contains(idx@[t as int]));
            let ghost before_r = r@;
            r.push(self.order[idx[t]].as_str());
            proof {
                assert(r@ == before_r.push(r@[t as int]));
                assert(r@[t as int]@ == self.order@[idx@[t as int] as int]@);
                assert forall|u: int| 0 <= u < t + 1 implies #[trigger] str_views(r@)[u]
                    == keys[idx@[u] as int] by {
                    assert(str_views(r@)[u] == r@[u]@);
                    if u < t {
                        assert(r@[u] == before_r[u]);
                        assert(str_views(before_r)[u] == before_r[u]@);
                    }
                }
            }
        }
        proof {
            let sorted = idx@.map_values(|x: usize| keys[x as int]);
            assert(str_views(r@) =~= sorted);
            self.lemma_key_list();
            assert forall|k: Seq<char>| #[trigger] self@.contains_key(k) <==> str_views(
                r@,
            ).contains(k) by {
                if self@.contains_key(k) {
                    assert(keys.contains(k));
                    let p = choose|p: int| 0 <= p < keys.len() && keys[p] == k;
                    assert(idx@.contains(p as usize));
                    let t = choose|t: int| 0 <= t < idx@.len() && idx@[t] == p as usize;
                    assert(sorted[t] == k);
                }
                if sorted.contains(k) {
                    let t = choose|t: int| 0 <= t < sorted.len() && sorted[t] == k;
                    assert(idx@.contains(idx@[t]));
                    assert(keys.contains(keys[idx@[t] as int]));
                }
            }
        }
        r
    }

    /// The record line that `set(key, value)` appends to the log.
    pub fn set_record(key: &str, value: &DataType) -> (r: String)
        ensures
            r@ == record(key@, value@.text()),
    {
        let mut r = key.to_owned();
        push_char(&mut r, ':');
        push_char(&mut r, ' ');
        let t = value.to_str();
        r.append(t.as_str());
        push_char(&mut r, '\n');
        assert(r@ =~= record(key@, value@.text()));
        r
    }

    /// The record line that `remove(key)` appends to the log.
    pub fn remove_record(key: &str) -> (r: String)
        ensures
            r@ == record(key@, tombstone()),
    {
        let mut r = key.to_owned();
        push_char(&mut r, ':');
        push_char(&mut r, ' ');
        r.append("__DELETED__");
        push_char(&mut r, '\n');
        assert(r@ =~= record(key@, tombstone()));
        r
    }

    /// Where the first `": "` of `line` starts, if it has one.
    fn separator_position(line: &Vec<char>) -> (r: Option<usize>)
        ensures
            match r {
                Some(p) => p as int == find_sep(line@, 0) && p + 2 <= line.len(),
                None => find_sep(line@, 0) < 0,
            },
    {
        let n = line.len();
        let mut p: usize = 0;
        while n > 0 && p < n - 1
            invariant
                p <= n == line.len(),
                find_sep(line@, 0) == find_sep(line@, p as int),
            decreases n - p,
        {
            if line[p] == ':' && line[p + 1] == ' ' {
                return Some(p);
            }
            p = p + 1;
        }
        None
    }

    /// Applies one line of the log.
    fn apply_line(&mut self, line: &Vec<char>, tombstones: bool)
        requires
            old(self).wf(),
        ensures
            final(self).wf(),
            final(self)@ == apply_line(old(self)@, line@, tombstones),
    {
        match Self::separator_position(line) {
            Some(p) => {
                let n = line.len();
                let key = string_from_range(line, 0, p);
                let text = string_from_range(line, p + 2, n);
                if tombstones && text == "__DELETED__".to_owned() {
                    self.remove(key.as_str());
                } else {
                    let value = DataType::from_text(text.as_str());
                    self.set(key.as_str(), value);
                }
            },
            None => {},
        }
    }

    /// Rebuilds a store from its log.
    fn replay_log(contents: &str, tombstones: bool) -> (r: Database)
        ensures
            r.wf(),
            r@ == replay(contents@, tombstones),
    {
        broadcast use vstd::string::group_string_axioms;

        let mut db = Database::new();
        let mut cur: Vec<char> = Vec::new();
        for c in it: contents.chars()
            invariant
                it.seq() == contents@,
                db.wf(),
                db@ == scan(contents@.take(it.index() as int), tombstones).0,
                cur@ == scan(contents@.take(it.index() as int), tombstones).1,
        {
            let ghost pre = contents@.take(it.index() as int);
            proof {
                assert(contents@.take(it.index() + 1).drop_last() =~= pre);
                assert(contents@.take(it.index() + 1).last() == c);
            }
            if c == '\n' {
                let mut line = cur;
                if line.len() > 0 && line[line.len() - 1] == '\r' {
                    line.pop();
                    assert(line@ =~= strip_cr(scan(pre, tombstones).1));
                }
                db.apply_line(&line, tombstones);
                cur = Vec::new();
            } else {
                cur.push(c);
            }
        }
        assert(contents@.take(contents@.len() as int) =~= contents@);
        if cur.len() > 0 {
            db.apply_line(&cur, tombstones);
        }
        db
    }

    /// Rebuilds the store from the text of its log: each line `key: text` binds
    /// the key to the value the text reads as, each line `key: __DELETED__`
    /// unbinds it, in order; other lines are skipped.
    pub fn replay(contents: &str) -> (r: Database)
        ensures
            r.wf(),
            r@ == replay(contents@, true),
    {
        Self::replay_log(contents, true)
    }

    /// Rebuilds a store from a log whose every line is a write.
    pub(crate) fn replay_without_removals(contents: &str) -> (r: Database)
        ensures
            r.wf(),
            r@ == replay(contents@, false),
    {
        Self::replay_log(contents, false)
    }

    /// The whole text of a compacted log: one record per entry, each key once,
    /// in the order the store keeps its keys.
    pub fn compact_contents(&self) -> (r: String)
        requires
            self.wf(),
        ensures
            exists|ks: Seq<Seq<char>>|
                {
                    &&& ks.no_duplicates()
                    &&& forall|k: Seq<char>| #[trigger] self@.contains_key(k) <==> ks.contains(k)
                    &&& r@ == records_of(ks, self@)
                },
    {
        let ghost ks = string_views(self.order@);
        proof {
            self.lemma_key_list();
        }
        let mut out = String::new();
        for i in 0..self.order.len()
            invariant
                self.wf(),
                ks == string_views(self.order@),
                forall|k: Seq<char>| #[trigger] self@.contains_key(k) <==> ks.contains(k),
                out@ == records_of(ks.take(i as int), self@),
        {
            let k = self.order[i].as_str();
            proof {
                assert(ks[i as int] == k@);
                assert(ks.contains(k@));
                assert(ks.take(i + 1).drop_last() =~= ks.take(i as int));
                assert(ks.take(i + 1).last() == k@);
            }
            match self.data.get(k) {
                Some(v) => {
                    let rec = Self::set_record(k, v);
                    out.append(rec.as_str());
                },
                None => {
                    assert(false);
                },
            }
        }
        assert(ks.take(ks.len() as int) =~= ks);
        out
    }
}


// ---------------------------------------------------------------- laws

/// A read after a write of the same key gives the value written; keys
/// other than the one written keep their values.
pub proof fn lemma_get_after_set(
    m: Map<Seq<char>, DataValue>,
    k: Seq<char>,
    v: DataValue,
    other: Seq<char>,
)
    requires
        other != k,
    ensures
        m.insert(k, v).contains_key(k),
        m.insert(k, v)[k] == v,
        m.insert(k, v).contains_key(other) == m.contains_key(other),
        m.contains_key(other) ==> m.insert(k, v)[other] == m[other],
{
}

/// After a removal the key is absent; other keys keep their values.
pub proof fn lemma_get_after_remove(m: Map<Seq<char>, DataValue>, k: Seq<char>, other: Seq<char>)
    requires
        other != k,
    ensures
        !m.remove(k).contains_key(k),
        m.remove(k).contains_key(other) == m.contains_key(other),
        m.contains_key(other) ==> m.remove(k)[other] == m[other],
{
}

/// Removing a key that a write has just added undoes that write.
pub proof fn lemma_remove_undoes_fresh_set(m: Map<Seq<char>, DataValue>, k: Seq<char>, v: DataValue)
    requires
        !m.contains_key(k),
    ensures
        m.insert(k, v).remove(k) == m,
{
    assert(m.insert(k, v).remove(k) =~= m);
}

/// The last of two writes to a key wins.
pub proof fn lemma_last_write_wins(
    m: Map<Seq<char>, DataValue>,
    k: Seq<char>,
    v1: DataValue,
    v2: DataValue,
)
    ensures
        m.insert(k, v1).insert(k, v2) == m.insert(k, v2),
{
    assert(m.insert(k, v1).insert(k, v2) =~= m.insert(k, v2));
}

} // verus!
