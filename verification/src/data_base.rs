//! The first form of the store: its log knows no removals, and a lookup
//! answers with an `Option`.

use vstd::prelude::*;

use crate::db::Database;
use crate::db_types::{DataType, DataValue};
use crate::text::{str_views, strictly_sorted};
use crate::journal::{apply_record, log_complete, key_fits, lemma_replay_record, record, replay, text_fits};

verus! {

/// A store whose log holds only writes.
pub struct DataBase {
    store: Database,
}

impl View for DataBase {
    type V = Map<Seq<char>, DataValue>;

    closed spec fn view(&self) -> Map<Seq<char>, DataValue> {
        self.store@
    }
}

impl DataBase {
    pub closed spec fn wf(&self) -> bool {
        self.store.wf()
    }

    /// An empty store.
    pub fn new() -> (r: Self)
        ensures
            r.wf(),
            r@ == Map::<Seq<char>, DataValue>::empty(),
    {
        DataBase { store: Database::new() }
    }

    /// Rebuilds the store from its log: each line `key: text` binds the key to
    /// the value the text reads as, in order; other lines are skipped.
    pub fn replay(contents: &str) -> (r: Self)
        ensures
            r.wf(),
            r@ == replay(contents@, false),
    {
        DataBase { store: Database::replay_without_removals(contents) }
    }

    /// The value under `key`, if any.
    pub fn get(&mut self, key: &str) -> (r: Option<&DataType>)
        ensures
            *final(self) == *old(self),
            match r {
                Some(v) => old(self)@.contains_key(key@) && v@ == old(self)@[key@],
                None => !old(self)@.contains_key(key@),
            },
    {
        match self.store.get(key) {
            Ok(v) => Some(v),
            Err(_) => None,
        }
    }

    /// Binds `key` to `value`.
    pub fn set(&mut self, key: &str, value: DataType)
        requires
            old(self).wf(),
        ensures
            final(self).wf(),
            final(self)@ == old(self)@.insert(key@, value@),
    {
        self.store.set(key, value);
    }

    /// The keys of the store, each once, in ascending lexicographic order.
    pub fn keys(&self) -> (r: Vec<&str>)
        requires
            self.wf(),
        ensures
            strictly_sorted(str_views(r@)),
            forall|k: Seq<char>| #[trigger] self@.contains_key(k) <==> str_views(r@).contains(k),
    {
        self.store.keys()
    }

    /// The record line that `set(key, value)` appends to the log.
    pub fn set_record(key: &str, value: &DataType) -> (r: String)
        ensures
            r@ == record(key@, value@.text()),
    {
        Database::set_record(key, value)
    }
}

/// In a log without removals every record is a write: a log that ends at a
/// line boundary, extended by the record of binding `k` to `v`, rebuilds the
/// old log's map with `k` bound to what `v`'s text reads as.
pub proof fn lemma_plain_log_write(log: Seq<char>, k: Seq<char>, v: DataValue)
    requires
        log_complete(log),
        key_fits(k),
        text_fits(v.text()),
    ensures
        replay(log + record(k, v.text()), false) == replay(log, false).insert(
            k,
            crate::db_types::value_from_text(v.text()),
        ),
{
    lemma_replay_record(log, k, v.text(), false);
    assert(apply_record(replay(log, false), k, v.text(), false) == replay(log, false).insert(
        k,
        crate::db_types::value_from_text(v.text()),
    ));
}

} // verus!
