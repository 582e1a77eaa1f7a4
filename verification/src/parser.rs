//! The command language: `SET key value`, `GET key`, `DEL key`, `COMPACT`.
//! Parsing is separate from running a command, so that the caller can
//! write the command's log record before the store changes.

use vstd::prelude::*;

use crate::db::Database;
use crate::db_error::{DbError, ErrorView};
use crate::db_types::{DataType, DataValue};
use crate::db_types::value_from_text;
use crate::journal::{
    apply_record, key_fits, lemma_remove_survives_restart, lemma_replay_record, lemma_tombstone_fits,
    log_complete, record, records_of, replay, text_fits, tombstone,
};
use crate::text::{
    all_ascii,
    ascii_upper,
    char_is_control,
    is_control,
    is_ws,
    lemma_sanitize_keeps_plain_text,
    lemma_tokens_concat,
    lemma_tokens_have_no_ws,
    lemma_tokens_of_word,
    lemma_without_controls,
    push_char,
    split_whitespace,
    string_views,
    to_uppercase,
    upper_word,
    without_controls,
    ws_tokens,
};

verus! {

/// Removes every control character from `input`.
pub fn sanitize_input(input: &str) -> (r: String)
    ensures
        r@ == without_controls(input@),
{
    broadcast use vstd::string::group_string_axioms;
    let mut out = String::new();
    for c in it: input.chars()
        invariant
            it.seq() == input@,
            out@ == without_controls(input@.take(it.index() as int)),
    {
        proof {
            assert(input@.take(it.index() + 1).drop_last() == input@.take(it.index() as int));
        }
        if !char_is_control(c) {
            push_char(&mut out, c);
        }
    }
    proof {
        assert(input@.take(input@.len() as int) == input@);
    }
    out
}



/// A parsed command.
#[derive(Debug)]
pub enum Command {
    Assign { key: String, value: String },
    Lookup { key: String },
    Delete { key: String },
    Compact,
}

/// The model of a `Command`.
pub enum CommandView {
    Assign(Seq<char>, Seq<char>),
    Lookup(Seq<char>),
    Delete(Seq<char>),
    Compact,
}

impl View for Command {
    type V = CommandView;

    open spec fn view(&self) -> CommandView {
        match self {
            Command::Assign { key, value } => CommandView::Assign(key@, value@),
            Command::Lookup { key } => CommandView::Lookup(key@),
            Command::Delete { key } => CommandView::Delete(key@),
            Command::Compact => CommandView::Compact,
        }
    }
}

/// The model of a parse result.
pub open spec fn parsed_view(r: Result<Command, DbError>) -> Result<CommandView, ErrorView> {
    match r {
        Ok(c) => Ok(c@),
        Err(e) => Err(e@),
    }
}

/// The model of a command's answer.
pub open spec fn answer_view(r: Result<String, DbError>) -> Result<Seq<char>, ErrorView> {
    match r {
        Ok(s) => Ok(s@),
        Err(e) => Err(e@),
    }
}

/// The command that the words `toks` of the text `command` make, given the
/// first word in upper case, `verb`.  Keys and values lose their control
/// characters; words after the ones a command takes are ignored.
pub open spec fn command_from_words_spec(
    verb: Seq<char>,
    toks: Seq<Seq<char>>,
    command: Seq<char>,
) -> Result<CommandView, ErrorView> {
    if verb == "SET"@ {
        if toks.len() < 2 {
            Err(ErrorView::ParseError("Missing key for SET"@))
        } else if toks.len() < 3 {
            Err(ErrorView::ParseError("Missing value for SET"@))
        } else {
            Ok(CommandView::Assign(without_controls(toks[1]), without_controls(toks[2])))
        }
    } else if verb == "GET"@ {
        if toks.len() < 2 {
            Err(ErrorView::ParseError("Missing key for GET"@))
        } else {
            Ok(CommandView::Lookup(without_controls(toks[1])))
        }
    } else if verb == "DEL"@ {
        if toks.len() < 2 {
            Err(ErrorView::ParseError("Missing key for DEL"@))
        } else {
            Ok(CommandView::Delete(without_controls(toks[1])))
        }
    } else if verb == "COMPACT"@ {
        Ok(CommandView::Compact)
    } else {
        Err(ErrorView::ParseError(command))
    }
}

/// The command the text `command` holds: its first word, in upper case
/// (`upper_word`), names it; a text without words is a parse error holding
/// the text.
pub open spec fn parse_command_spec(command: Seq<char>) -> Result<CommandView, ErrorView> {
    let toks = ws_tokens(command);
    if toks.len() == 0 {
        Err(ErrorView::ParseError(command))
    } else {
        command_from_words_spec(upper_word(toks[0]), toks, command)
    }
}

/// What running a command does to the store's map, and what it answers.
pub open spec fn execute_spec(m: Map<Seq<char>, DataValue>, cmd: CommandView) -> (
    Map<Seq<char>, DataValue>,
    Result<Seq<char>, ErrorView>,
) {
    match cmd {
        CommandView::Assign(k, v) => (m.insert(k, DataValue::Text(v)), Ok("Ok"@)),
        CommandView::Lookup(k) => (m, if m.contains_key(k) {
            Ok(m[k].text())
        } else {
            Err(ErrorView::KeyNotFound(k))
        }),
        CommandView::Delete(k) => (m.remove(k), if m.contains_key(k) {
            Ok(m[k].text())
        } else {
            Err(ErrorView::KeyNotFound(k))
        }),
        CommandView::Compact => (m, Ok("Ok"@)),
    }
}

/// Makes the command from its words; `verb` is the first word in upper case.
pub fn command_from_words(verb: &str, toks: &Vec<String>, command: &str) -> (r: Result<Command, DbError>)
    ensures
        parsed_view(r) == command_from_words_spec(verb@, string_views(toks@), command@),
{
    let verb = verb.to_owned();
    let n = toks.len();
    if verb == "SET".to_owned() {
        if n < 2 {
            Err(DbError::ParseError("Missing key for SET".to_owned()))
        } else if n < 3 {
            Err(DbError::ParseError("Missing value for SET".to_owned()))
        } else {
            let key = sanitize_input(toks[1].as_str());
            let value = sanitize_input(toks[2].as_str());
            Ok(Command::Assign { key, value })
        }
    } else if verb == "GET".to_owned() {
        if n < 2 {
            Err(DbError::ParseError("Missing key for GET".to_owned()))
        } else {
            Ok(Command::Lookup { key: sanitize_input(toks[1].as_str()) })
        }
    } else if verb == "DEL".to_owned() {
        if n < 2 {
            Err(DbError::ParseError("Missing key for DEL".to_owned()))
        } else {
            Ok(Command::Delete { key: sanitize_input(toks[1].as_str()) })
        }
    } else if verb == "COMPACT".to_owned() {
        Ok(Command::Compact)
    } else {
        Err(DbError::ParseError(command.to_owned()))
    }
}

/// Parses one command line.
pub fn parse_command(command: &str) -> (r: Result<Command, DbError>)
    ensures
        parsed_view(r) == parse_command_spec(command@),
{
    let toks = split_whitespace(command);
    if toks.len() == 0 {
        return Err(DbError::ParseError(command.to_owned()));
    }
    let verb = to_uppercase(toks[0].as_str());
    command_from_words(verb.as_str(), &toks, command)
}

/// What must reach the log file before a command changes the store.
#[derive(Debug)]
pub enum LogWrite {
    /// Append this record.
    Append(String),
    /// Replace the whole file by this text.
    Rewrite(String),
}

/// The text is a compacted log of `m`: one record per entry, each key once.
pub open spec fn is_compaction_of(text: Seq<char>, m: Map<Seq<char>, DataValue>) -> bool {
    exists|ks: Seq<Seq<char>>|
        {
            &&& ks.no_duplicates()
            &&& forall|k: Seq<char>| #[trigger] m.contains_key(k) <==> ks.contains(k)
            &&& text == records_of(ks, m)
        }
}

impl Database {
    /// The log write a command needs before it runs: the record of a `SET`
    /// (the value as text), the removal record of a `DEL`, the compacted log
    /// for `COMPACT`; a `GET` needs none.
    pub fn log_write(&self, cmd: &Command) -> (r: Option<LogWrite>)
        requires
            self.wf(),
        ensures
            match cmd@ {
                CommandView::Assign(k, v) => r matches Some(LogWrite::Append(s)) && s@ == record(k, v),
                CommandView::Delete(k) => r matches Some(LogWrite::Append(s)) && s@ == record(k, tombstone()),
                CommandView::Lookup(_) => r is None,
                CommandView::Compact => r matches Some(LogWrite::Rewrite(s)) && is_compaction_of(s@, self@),
            },
    {
        match cmd {
            Command::Assign { key, value } => {
                let v = DataType::Text { value: value.clone() };
                Some(LogWrite::Append(Database::set_record(key.as_str(), &v)))
            },
            Command::Delete { key } => Some(LogWrite::Append(Database::remove_record(key.as_str()))),
            Command::Lookup { .. } => None,
            Command::Compact => Some(LogWrite::Rewrite(self.compact_contents())),
        }
    }

    /// Runs a command on the store and gives its answer: `Ok` for `SET` and
    /// `COMPACT`, the value's text for `GET` and `DEL`, or `KeyNotFound`.
    pub fn execute(&mut self, cmd: Command) -> (r: Result<String, DbError>)
        requires
            old(self).wf(),
        ensures
            final(self).wf(),
            final(self)@ == execute_spec(old(self)@, cmd@).0,
            answer_view(r) == execute_spec(old(self)@, cmd@).1,
    {
        match cmd {
            Command::Assign { key, value } => {
                self.set(key.as_str(), DataType::Text { value });
                Ok("Ok".to_owned())
            },
            Command::Lookup { key } => {
                match self.get(key.as_str()) {
                    Ok(v) => Ok(v.to_str()),
                    Err(e) => Err(e),
                }
            },
            Command::Delete { key } => {
                match self.remove(key.as_str()) {
                    Some(v) => Ok(v.to_str()),
                    None => Err(DbError::KeyNotFound(key)),
                }
            },
            Command::Compact => Ok("Ok".to_owned()),
        }
    }
}


// ---------------------------------------------------------------- laws

/// A `GET` after a `SET` of the same key answers the value set.
pub proof fn lemma_set_then_get(m: Map<Seq<char>, DataValue>, k: Seq<char>, v: Seq<char>)
    ensures
        execute_spec(execute_spec(m, CommandView::Assign(k, v)).0, CommandView::Lookup(k)).1 == Ok::<
            Seq<char>,
            ErrorView,
        >(v),
{
}

/// A `SET` answers `Ok` and leaves every other key as it was.
pub proof fn lemma_set_keeps_other_keys(
    m: Map<Seq<char>, DataValue>,
    k: Seq<char>,
    v: Seq<char>,
    other: Seq<char>,
)
    requires
        other != k,
    ensures
        execute_spec(m, CommandView::Assign(k, v)).1 == Ok::<Seq<char>, ErrorView>("Ok"@),
        execute_spec(execute_spec(m, CommandView::Assign(k, v)).0, CommandView::Lookup(other)).1
            == execute_spec(m, CommandView::Lookup(other)).1,
{
}

/// A `DEL` answers the removed value; after it, `GET` and a second `DEL` of
/// that key answer `KeyNotFound`.
pub proof fn lemma_delete_then_get(m: Map<Seq<char>, DataValue>, k: Seq<char>)
    ensures
        m.contains_key(k) ==> execute_spec(m, CommandView::Delete(k)).1 == Ok::<
            Seq<char>,
            ErrorView,
        >(m[k].text()),
        execute_spec(execute_spec(m, CommandView::Delete(k)).0, CommandView::Lookup(k)).1 == Err::<
            Seq<char>,
            ErrorView,
        >(ErrorView::KeyNotFound(k)),
        execute_spec(execute_spec(m, CommandView::Delete(k)).0, CommandView::Delete(k)).1 == Err::<
            Seq<char>,
            ErrorView,
        >(ErrorView::KeyNotFound(k)),
{
}

/// `GET` and `COMPACT` leave the store as it was.
pub proof fn lemma_reads_change_nothing(m: Map<Seq<char>, DataValue>, k: Seq<char>)
    ensures
        execute_spec(m, CommandView::Lookup(k)).0 == m,
        execute_spec(m, CommandView::Compact).0 == m,
{
}

proof fn lemma_word_fits(toks: Seq<Seq<char>>, i: int, command: Seq<char>)
    requires
        toks == ws_tokens(command),
        0 <= i < toks.len(),
    ensures
        key_fits(without_controls(toks[i])),
        text_fits(without_controls(toks[i])),
{
    lemma_tokens_have_no_ws(command);
    let t = toks[i];
    let w = without_controls(t);
    lemma_without_controls(t);
    assert forall|j: int| 0 <= j < w.len() implies !is_ws(#[trigger] w[j]) && !is_control(w[j]) by {
        let q = choose|q: int| 0 <= q < t.len() && t[q] == w[j];
        assert(!is_ws(toks[i][q]));
    }
    assert(!w.contains('\n')) by {
        if w.contains('\n') {
            let j = choose|j: int| 0 <= j < w.len() && w[j] == '\n';
            assert(!is_control(w[j]));
        }
    }
    assert forall|j: int| 0 <= j < w.len() - 1 implies !(#[trigger] w[j] == ':' && w[j + 1] == ' ') by {
        assert(!is_ws(w[j + 1]));
    }
    if w.len() > 0 {
        assert(!is_control(w[w.len() - 1]));
    }
}

/// Every key and value that a parsed command carries fits in a log record:
/// the words hold no white space and lose their control characters.
pub proof fn lemma_parsed_command_fits(command: Seq<char>)
    ensures
        parse_command_spec(command) matches Ok(CommandView::Assign(k, v)) ==> key_fits(k)
            && text_fits(v),
        parse_command_spec(command) matches Ok(CommandView::Lookup(k)) ==> key_fits(k),
        parse_command_spec(command) matches Ok(CommandView::Delete(k)) ==> key_fits(k),
{
    let toks = ws_tokens(command);
    if toks.len() >= 2 {
        lemma_word_fits(toks, 1, command);
    }
    if toks.len() >= 3 {
        lemma_word_fits(toks, 2, command);
    }
}

/// A logged command survives a restart: a log that ends at a line boundary,
/// extended by the record a parsed `DEL` writes, rebuilds the map that the
/// `DEL` leaves; extended by the record a parsed `SET` writes, it rebuilds the
/// old map with the key bound to what the value's text reads as.
pub proof fn lemma_logged_command_survives_restart(log: Seq<char>, command: Seq<char>)
    requires
        log_complete(log),
    ensures
        parse_command_spec(command) matches Ok(CommandView::Delete(k)) ==> replay(
            log + record(k, tombstone()),
            true,
        ) == execute_spec(replay(log, true), CommandView::Delete(k)).0,
        parse_command_spec(command) matches Ok(CommandView::Assign(k, v)) ==> replay(
            log + record(k, v),
            true,
        ) == apply_record(replay(log, true), k, v, true),
{
    lemma_parsed_command_fits(command);
    match parse_command_spec(command) {
        Ok(CommandView::Delete(k)) => {
            lemma_remove_survives_restart(log, k);
        },
        Ok(CommandView::Assign(k, v)) => {
            lemma_replay_record(log, k, v, true);
        },
        _ => {},
    }
}

/// After a restart, `GET` answers what `SET` stored, for every value whose
/// text reads back as a value with that same text and is not the removal mark.
pub proof fn lemma_get_after_restart(log: Seq<char>, k: Seq<char>, v: Seq<char>)
    requires
        log_complete(log),
        key_fits(k),
        text_fits(v),
        v != tombstone(),
        value_from_text(v).text() == v,
    ensures
        execute_spec(replay(log + record(k, v), true), CommandView::Lookup(k)).1 == Ok::<
            Seq<char>,
            ErrorView,
        >(v),
{
    lemma_replay_record(log, k, v, true);
}


/// The words that name commands.
pub open spec fn is_verb(v: Seq<char>) -> bool {
    v == "SET"@ || v == "GET"@ || v == "DEL"@ || v == "COMPACT"@
}

proof fn lemma_verb_facts(v: Seq<char>)
    requires
        is_verb(v),
    ensures
        upper_word(v) == v,
        v.len() > 0,
        forall|i: int| 0 <= i < v.len() ==> !is_ws(#[trigger] v[i]),
{
    reveal_strlit("SET");
    reveal_strlit("GET");
    reveal_strlit("DEL");
    reveal_strlit("COMPACT");
    assert(all_ascii(v));
    assert(v.map_values(|c: char| ascii_upper(c)) =~= v);
}

proof fn lemma_single_space_has_no_words()
    ensures
        ws_tokens(seq![' ']) == Seq::<Seq<char>>::empty(),
{
    assert(seq![' '].drop_last() =~= Seq::<char>::empty());
    assert(ws_tokens(Seq::<char>::empty()) =~= Seq::<Seq<char>>::empty());
    assert(seq![' '].last() == ' ');
    assert(is_ws(' '));
}

/// The case of the command word does not matter: a command line whose first
/// word is `a` means what it means with `a` replaced by its upper case, when
/// that upper case names a command.
pub proof fn lemma_verb_case_insensitive(a: Seq<char>, s: Seq<char>)
    requires
        a.len() > 0,
        forall|i: int| 0 <= i < a.len() ==> !is_ws(#[trigger] a[i]),
        s.len() == 0 || is_ws(s[0]),
        is_verb(upper_word(a)),
    ensures
        parse_command_spec(a + s) == parse_command_spec(upper_word(a) + s),
{
    let v = upper_word(a);
    lemma_verb_facts(v);
    lemma_tokens_of_word(a);
    lemma_tokens_of_word(v);
    lemma_tokens_concat(a, s);
    lemma_tokens_concat(v, s);
    let ta = ws_tokens(a + s);
    let tv = ws_tokens(v + s);
    let rest = ws_tokens(s);
    assert(ta =~= seq![a] + rest);
    assert(tv =~= seq![v] + rest);
    assert(ta[0] == a && tv[0] == v);
    assert(ta.len() == tv.len());
    if ta.len() >= 2 {
        assert(ta[1] == tv[1]);
    }
    if ta.len() >= 3 {
        assert(ta[2] == tv[2]);
    }
}

/// `SET k v` followed by `GET k`, as command text: for words `t1` and `t2`
/// without white space, the `SET` line stores `t2` (without its control
/// characters) under `t1` (likewise), and the `GET` line answers it.
pub proof fn lemma_set_then_get_text(m: Map<Seq<char>, DataValue>, t1: Seq<char>, t2: Seq<char>)
    requires
        t1.len() > 0,
        t2.len() > 0,
        forall|i: int| 0 <= i < t1.len() ==> !is_ws(#[trigger] t1[i]),
        forall|i: int| 0 <= i < t2.len() ==> !is_ws(#[trigger] t2[i]),
    ensures
        parse_command_spec("SET"@ + seq![' '] + t1 + seq![' '] + t2) == Ok::<
            CommandView,
            ErrorView,
        >(CommandView::Assign(without_controls(t1), without_controls(t2))),
        parse_command_spec("GET"@ + seq![' '] + t1) == Ok::<CommandView, ErrorView>(
            CommandView::Lookup(without_controls(t1)),
        ),
        execute_spec(
            execute_spec(m, CommandView::Assign(without_controls(t1), without_controls(t2))).0,
            CommandView::Lookup(without_controls(t1)),
        ).1 == Ok::<Seq<char>, ErrorView>(without_controls(t2)),
{
    let sp = seq![' '];
    let set = "SET"@;
    let get = "GET"@;
    reveal_strlit("SET");
    reveal_strlit("GET");
    assert(get != set) by {
        assert(get[0] != set[0]);
    }
    lemma_verb_facts(set);
    lemma_verb_facts(get);
    lemma_single_space_has_no_words();
    lemma_tokens_of_word(t1);
    lemma_tokens_of_word(t2);
    lemma_tokens_of_word(set);
    lemma_tokens_of_word(get);
    // The words of " t2", " t1 t2" and " t1".
    lemma_tokens_concat(sp, t2);
    let x2 = sp + t2;
    lemma_tokens_concat(t1, x2);
    let x1 = t1 + x2;
    lemma_tokens_concat(sp, x1);
    let x = sp + x1;
    lemma_tokens_concat(set, x);
    assert(set + sp + t1 + sp + t2 =~= set + x);
    assert(ws_tokens(set + x) =~= seq![set, t1, t2]);
    lemma_tokens_concat(sp, t1);
    let y = sp + t1;
    lemma_tokens_concat(get, y);
    assert(get + sp + t1 =~= get + y);
    assert(ws_tokens(get + y) =~= seq![get, t1]);
}


/// The words of `w + " " + t`, for a word `w` and a word `t` without white space.
proof fn lemma_two_words(w: Seq<char>, t: Seq<char>)
    requires
        w.len() > 0,
        forall|i: int| 0 <= i < w.len() ==> !is_ws(#[trigger] w[i]),
        t.len() > 0,
        forall|i: int| 0 <= i < t.len() ==> !is_ws(#[trigger] t[i]),
    ensures
        ws_tokens(w + seq![' '] + t) == seq![w, t],
{
    let sp = seq![' '];
    lemma_single_space_has_no_words();
    lemma_tokens_of_word(w);
    lemma_tokens_of_word(t);
    lemma_tokens_concat(sp, t);
    let y = sp + t;
    lemma_tokens_concat(w, y);
    assert(w + sp + t =~= w + y);
    assert(ws_tokens(w + y) =~= seq![w, t]);
}

/// `DEL t` names the key exactly as `SET` and `GET` do: the word without its
/// control characters.
pub proof fn lemma_delete_text(t: Seq<char>)
    requires
        t.len() > 0,
        forall|i: int| 0 <= i < t.len() ==> !is_ws(#[trigger] t[i]),
    ensures
        parse_command_spec("DEL"@ + seq![' '] + t) == Ok::<CommandView, ErrorView>(
            CommandView::Delete(without_controls(t)),
        ),
{
    let del = "DEL"@;
    reveal_strlit("DEL");
    reveal_strlit("SET");
    reveal_strlit("GET");
    assert(del != "SET"@) by {
        assert(del[0] != "SET"@[0]);
    }
    assert(del != "GET"@) by {
        assert(del[0] != "GET"@[0]);
    }
    lemma_verb_facts(del);
    lemma_two_words(del, t);
}

/// `SET t1 t2` then `DEL t1`, as command text: the `DEL` answers the value
/// the `SET` stored and leaves the key absent.
pub proof fn lemma_set_then_delete_text(m: Map<Seq<char>, DataValue>, t1: Seq<char>, t2: Seq<char>)
    requires
        t1.len() > 0,
        t2.len() > 0,
        forall|i: int| 0 <= i < t1.len() ==> !is_ws(#[trigger] t1[i]),
        forall|i: int| 0 <= i < t2.len() ==> !is_ws(#[trigger] t2[i]),
    ensures
        parse_command_spec("SET"@ + seq![' '] + t1 + seq![' '] + t2) == Ok::<
            CommandView,
            ErrorView,
        >(CommandView::Assign(without_controls(t1), without_controls(t2))),
        parse_command_spec("DEL"@ + seq![' '] + t1) == Ok::<CommandView, ErrorView>(
            CommandView::Delete(without_controls(t1)),
        ),
        execute_spec(
            execute_spec(m, CommandView::Assign(without_controls(t1), without_controls(t2))).0,
            CommandView::Delete(without_controls(t1)),
        ).1 == Ok::<Seq<char>, ErrorView>(without_controls(t2)),
        !execute_spec(
            execute_spec(m, CommandView::Assign(without_controls(t1), without_controls(t2))).0,
            CommandView::Delete(without_controls(t1)),
        ).0.contains_key(without_controls(t1)),
{
    lemma_set_then_get_text(m, t1, t2);
    lemma_delete_text(t1);
}

/// For words without white space or control characters, `SET t1 t2` stores
/// exactly `t2` under exactly `t1`; `GET t1` then answers `t2`, and `DEL t1`
/// answers `t2` and removes `t1`.
pub proof fn lemma_plain_words_round_trip(m: Map<Seq<char>, DataValue>, t1: Seq<char>, t2: Seq<char>)
    requires
        t1.len() > 0,
        t2.len() > 0,
        forall|i: int|
            0 <= i < t1.len() ==> !is_ws(#[trigger] t1[i]) && (t1[i] as u32) > 0x1F && !(0x7F <= (
            t1[i] as u32) <= 0x9F),
        forall|i: int|
            0 <= i < t2.len() ==> !is_ws(#[trigger] t2[i]) && (t2[i] as u32) > 0x1F && !(0x7F <= (
            t2[i] as u32) <= 0x9F),
    ensures
        parse_command_spec("SET"@ + seq![' '] + t1 + seq![' '] + t2) == Ok::<
            CommandView,
            ErrorView,
        >(CommandView::Assign(t1, t2)),
        parse_command_spec("GET"@ + seq![' '] + t1) == Ok::<CommandView, ErrorView>(
            CommandView::Lookup(t1),
        ),
        parse_command_spec("DEL"@ + seq![' '] + t1) == Ok::<CommandView, ErrorView>(
            CommandView::Delete(t1),
        ),
        execute_spec(execute_spec(m, CommandView::Assign(t1, t2)).0, CommandView::Lookup(t1)).1
            == Ok::<Seq<char>, ErrorView>(t2),
        execute_spec(execute_spec(m, CommandView::Assign(t1, t2)).0, CommandView::Delete(t1)).1
            == Ok::<Seq<char>, ErrorView>(t2),
        !execute_spec(
            execute_spec(m, CommandView::Assign(t1, t2)).0,
            CommandView::Delete(t1),
        ).0.contains_key(t1),
{
    assert forall|i: int| 0 <= i < t1.len() implies !is_ws(#[trigger] t1[i]) by {}
    assert forall|i: int| 0 <= i < t2.len() implies !is_ws(#[trigger] t2[i]) by {}
    lemma_sanitize_keeps_plain_text(t1);
    lemma_sanitize_keeps_plain_text(t2);
    lemma_set_then_get_text(m, t1, t2);
    lemma_set_then_delete_text(m, t1, t2);
}

} // verus!
