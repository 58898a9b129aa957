//! The durable key-value store: an append-only log of records as the source
//! of truth, and an in-memory index that caches the log's final state. The
//! index is rebuilt by full replay at startup and updated only after a record
//! has been durably appended.
//!
//! The store itself performs no file access. The caller that owns the storage
//! (the interactive shell) reads the log's lines before `rehydrate_from`, and
//! runs the write path of `set` in two phases: `prepare_set` yields the line
//! to append, and `set` is told whether the append was persisted. Only a
//! persisted append updates the index.
use vstd::prelude::*;
use vstd::string::StrSliceExecFns;

use crate::codec;
use crate::codec::Record;
use crate::codec::decodes_to;
use crate::codec::encode_spec;
use crate::codec::lemma_decode_unique;
use crate::codec::line_decodes;
use crate::codec::valid_field;

verus! {

/// The mathematical shadow of one record: its key and value as char sequences.
pub type RecordView = (Seq<char>, Seq<char>);

/// The state that a log denotes: apply every record in order, keeping the
/// last value written per key.
pub open spec fn replay(log: Seq<RecordView>) -> Map<Seq<char>, Seq<char>>
    decreases log.len(),
{
    if log.len() == 0 {
        Map::empty()
    } else {
        replay(log.drop_last()).insert(log.last().0, log.last().1)
    }
}

/// Every record of the log has fields free of the delimiter characters.
pub open spec fn valid_log(log: Seq<RecordView>) -> bool {
    forall|i: int|
        0 <= i < log.len() ==> valid_field((#[trigger] log[i]).0) && valid_field(log[i].1)
}

/// No two records share a key.
pub open spec fn unique_keys(s: Seq<RecordView>) -> bool {
    forall|i: int, j: int| 0 <= i < j < s.len() ==> (#[trigger] s[i]).0 != (#[trigger] s[j]).0
}

/// Last-writer-wins: the record at `i` being the last one for its key, replay
/// maps that key to its value.
pub proof fn lemma_last_writer_wins(log: Seq<RecordView>, i: int)
    requires
        0 <= i < log.len(),
        forall|j: int| i < j < log.len() ==> (#[trigger] log[j]).0 != log[i].0,
    ensures
        replay(log).contains_key(log[i].0),
        replay(log)[log[i].0] == log[i].1,
    decreases log.len(),
{
    if i == log.len() - 1 {
        assert(log.last() == log[i]);
    } else {
        assert forall|j: int| i < j < log.drop_last().len() implies (#[trigger] log.drop_last()[j]).0
            != log.drop_last()[i].0 by {
            assert(log.drop_last()[j] == log[j]);
        }
        lemma_last_writer_wins(log.drop_last(), i);
        assert(log.last().0 != log[i].0);
    }
}

/// Absence: a key no record of the log carries is not in the replayed state.
pub proof fn lemma_key_never_written(log: Seq<RecordView>, key: Seq<char>)
    requires
        forall|i: int| 0 <= i < log.len() ==> (#[trigger] log[i]).0 != key,
    ensures
        !replay(log).contains_key(key),
    decreases log.len(),
{
    if log.len() > 0 {
        assert forall|j: int| 0 <= j < log.drop_last().len() implies (#[trigger] log.drop_last()[j]).0
            != key by {
            assert(log.drop_last()[j] == log[j]);
        }
        lemma_key_never_written(log.drop_last(), key);
    }
}

/// Appending one record inserts its pair into the replayed state.
pub proof fn lemma_replay_push(log: Seq<RecordView>, r: RecordView)
    ensures
        replay(log.push(r)) == replay(log).insert(r.0, r.1),
{
    assert(log.push(r).drop_last() =~= log);
    assert(log.push(r).last() == r);
}

/// In a sequence with unique keys, overwriting the value at one position
/// inserts the new pair into the replayed state.
proof fn lemma_replay_update(s: Seq<RecordView>, i: int, v: Seq<char>)
    requires
        unique_keys(s),
        0 <= i < s.len(),
    ensures
        replay(s.update(i, (s[i].0, v))) == replay(s).insert(s[i].0, v),
    decreases s.len(),
{
    let t = s.update(i, (s[i].0, v));
    if i == s.len() - 1 {
        assert(t.drop_last() =~= s.drop_last());
        assert(t.last() == (s[i].0, v));
        assert(replay(s.drop_last()).insert(s[i].0, s[i].1).insert(s[i].0, v) =~= replay(
            s.drop_last(),
        ).insert(s[i].0, v));
    } else {
        assert(t.drop_last() =~= s.drop_last().update(i, (s[i].0, v)));
        assert forall|a: int, b: int| 0 <= a < b < s.drop_last().len() implies (#[trigger] s.drop_last()[a]).0
            != (#[trigger] s.drop_last()[b]).0 by {
            assert(s.drop_last()[a] == s[a]);
            assert(s.drop_last()[b] == s[b]);
        }
        assert(s.drop_last()[i] == s[i]);
        lemma_replay_update(s.drop_last(), i, v);
        assert(t.last() == s.last());
        assert(s[i].0 != s.last().0);
        assert(replay(s.drop_last()).insert(s[i].0, v).insert(s.last().0, s.last().1) =~= replay(
            s.drop_last(),
        ).insert(s.last().0, s.last().1).insert(s[i].0, v));
    }
}

/// Why a `set` call can fail, and why `rehydrate_from` or the opening of the
/// log can: the store's error taxonomy. `StorageOpen` is produced by the
/// caller that owns the storage when the log path cannot be opened or created.
#[derive(Debug)]
pub enum StoreError {
    /// The log path could not be created or opened.
    StorageOpen,
    /// An append, or the flush that makes it durable, failed; the index was
    /// left unchanged.
    StorageWrite,
    /// A log line did not decode into exactly two fields during replay.
    MalformedRecord { line: String },
    /// A key or value offered to the write path contains the field separator
    /// or a line break, which the encoding cannot represent.
    DelimiterInField,
}

/// What the storage layer reports for one attempted append: either the line
/// reached durable storage, or the write or its flush failed.
#[derive(Clone, Copy, Debug)]
pub enum AppendOutcome {
    Persisted,
    Failed,
}

/// The views of the index's records, in index order.
pub open spec fn entries_of(index: Seq<Record>) -> Seq<RecordView> {
    index.map_values(|r: Record| r@)
}

/// A durable map: the in-memory `index` mirrors the state that the log at
/// `log_file_name` denotes, the log being tracked here as the ghost sequence
/// of its records.
pub struct Store {
    log_file_name: String,
    index: Vec<Record>,
    log: Ghost<Seq<RecordView>>,
}

impl View for Store {
    type V = Map<Seq<char>, Seq<char>>;

    /// The store's contents: the state its log denotes.
    open spec fn view(&self) -> Map<Seq<char>, Seq<char>> {
        replay(self.log())
    }
}

impl Store {
    /// The records of the durable log, in append order.
    pub closed spec fn log(self) -> Seq<RecordView> {
        self.log@
    }

    /// The path of the log file this store was opened on.
    pub closed spec fn path(self) -> Seq<char> {
        self.log_file_name@
    }

    /// The store's invariant: the log's fields are free of delimiters, the
    /// index holds each key once, and the index is exactly the replayed log.
    pub closed spec fn wf(self) -> bool {
        &&& valid_log(self.log@)
        &&& unique_keys(entries_of(self.index@))
        &&& replay(entries_of(self.index@)) == replay(self.log@)
    }

    /// Rebuilds a store from the lines of the log at `log_file_name`, in file
    /// order, last write per key winning. Blank lines (such as the one a
    /// trailing terminator yields) are skipped; any other line that does not
    /// decode aborts the rehydration with that line's content.
    pub fn rehydrate_from(log_file_name: &str, lines: &Vec<String>) -> (r: Result<
        Store,
        StoreError,
    >)
        ensures
            match r {
                Ok(s) => {
                    &&& s.wf()
                    &&& lines_ok(lines.deep_view())
                    &&& s.log() == records_of(lines.deep_view())
                    &&& s.path() == log_file_name@
                },
                Err(e) => {
                    &&& !lines_ok(lines.deep_view())
                    &&& e matches StoreError::MalformedRecord { line: bad } && exists|i: int|
                        0 <= i < lines.deep_view().len() && !line_ok(
                            #[trigger] lines.deep_view()[i],
                        ) && lines_ok(lines.deep_view().take(i)) && bad@ == lines.deep_view()[i]
                },
            },
    {
        let ghost all = lines.deep_view();
        let mut index: Vec<Record> = Vec::new();
        let ghost mut log_model: Seq<RecordView> = Seq::empty();
        let n: usize = lines.len();
        let mut i: usize = 0;
        while i < n
            invariant
                i <= n,
                n == lines@.len(),
                all == lines.deep_view(),
                lines_ok(all.take(i as int)),
                valid_log(log_model),
                log_model == records_of(all.take(i as int)),
                unique_keys(entries_of(index@)),
                replay(entries_of(index@)) == replay(log_model),
            decreases n - i,
        {
            let line: &String = &lines[i];
            assert(line@ == all[i as int]);
            if !line.as_str().is_empty() {
                match codec::decode(line.as_str()) {
                    Ok(rec) => {
                        let ghost rk = rec.key@;
                        let ghost rv = rec.value@;
                        index_put(&mut index, rec);
                        proof {
                            assert(line_decodes(all[i as int]));
                            assert(decodes_to(
                                all[i as int],
                                record_of(all[i as int]).0,
                                record_of(all[i as int]).1,
                            ));
                            lemma_decode_unique(
                                all[i as int],
                                record_of(all[i as int]).0,
                                record_of(all[i as int]).1,
                                rk,
                                rv,
                            );
                            lemma_replay_push(log_model, (rk, rv));
                            let prev = log_model;
                            log_model = log_model.push((rk, rv));
                            assert forall|j: int| 0 <= j < log_model.len() implies valid_field(
                                (#[trigger] log_model[j]).0,
                            ) && valid_field(log_model[j].1) by {
                                if j < prev.len() {
                                    assert(log_model[j] == prev[j]);
                                }
                            }
                            assert(all.take(i + 1).drop_last() =~= all.take(i as int));
                            assert(all.take(i + 1).last() == all[i as int]);
                        }
                    },
                    Err(e) => {
                        proof {
                            assert(!line_ok(all[i as int]));
                        }
                        return Err(StoreError::MalformedRecord { line: e.line });
                    },
                }
            } else {
                proof {
                    assert(all.take(i + 1).drop_last() =~= all.take(i as int));
                    assert(all.take(i + 1).last() == all[i as int]);
                }
            }
            i = i + 1;
        }
        proof {
            assert(all.take(n as int) =~= all);
        }
        Ok(Store { log_file_name: log_file_name.to_owned(), index, log: Ghost(log_model) })
    }

    /// Serves `key` from the index alone: the value of the last record for
    /// that key, or `None` if the log holds no record for it. Never fails.
    pub fn get(&self, key: &str) -> (r: Option<&String>)
        requires
            self.wf(),
        ensures
            match r {
                Some(v) => self@.contains_key(key@) && v@ == self@[key@],
                None => !self@.contains_key(key@),
            },
    {
        let n: usize = self.index.len();
        let mut i: usize = 0;
        while i < n
            invariant
                i <= n,
                n == self.index@.len(),
                self.wf(),
                forall|j: int| 0 <= j < i ==> (#[trigger] entries_of(self.index@)[j]).0 != key@,
            decreases n - i,
        {
            if str_eq(self.index[i].key.as_str(), key) {
                proof {
                    let entries = entries_of(self.index@);
                    assert forall|j: int| i < j < entries.len() implies (#[trigger] entries[j]).0
                        != entries[i as int].0 by {}
                    lemma_last_writer_wins(entries, i as int);
                }
                return Some(&self.index[i].value);
            }
            i = i + 1;
        }
        proof {
            lemma_key_never_written(entries_of(self.index@), key@);
        }
        None
    }

    /// The first phase of a write: checks both fields for the delimiter
    /// characters and, if they are clean, yields the line the storage layer
    /// must append (and flush) before the write may become visible.
    pub fn prepare_set(&self, key: &str, value: &str) -> (r: Result<String, StoreError>)
        ensures
            (r is Ok) <==> (valid_field(key@) && valid_field(value@)),
            r matches Ok(line) ==> decodes_to(line@, key@, value@),
            r matches Err(e) ==> e is DelimiterInField,
    {
        if !codec::is_valid_field(key) || !codec::is_valid_field(value) {
            return Err(StoreError::DelimiterInField);
        }
        Ok(codec::encode(key, value))
    }

    /// The second phase of a write, run once the storage layer has reported
    /// on the append of the line `prepare_set` produced. Durability first: a
    /// persisted append extends the log and updates the index; a failed one
    /// leaves the store exactly as it was and surfaces the error.
    pub fn set(&mut self, key: &str, value: &str, outcome: AppendOutcome) -> (r: Result<
        (),
        StoreError,
    >)
        requires
            old(self).wf(),
            valid_field(key@),
            valid_field(value@),
        ensures
            final(self).wf(),
            final(self).path() == old(self).path(),
            outcome is Persisted ==> {
                &&& r is Ok
                &&& final(self).log() == old(self).log().push((key@, value@))
                &&& final(self)@ == old(self)@.insert(key@, value@)
            },
            outcome is Failed ==> {
                &&& r matches Err(e) && e is StorageWrite
                &&& *final(self) == *old(self)
            },
    {
        match outcome {
            AppendOutcome::Failed => Err(StoreError::StorageWrite),
            AppendOutcome::Persisted => {
                let rec = Record { key: key.to_owned(), value: value.to_owned() };
                index_put(&mut self.index, rec);
                proof {
                    lemma_replay_push(self.log@, (key@, value@));
                    self.log@ = self.log@.push((key@, value@));
                    assert forall|i: int| 0 <= i < self.log@.len() implies valid_field(
                        (#[trigger] self.log@[i]).0,
                    ) && valid_field(self.log@[i].1) by {
                        if i < old(self).log@.len() {
                            assert(self.log@[i] == old(self).log@[i]);
                        }
                    }
                }
                Ok(())
            },
        }
    }

    /// The path the store was opened on, for the storage layer to append to.
    pub fn log_file_name(&self) -> (r: &String)
        ensures
            r@ == self.path(),
    {
        &self.log_file_name
    }
}

/// Round trip: once a record for `key` is appended with value `value`, the
/// replayed state maps `key` to `value`.
pub proof fn lemma_set_then_get(log: Seq<RecordView>, key: Seq<char>, value: Seq<char>)
    ensures
        replay(log.push((key, value))).contains_key(key),
        replay(log.push((key, value)))[key] == value,
{
    lemma_replay_push(log, (key, value));
}

/// The lines a log's records encode to, in order: what a session's appends
/// leave in the file, one line per record.
pub open spec fn encoded_lines(log: Seq<RecordView>) -> Seq<Seq<char>> {
    log.map_values(|r: RecordView| encode_spec(r.0, r.1))
}

/// Replay equivalence: decoding the lines a valid log encodes to yields
/// exactly that log, record for record.
pub proof fn lemma_replay_equivalence(log: Seq<RecordView>)
    requires
        valid_log(log),
    ensures
        lines_ok(encoded_lines(log)),
        records_of(encoded_lines(log)) == log,
    decreases log.len(),
{
    let lines = encoded_lines(log);
    if log.len() == 0 {
        assert(records_of(lines) =~= log);
    } else {
        assert(lines.drop_last() =~= encoded_lines(log.drop_last()));
        assert forall|i: int| 0 <= i < log.drop_last().len() implies valid_field(
            (#[trigger] log.drop_last()[i]).0,
        ) && valid_field(log.drop_last()[i].1) by {
            assert(log.drop_last()[i] == log[i]);
        }
        lemma_replay_equivalence(log.drop_last());
        let last = log.last();
        let last_line = lines.last();
        assert(decodes_to(last_line, last.0, last.1));
        assert(decodes_to(last_line, record_of(last_line).0, record_of(last_line).1));
        lemma_decode_unique(
            last_line,
            record_of(last_line).0,
            record_of(last_line).1,
            last.0,
            last.1,
        );
        assert(record_of(last_line) == last);
        assert forall|i: int| 0 <= i < lines.len() implies line_ok(#[trigger] lines[i]) by {
            if i < lines.len() - 1 {
                assert(lines[i] == lines.drop_last()[i]);
            } else {
                assert(lines[i] == last_line);
            }
        }
        assert(records_of(lines) =~= log);
    }
}

/// A well-formed store re-opened on the lines its log encodes to denotes the
/// same contents, so every `get` answers as before the restart.
pub proof fn lemma_reopen(s: Store)
    requires
        s.wf(),
    ensures
        lines_ok(encoded_lines(s.log())),
        replay(records_of(encoded_lines(s.log()))) == s@,
{
    lemma_replay_equivalence(s.log());
}

/// The text of the log file: each record's line followed by the terminator.
pub open spec fn log_text(log: Seq<RecordView>) -> Seq<char>
    decreases log.len(),
{
    if log.len() == 0 {
        Seq::empty()
    } else {
        log_text(log.drop_last()) + encode_spec(log.last().0, log.last().1) + seq!['\n']
    }
}

/// Append-only: however a log is extended, the file text it denotes keeps
/// every earlier character at its offset and never shrinks.
pub proof fn lemma_append_only(log1: Seq<RecordView>, log2: Seq<RecordView>)
    requires
        log1.is_prefix_of(log2),
    ensures
        log_text(log1).len() <= log_text(log2).len(),
        log_text(log1).is_prefix_of(log_text(log2)),
    decreases log2.len(),
{
    if log1.len() == log2.len() {
        assert(log1 =~= log2);
        assert(log_text(log1) =~= log_text(log2).subrange(0, log_text(log1).len() as int));
    } else {
        assert(log1.is_prefix_of(log2.drop_last())) by {
            assert(log1 =~= log2.drop_last().subrange(0, log1.len() as int));
        }
        lemma_append_only(log1, log2.drop_last());
        let t1 = log_text(log1);
        let td = log_text(log2.drop_last());
        let t2 = log_text(log2);
        assert(t1 =~= t2.subrange(0, t1.len() as int)) by {
            assert forall|i: int| 0 <= i < t1.len() implies t1[i] == t2[i] by {
                assert(t1[i] == td.subrange(0, t1.len() as int)[i]);
                assert(td[i] == t2[i]);
            }
        }
    }
}

/// The position of the first line break in `text`, or its length if there is
/// none.
pub open spec fn line_break_index(text: Seq<char>) -> int
    decreases text.len(),
{
    if text.len() == 0 {
        0
    } else if text[0] == '\n' {
        0
    } else {
        1 + line_break_index(text.drop_first())
    }
}

/// The lines of a file text, as a line-based reader yields them: the runs of
/// characters between terminators, a final unterminated run included.
pub open spec fn split_lines(text: Seq<char>) -> Seq<Seq<char>>
    decreases text.len(),
{
    if text.len() == 0 {
        Seq::empty()
    } else {
        let i = line_break_index(text);
        if 0 <= i < text.len() {
            seq![text.take(i)] + split_lines(text.skip(i + 1))
        } else {
            seq![text]
        }
    }
}

/// A text that starts with a break-free line and its terminator breaks first
/// exactly where that line ends.
proof fn lemma_break_after_line(line: Seq<char>, rest: Seq<char>)
    requires
        forall|i: int| 0 <= i < line.len() ==> line[i] != '\n',
    ensures
        line_break_index(line + seq!['\n'] + rest) == line.len(),
    decreases line.len(),
{
    let t = line + seq!['\n'] + rest;
    if line.len() == 0 {
        assert(t[0] == '\n');
    } else {
        assert(t[0] == line[0]);
        lemma_break_after_line(line.drop_first(), rest);
        assert(t.drop_first() =~= line.drop_first() + seq!['\n'] + rest);
    }
}

/// The file text of a non-empty log, decomposed at its first record.
proof fn lemma_log_text_first_record(log: Seq<RecordView>)
    requires
        log.len() > 0,
    ensures
        log_text(log) == encode_spec(log[0].0, log[0].1) + seq!['\n'] + log_text(
            log.drop_first(),
        ),
    decreases log.len(),
{
    if log.len() == 1 {
        assert(log.drop_last().len() == 0);
        assert(log_text(log.drop_last()) == Seq::<char>::empty());
        assert(log.drop_first().len() == 0);
        assert(log_text(log.drop_first()) == Seq::<char>::empty());
        assert(log.last() == log[0]);
        assert(log_text(log) =~= encode_spec(log[0].0, log[0].1) + seq!['\n'] + log_text(
            log.drop_first(),
        ));
    } else {
        lemma_log_text_first_record(log.drop_last());
        assert(log.drop_last()[0] == log[0]);
        assert(log.drop_last().drop_first() =~= log.drop_first().drop_last());
        assert(log.drop_first().last() == log.last());
        assert(log.drop_first().len() > 0);
        assert(log_text(log.drop_first()) == log_text(log.drop_first().drop_last()) + encode_spec(
            log.drop_first().last().0,
            log.drop_first().last().1,
        ) + seq!['\n']);
        assert(log_text(log) =~= encode_spec(log[0].0, log[0].1) + seq!['\n'] + log_text(
            log.drop_first(),
        ));
    }
}

/// Durable round trip: the file text a valid log denotes, read back line by
/// line, is exactly the log's encoded lines, and decoding them yields the log
/// itself — a restart on what was written rebuilds the same store.
pub proof fn lemma_text_round_trip(log: Seq<RecordView>)
    requires
        valid_log(log),
    ensures
        split_lines(log_text(log)) == encoded_lines(log),
        records_of(split_lines(log_text(log))) == log,
    decreases log.len(),
{
    if log.len() == 0 {
        assert(split_lines(log_text(log)) =~= encoded_lines(log));
    } else {
        let first_line = encode_spec(log[0].0, log[0].1);
        assert(decodes_to(first_line, log[0].0, log[0].1));
        crate::codec::lemma_decoded_line_shape(first_line, log[0].0, log[0].1);
        lemma_log_text_first_record(log);
        let rest = log_text(log.drop_first());
        lemma_break_after_line(first_line, rest);
        let t = log_text(log);
        assert(line_break_index(t) == first_line.len());
        assert(t.take(first_line.len() as int) =~= first_line);
        assert(t.skip(first_line.len() + 1 as int) =~= rest);
        assert forall|i: int| 0 <= i < log.drop_first().len() implies valid_field(
            (#[trigger] log.drop_first()[i]).0,
        ) && valid_field(log.drop_first()[i].1) by {
            assert(log.drop_first()[i] == log[i + 1]);
        }
        lemma_text_round_trip(log.drop_first());
        assert(split_lines(t) =~= encoded_lines(log));
    }
    lemma_replay_equivalence(log);
}

/// One persisted write appends exactly its record's line and terminator to
/// the file text, leaving everything before it in place.
pub proof fn lemma_set_appends(log: Seq<RecordView>, r: RecordView)
    ensures
        log.is_prefix_of(log.push(r)),
        log_text(log).is_prefix_of(log_text(log.push(r))),
        log_text(log.push(r)) == log_text(log) + encode_spec(r.0, r.1) + seq!['\n'],
{
    assert(log =~= log.push(r).subrange(0, log.len() as int));
    assert(log.push(r).drop_last() =~= log);
    lemma_append_only(log, log.push(r));
}

/// `line` may stand in a well-formed log file: blank, or the encoding of a
/// record.
pub open spec fn line_ok(line: Seq<char>) -> bool {
    line.len() == 0 || line_decodes(line)
}

/// Every line of the file is blank or decodes.
pub open spec fn lines_ok(lines: Seq<Seq<char>>) -> bool {
    forall|i: int| 0 <= i < lines.len() ==> line_ok(#[trigger] lines[i])
}

/// The record a line encodes; meaningful only when `line_decodes(line)`.
pub open spec fn record_of(line: Seq<char>) -> RecordView {
    choose|k: Seq<char>, v: Seq<char>| decodes_to(line, k, v)
}

/// The records of a log file's lines, in file order, blank lines skipped.
pub open spec fn records_of(lines: Seq<Seq<char>>) -> Seq<RecordView>
    decreases lines.len(),
{
    if lines.len() == 0 {
        Seq::empty()
    } else {
        let rest = records_of(lines.drop_last());
        if lines.last().len() == 0 {
            rest
        } else {
            rest.push(record_of(lines.last()))
        }
    }
}

/// Inserts a record into the index, overwriting the entry with the same key
/// if there is one.
fn index_put(index: &mut Vec<Record>, rec: Record)
    requires
        unique_keys(entries_of(old(index)@)),
    ensures
        unique_keys(entries_of(final(index)@)),
        replay(entries_of(final(index)@)) == replay(entries_of(old(index)@)).insert(
            rec.key@,
            rec.value@,
        ),
{
    let ghost orig = index@;
    let ghost rk = rec.key@;
    let ghost rv = rec.value@;
    let n: usize = index.len();
    let mut i: usize = 0;
    while i < n
        invariant
            i <= n,
            n == index@.len(),
            index@ == orig,
            orig == old(index)@,
            unique_keys(entries_of(orig)),
            forall|j: int| 0 <= j < i ==> (#[trigger] entries_of(orig)[j]).0 != rk,
            rec.key@ == rk,
            rec.value@ == rv,
        decreases n - i,
    {
        if str_eq(index[i].key.as_str(), rec.key.as_str()) {
            index.set(i, rec);
            proof {
                assert(entries_of(index@) =~= entries_of(orig).update(i as int, (rk, rv)));
                assert(entries_of(orig)[i as int].0 == rk);
                lemma_replay_update(entries_of(orig), i as int, rv);
                let t = entries_of(orig).update(i as int, (rk, rv));
                assert forall|a: int, b: int| 0 <= a < b < t.len() implies (#[trigger] t[a]).0
                    != (#[trigger] t[b]).0 by {
                    assert(t[a].0 == entries_of(orig)[a].0);
                    assert(t[b].0 == entries_of(orig)[b].0);
                }
            }
            return;
        }
        i = i + 1;
    }
    index.push(rec);
    proof {
        assert(entries_of(index@) =~= entries_of(orig).push((rk, rv)));
        lemma_replay_push(entries_of(orig), (rk, rv));
        let t = entries_of(orig).push((rk, rv));
        assert forall|a: int, b: int| 0 <= a < b < t.len() implies (#[trigger] t[a]).0
            != (#[trigger] t[b]).0 by {
            assert(t[a].0 == entries_of(orig)[a].0);
            if b < t.len() - 1 {
                assert(t[b].0 == entries_of(orig)[b].0);
            }
        }
    }
}

/// Whether two strings hold the same characters.
fn str_eq(a: &str, b: &str) -> (r: bool)
    ensures
        r == (a@ == b@),
{
    let a_len: usize = a.unicode_len();
    let b_len: usize = b.unicode_len();
    if a_len != b_len {
        return false;
    }
    let mut i: usize = 0;
    while i < a_len
        invariant
            i <= a_len,
            a_len == a@.len(),
            a_len == b@.len(),
            forall|j: int| 0 <= j < i ==> a@[j] == b@[j],
        decreases a_len - i,
    {
        if a.get_char(i) != b.get_char(i) {
            return false;
        }
        i = i + 1;
    }
    proof {
        assert(a@ =~= b@);
    }
    true
}

} // verus!
