//! The log-structured store: an append-only log of records, an in-memory
//! index from each key to its most recent `Set` record, and size-triggered
//! compaction.
//!
//! The store works on the log's bytes; reading the log file into memory and
//! writing appended records back out is the unverified edge around the
//! library. [`KvStore::take_rewritten`] tells that edge whether the log was
//! rewritten in place (after compaction) or only appended to.

use vstd::prelude::*;
use crate::codec::{
    DELIM, delim_free, encode_command, find_delim, lemma_encode_delim_free,
    lemma_find_delim_bounds, lemma_parse_encode, lemma_parse_log_append, parse_command,
    spec_encode_command, spec_parse_command, spec_parse_log,
};
use crate::command::{Command, CommandView};
use crate::error::KvsError;
use crate::index::{
    LogInFile, entries_map, find_entry, index_insert, index_remove, lemma_entries_map_dom,
    lemma_entries_map_get, lemma_live_sum_ge, lemma_live_sum_nonneg, live_sum, uniq_keys,
};

verus! {

/// Compaction threshold: once more than this many log bytes are dead, the
/// next `set` or `remove` rewrites the log.
pub const MAX_UNCOMPACTED_SIZE: u64 = 1024 * 1024;

/// The bytes of one whole record: an encoded command and its delimiter.
pub open spec fn record_bytes(c: CommandView) -> Seq<u8> {
    spec_encode_command(c) + seq![DELIM]
}

/// The byte span that a pointer selects.
pub open spec fn span_of(log: Seq<u8>, p: LogInFile) -> Seq<u8> {
    log.subrange(p.offset as int, p.offset + p.length)
}

/// The pointer selects a whole record for the key: in bounds, closed by the
/// record's delimiter and holding no other, and decoding to a `Set` of that
/// key.
pub open spec fn entry_is_put(log: Seq<u8>, k: Seq<char>, p: LogInFile) -> bool {
    &&& p.length >= 1
    &&& p.offset + p.length <= log.len()
    &&& log[p.offset + p.length - 1] == DELIM
    &&& delim_free(span_of(log, p).drop_last())
    &&& match spec_parse_command(span_of(log, p).drop_last()) {
        Some(CommandView::Put { key, .. }) => key == k,
        _ => false,
    }
}

/// The value of the `Set` record that the pointer selects.
pub open spec fn entry_value(log: Seq<u8>, p: LogInFile) -> Seq<char> {
    match spec_parse_command(span_of(log, p).drop_last()) {
        Some(CommandView::Put { value, .. }) => value,
        _ => Seq::empty(),
    }
}

/// The key-value map that an index reads out of a log.
pub open spec fn kv_of(log: Seq<u8>, es: Seq<(String, LogInFile)>) -> Map<Seq<char>, Seq<char>> {
    Map::new(
        |k: Seq<char>| entries_map(es).dom().contains(k),
        |k: Seq<char>| entry_value(log, entries_map(es)[k]),
    )
}

/// One command applied to a key-value map.
pub open spec fn apply_command(m: Map<Seq<char>, Seq<char>>, c: CommandView) -> Map<
    Seq<char>,
    Seq<char>,
> {
    match c {
        CommandView::Put { key, value } => m.insert(key, value),
        CommandView::Rm { key } => m.remove(key),
        CommandView::Get { .. } => m,
    }
}

/// The key-value map that a sequence of commands replays to.
pub open spec fn replay_kv(cmds: Seq<CommandView>) -> Map<Seq<char>, Seq<char>>
    decreases cmds.len(),
{
    if cmds.len() == 0 {
        Map::empty()
    } else {
        apply_command(replay_kv(cmds.drop_last()), cmds.last())
    }
}

/// What a lookup in a key-value map returns.
pub open spec fn spec_lookup(m: Map<Seq<char>, Seq<char>>, k: Seq<char>) -> Option<Seq<char>> {
    if m.dom().contains(k) {
        Some(m[k])
    } else {
        None
    }
}

/// Replaying one more command applies it to the replayed map.
pub proof fn lemma_replay_push(cmds: Seq<CommandView>, c: CommandView)
    ensures
        replay_kv(cmds.push(c)) == apply_command(replay_kv(cmds), c),
{
    assert(cmds.push(c).drop_last() =~= cmds);
    assert(cmds.push(c).last() == c);
}

/// Appending bytes to the log moves no existing entry and changes no
/// entry's record or value.
proof fn lemma_entries_unchanged_by_append(
    log: Seq<u8>,
    tail: Seq<u8>,
    es: Seq<(String, LogInFile)>,
)
    requires
        forall|i: int| 0 <= i < es.len() ==> entry_is_put(log, (#[trigger] es[i]).0@, es[i].1),
    ensures
        forall|i: int|
            0 <= i < es.len() ==> entry_is_put(log + tail, (#[trigger] es[i]).0@, es[i].1),
        forall|i: int|
            0 <= i < es.len() ==> entry_value(log + tail, (#[trigger] es[i]).1) == entry_value(
                log,
                es[i].1,
            ),
{
    assert forall|i: int| 0 <= i < es.len() implies entry_is_put(
        log + tail,
        (#[trigger] es[i]).0@,
        es[i].1,
    ) && entry_value(log + tail, es[i].1) == entry_value(log, es[i].1) by {
        let p = es[i].1;
        assert(span_of(log + tail, p) =~= span_of(log, p));
        assert((log + tail)[p.offset + p.length - 1] == log[p.offset + p.length - 1]);
    }
}

/// Pointing a key at a record of the appended bytes inserts the record's
/// value into the read-out map.
proof fn lemma_kv_insert(
    log: Seq<u8>,
    tail: Seq<u8>,
    es: Seq<(String, LogInFile)>,
    es2: Seq<(String, LogInFile)>,
    key: Seq<char>,
    ptr: LogInFile,
    value: Seq<char>,
)
    requires
        uniq_keys(es),
        forall|i: int| 0 <= i < es.len() ==> entry_is_put(log, (#[trigger] es[i]).0@, es[i].1),
        entries_map(es2) == entries_map(es).insert(key, ptr),
        entry_value(log + tail, ptr) == value,
    ensures
        kv_of(log + tail, es2) == kv_of(log, es).insert(key, value),
{
    lemma_entries_unchanged_by_append(log, tail, es);
    let lhs = kv_of(log + tail, es2);
    let rhs = kv_of(log, es).insert(key, value);
    assert forall|k: Seq<char>| lhs.dom().contains(k) implies rhs.dom().contains(k) by {
        lemma_entries_map_dom(es, k);
    }
    assert forall|k: Seq<char>| rhs.dom().contains(k) implies lhs.dom().contains(k) by {
        lemma_entries_map_dom(es, k);
    }
    assert forall|k: Seq<char>| lhs.dom().contains(k) implies lhs[k] == rhs[k] by {
        if k == key {
        } else {
            lemma_entries_map_dom(es, k);
            let i = choose|i: int| 0 <= i < es.len() && es[i].0@ == k;
            lemma_entries_map_get(es, i);
        }
    }
    assert(lhs =~= rhs);
}

/// Dropping a key's entry removes it from the read-out map, with the rest
/// unchanged, also after an append to the log.
proof fn lemma_kv_remove(
    log: Seq<u8>,
    tail: Seq<u8>,
    es: Seq<(String, LogInFile)>,
    es2: Seq<(String, LogInFile)>,
    key: Seq<char>,
)
    requires
        uniq_keys(es),
        forall|i: int| 0 <= i < es.len() ==> entry_is_put(log, (#[trigger] es[i]).0@, es[i].1),
        entries_map(es2) == entries_map(es).remove(key),
    ensures
        kv_of(log + tail, es2) == kv_of(log, es).remove(key),
{
    lemma_entries_unchanged_by_append(log, tail, es);
    let lhs = kv_of(log + tail, es2);
    let rhs = kv_of(log, es).remove(key);
    assert forall|k: Seq<char>| lhs.dom().contains(k) implies rhs.dom().contains(k) by {
        lemma_entries_map_dom(es, k);
    }
    assert forall|k: Seq<char>| rhs.dom().contains(k) implies lhs.dom().contains(k) by {
        lemma_entries_map_dom(es, k);
    }
    assert forall|k: Seq<char>| lhs.dom().contains(k) implies lhs[k] == rhs[k] by {
        lemma_entries_map_dom(es, k);
        let i = choose|i: int| 0 <= i < es.len() && es[i].0@ == k;
        lemma_entries_map_get(es, i);
    }
    assert(lhs =~= rhs);
}

/// Append an encoded command and the record delimiter to the log.
fn push_record(log: &mut Vec<u8>, enc: &Vec<u8>)
    ensures
        final(log)@ == old(log)@ + enc@ + seq![DELIM],
{
    let ghost base: Seq<u8> = log@;
    let mut i: usize = 0;
    while i < enc.len()
        invariant
            0 <= i <= enc@.len(),
            log@ == base + enc@.take(i as int),
        decreases enc@.len() - i,
    {
        let b = enc[i];
        log.push(b);
        proof {
            assert(enc@.take(i as int).push(enc@[i as int]) =~= enc@.take(i as int + 1));
            assert(log@ =~= base + enc@.take(i as int + 1));
        }
        i = i + 1;
    }
    proof {
        assert(enc@.take(enc@.len() as int) =~= enc@);
    }
    log.push(DELIM);
    proof {
        assert(log@ =~= base + enc@ + seq![DELIM]);
    }
}

/// Append the log bytes in `[off, end)` to the new log.
fn copy_range(dst: &mut Vec<u8>, src: &Vec<u8>, off: usize, end: usize)
    requires
        off <= end <= src@.len(),
    ensures
        final(dst)@ == old(dst)@ + src@.subrange(off as int, end as int),
{
    let ghost base: Seq<u8> = dst@;
    let mut j: usize = off;
    while j < end
        invariant
            off <= j <= end,
            end <= src@.len(),
            dst@ == base + src@.subrange(off as int, j as int),
        decreases end - j,
    {
        let b = src[j];
        dst.push(b);
        proof {
            assert(src@.subrange(off as int, j as int).push(src@[j as int]) =~= src@.subrange(
                off as int,
                j as int + 1,
            ));
            assert(dst@ =~= base + src@.subrange(off as int, j as int + 1));
        }
        j = j + 1;
    }
}

/// The log-structured key-value store: a log of records held as bytes, the
/// index over it, the write offset, and the count of dead bytes.
pub struct KvStore {
    log: Vec<u8>,
    index: Vec<(String, LogInFile)>,
    position: u64,
    uncompacted_size: u64,
    rewritten: bool,
}

impl View for KvStore {
    type V = Map<Seq<char>, Seq<char>>;

    closed spec fn view(&self) -> Map<Seq<char>, Seq<char>> {
        kv_of(self.log@, self.index@)
    }
}

impl KvStore {
    /// The log's bytes, as the store believes them.
    pub closed spec fn log_view(&self) -> Seq<u8> {
        self.log@
    }

    /// The write offset: the log's length.
    pub closed spec fn spec_position(&self) -> u64 {
        self.position
    }

    /// How many log bytes are no longer reachable from the index.
    pub closed spec fn spec_uncompacted(&self) -> u64 {
        self.uncompacted_size
    }

    /// Whether the log was rewritten in place since the flag was last taken.
    pub closed spec fn spec_rewritten(&self) -> bool {
        self.rewritten
    }

    /// The store's invariant: the offset is the log's length, the index's
    /// keys are unique and each points at a whole `Set` record for that key,
    /// the log replays to exactly the map the index reads out of it, and the
    /// dead-byte counter is the log's length less its live bytes.
    pub closed spec fn wf(&self) -> bool {
        &&& self.position == self.log@.len()
        &&& uniq_keys(self.index@)
        &&& forall|i: int|
            0 <= i < self.index@.len() ==> entry_is_put(
                self.log@,
                (#[trigger] self.index@[i]).0@,
                self.index@[i].1,
            )
        &&& spec_parse_log(self.log@) is Some
        &&& replay_kv(spec_parse_log(self.log@).unwrap()) == kv_of(self.log@, self.index@)
        &&& self.uncompacted_size as int == self.position as int - live_sum(self.index@)
    }

    /// The whole log, for the persistence edge to write out.
    pub fn log_bytes(&self) -> (r: &Vec<u8>)
        ensures
            r@ == self.log_view(),
    {
        &self.log
    }

    /// The current write offset.
    pub fn position(&self) -> (r: u64)
        ensures
            r == self.spec_position(),
    {
        self.position
    }

    /// How many log bytes are dead: superseded or removed.
    pub fn uncompacted_bytes(&self) -> (r: u64)
        ensures
            r == self.spec_uncompacted(),
    {
        self.uncompacted_size
    }

    /// Whether the log was rewritten in place since last asked, clearing the
    /// flag. The persistence edge rewrites the whole log file when this is
    /// true and appends the new bytes otherwise.
    pub fn take_rewritten(&mut self) -> (r: bool)
        ensures
            r == old(self).spec_rewritten(),
            !final(self).spec_rewritten(),
            final(self)@ == old(self)@,
            final(self).log_view() == old(self).log_view(),
            final(self).spec_position() == old(self).spec_position(),
            final(self).spec_uncompacted() == old(self).spec_uncompacted(),
            old(self).wf() ==> final(self).wf(),
    {
        let r = self.rewritten;
        self.rewritten = false;
        r
    }

    /// Look the key up in the index and read its value back out of the log.
    /// A missing key is `Ok(None)`; under the invariant the stored span
    /// always decodes, so the lookup cannot fail.
    pub fn get(&mut self, key: String) -> (r: Result<Option<String>, KvsError>)
        requires
            old(self).wf(),
        ensures
            *final(self) == *old(self),
            match spec_lookup(old(self)@, key@) {
                Some(v) => r matches Ok(Some(s)) && s@ == v,
                None => r matches Ok(o) && o is None,
            },
    {
        match find_entry(&self.index, &key) {
            None => {
                proof {
                    lemma_entries_map_dom(self.index@, key@);
                }
                Ok(None)
            },
            Some(i) => {
                let ptr = self.index[i].1;
                proof {
                    lemma_entries_map_get(self.index@, i as int);
                    assert(entry_is_put(
                        self.log@,
                        (self.index@[i as int]).0@,
                        self.index@[i as int].1,
                    ));
                    assert(entry_is_put(self.log@, key@, ptr));
                    vstd::std_specs::vec::axiom_spec_len(&self.log);
                    assert(self.log@.len() <= usize::MAX);
                }
                let off = ptr.offset as usize;
                let end = (ptr.offset + ptr.length) as usize;
                let body = &self.log[off..end - 1];
                proof {
                    assert(body@ =~= span_of(self.log@, ptr).drop_last());
                }
                match parse_command(body) {
                    Some(cmd) => {
                        match cmd {
                            Command::Put { value, .. } => {
                                proof {
                                    assert(self@[key@] == entry_value(self.log@, ptr));
                                }
                                Ok(Some(value))
                            },
                            _ => {
                                proof {
                                    assert(false);
                                }
                                Err(KvsError::Corruption)
                            },
                        }
                    },
                    None => {
                        proof {
                            assert(false);
                        }
                        Err(KvsError::Corruption)
                    },
                }
            },
        }
    }

    /// Append a `Set` record, point the index at it, count the superseded
    /// record's bytes as dead, and compact past the threshold.
    #[verifier::rlimit(60)]
    pub fn set(&mut self, key: String, value: String) -> (r: Result<(), KvsError>)
        requires
            old(self).wf(),
        ensures
            final(self).wf(),
            r is Ok,
            final(self)@ == old(self)@.insert(key@, value@),
            final(self).spec_uncompacted() <= MAX_UNCOMPACTED_SIZE,
            old(self).spec_rewritten() ==> final(self).spec_rewritten(),
            !final(self).spec_rewritten() ==> final(self).log_view() == old(self).log_view()
                + record_bytes(CommandView::Put { key: key@, value: value@ }),
    {
        let ghost cv = CommandView::Put { key: key@, value: value@ };
        let ghost log0 = self.log@;
        let ghost es0 = self.index@;
        let cmd = Command::Put { key: key.clone(), value };
        let enc = encode_command(&cmd);
        proof {
            assert(cmd@ == cv);
            lemma_encode_delim_free(cv);
            lemma_parse_encode(cv);
        }
        let offset = self.position;
        push_record(&mut self.log, &enc);
        self.position = self.log.len() as u64;
        let length = self.position - offset;
        let ptr = LogInFile::new(offset, length);
        proof {
            let tail = enc@ + seq![DELIM];
            assert(self.log@ =~= log0 + tail);
            assert(span_of(self.log@, ptr) =~= tail);
            assert(span_of(self.log@, ptr).drop_last() =~= enc@);
            assert(entry_is_put(self.log@, key@, ptr));
            assert(entry_value(self.log@, ptr) == value@);
            lemma_entries_unchanged_by_append(log0, tail, es0);
        }
        let prior = index_insert(&mut self.index, key, ptr);
        proof {
            let tail = enc@ + seq![DELIM];
            lemma_kv_insert(log0, tail, es0, self.index@, cv->Put_key, ptr, cv->Put_value);
            lemma_parse_log_append(log0, enc@, cv);
            lemma_replay_push(spec_parse_log(log0).unwrap(), cv);
            if prior is Some {
                lemma_entries_map_dom(es0, cv->Put_key);
                let i = choose|i: int| 0 <= i < es0.len() && es0[i].0@ == cv->Put_key;
                lemma_entries_map_get(es0, i);
                lemma_live_sum_ge(es0, i);
            } else {
                lemma_live_sum_nonneg(es0);
            }
        }
        match prior {
            Some(p) => {
                self.uncompacted_size = self.uncompacted_size + p.length;
            },
            None => {},
        }
        proof {
            assert(self.wf());
        }
        if self.uncompacted_size > MAX_UNCOMPACTED_SIZE {
            match self.compact() {
                Ok(()) => {},
                Err(_) => {
                    proof {
                        assert(false);
                    }
                },
            }
        }
        Ok(())
    }

    /// Fail with `KeyNotFoundError` when the key has no entry; otherwise
    /// drop the entry, append a `Remove` tombstone so that replay does not
    /// resurrect the key, count the dead bytes, and compact past the
    /// threshold.
    #[verifier::rlimit(60)]
    pub fn remove(&mut self, key: String) -> (r: Result<(), KvsError>)
        requires
            old(self).wf(),
        ensures
            final(self).wf(),
            r is Ok ==> final(self).spec_uncompacted() <= MAX_UNCOMPACTED_SIZE,
            old(self)@.dom().contains(key@) ==> r is Ok && final(self)@ == old(self)@.remove(
                key@,
            ),
            !old(self)@.dom().contains(key@) ==> r == Err::<(), KvsError>(
                KvsError::KeyNotFoundError,
            ) && *final(self) == *old(self),
            old(self).spec_rewritten() ==> final(self).spec_rewritten(),
            r is Ok && !final(self).spec_rewritten() ==> final(self).log_view() == old(
                self,
            ).log_view() + record_bytes(CommandView::Rm { key: key@ }),
    {
        let ghost cv = CommandView::Rm { key: key@ };
        let ghost log0 = self.log@;
        let ghost es0 = self.index@;
        proof {
            lemma_entries_map_dom(es0, key@);
        }
        if find_entry(&self.index, &key).is_none() {
            return Err(KvsError::KeyNotFoundError);
        }
        let prior = index_remove(&mut self.index, &key);
        match prior {
            None => {
                proof {
                    assert(false);
                }
                Err(KvsError::KeyNotFoundError)
            },
            Some(p) => {
                proof {
                    let i = choose|i: int| 0 <= i < es0.len() && es0[i].0@ == key@;
                    lemma_entries_map_get(es0, i);
                    lemma_live_sum_ge(es0, i);
                    lemma_live_sum_nonneg(self.index@);
                }
                let cmd = Command::Rm { key };
                let enc = encode_command(&cmd);
                proof {
                    assert(cmd@ == cv);
                    lemma_encode_delim_free(cv);
                    lemma_parse_encode(cv);
                }
                let offset = self.position;
                push_record(&mut self.log, &enc);
                self.position = self.log.len() as u64;
                let tomb_len = self.position - offset;
                self.uncompacted_size = self.uncompacted_size + p.length + tomb_len;
                proof {
                    let tail = enc@ + seq![DELIM];
                    assert(self.log@ =~= log0 + tail);
                    lemma_entries_unchanged_by_append(log0, tail, self.index@);
                    lemma_kv_remove(log0, tail, es0, self.index@, cv->Rm_key);
                    lemma_parse_log_append(log0, enc@, cv);
                    lemma_replay_push(spec_parse_log(log0).unwrap(), cv);
                    assert(self.wf());
                }
                if self.uncompacted_size > MAX_UNCOMPACTED_SIZE {
                    match self.compact() {
                        Ok(()) => {},
                        Err(_) => {
                            proof {
                                assert(false);
                            }
                        },
                    }
                }
                Ok(())
            },
        }
    }

    /// A fresh, empty store: an empty log, an empty index, nothing dead.
    pub fn new() -> (s: KvStore)
        ensures
            s.wf(),
            s@ == Map::<Seq<char>, Seq<char>>::empty(),
            s.log_view() == Seq::<u8>::empty(),
            s.spec_position() == 0,
            s.spec_uncompacted() == 0,
            !s.spec_rewritten(),
    {
        let s = KvStore {
            log: Vec::new(),
            index: Vec::new(),
            position: 0,
            uncompacted_size: 0,
            rewritten: false,
        };
        proof {
            assert(spec_parse_log(s.log@) == Some(Seq::<CommandView>::empty()));
            assert(replay_kv(Seq::<CommandView>::empty()) =~= kv_of(s.log@, s.index@));
            assert(s@ =~= Map::<Seq<char>, Seq<char>>::empty());
        }
        s
    }

    /// Build a store by replaying a log's bytes from the start: each `Set`
    /// record inserts its span into the index, each `Remove` deletes the
    /// key, and the write offset advances over every record. A record that
    /// does not decode, or a last record with no delimiter, is fatal
    /// corruption: no partial recovery is attempted.
    #[verifier::rlimit(100)]
    pub fn open(log: Vec<u8>) -> (r: Result<KvStore, KvsError>)
        ensures
            r is Ok <==> spec_parse_log(log@) is Some,
            match r {
                Ok(s) => {
                    &&& s.wf()
                    &&& s@ == replay_kv(spec_parse_log(log@).unwrap())
                    &&& s.log_view() == log@
                    &&& s.spec_position() == log@.len()
                    &&& !s.spec_rewritten()
                },
                Err(e) => e == KvsError::Corruption,
            },
    {
        let n = log.len();
        let mut index: Vec<(String, LogInFile)> = Vec::new();
        let mut unc: u64 = 0;
        let mut pos: usize = 0;
        let ghost mut done: Seq<CommandView> = Seq::empty();
        proof {
            assert(log@.skip(0) =~= log@);
            assert(done + spec_parse_log(log@).unwrap() =~= spec_parse_log(log@).unwrap());
            assert(replay_kv(done) =~= kv_of(log@, index@));
        }
        while pos < n
            invariant
                n == log@.len(),
                0 <= pos <= n,
                uniq_keys(index@),
                forall|j: int|
                    0 <= j < index@.len() ==> entry_is_put(
                        log@,
                        (#[trigger] index@[j]).0@,
                        index@[j].1,
                    ),
                spec_parse_log(log@.skip(pos as int)) is Some ==> spec_parse_log(log@) == Some(
                    done + spec_parse_log(log@.skip(pos as int)).unwrap(),
                ),
                spec_parse_log(log@.skip(pos as int)) is None ==> spec_parse_log(log@) is None,
                replay_kv(done) == kv_of(log@, index@),
                unc as int == pos - live_sum(index@),
            decreases n - pos,
        {
            let mut j = pos;
            while j < n && log[j] != DELIM
                invariant
                    n == log@.len(),
                    pos <= j <= n,
                    forall|m: int| pos <= m < j ==> log@[m] != DELIM,
                decreases n - j,
            {
                j = j + 1;
            }
            let ghost rec = log@.skip(pos as int);
            if j == n {
                proof {
                    assert forall|m: int| 0 <= m < rec.len() implies rec[m] != DELIM by {
                        assert(rec[m] == log@[pos + m]);
                    }
                    lemma_find_delim_bounds(rec);
                    if find_delim(rec) is Some {
                        assert(rec[find_delim(rec).unwrap()] == DELIM);
                        assert(false);
                    }
                    assert(spec_parse_log(rec) is None);
                }
                return Err(KvsError::Corruption);
            }
            let body = &log[pos..j];
            proof {
                assert(delim_free(body@)) by {
                    assert forall|m: int| 0 <= m < body@.len() implies body@[m] != DELIM by {
                        assert(body@[m] == log@[pos + m]);
                    }
                }
                assert(rec =~= body@ + seq![DELIM] + log@.skip(j as int + 1));
                crate::codec::lemma_find_delim_after_free(body@, log@.skip(j as int + 1));
                assert(find_delim(rec) == Some(j - pos as int));
                assert(rec.take(j - pos as int) =~= body@);
                assert(rec.skip(j - pos as int + 1) =~= log@.skip(j as int + 1));
            }
            match parse_command(body) {
                None => {
                    proof {
                        assert(spec_parse_log(rec) is None);
                    }
                    return Err(KvsError::Corruption);
                },
                Some(cmd) => {
                    let ghost cv = spec_parse_command(body@).unwrap();
                    let ghost es_b = index@;
                    let rec_len = (j + 1 - pos) as u64;
                    match cmd {
                        Command::Put { key, .. } => {
                            let ptr = LogInFile::new(pos as u64, rec_len);
                            proof {
                                assert(span_of(log@, ptr) =~= body@ + seq![DELIM]);
                                assert(span_of(log@, ptr).drop_last() =~= body@);
                                assert(log@[ptr.offset + ptr.length - 1] == DELIM);
                                assert(entry_is_put(log@, key@, ptr));
                                assert(entry_value(log@, ptr) == cv->Put_value);
                                if entries_map(es_b).dom().contains(key@) {
                                    lemma_entries_map_dom(es_b, key@);
                                    let i0 = choose|i0: int|
                                        0 <= i0 < es_b.len() && es_b[i0].0@ == key@;
                                    lemma_entries_map_get(es_b, i0);
                                    lemma_live_sum_ge(es_b, i0);
                                } else {
                                    lemma_live_sum_nonneg(es_b);
                                }
                            }
                            let prior = index_insert(&mut index, key, ptr);
                            match prior {
                                Some(p) => {
                                    unc = unc + p.length;
                                },
                                None => {},
                            }
                            proof {
                                assert(log@ + Seq::<u8>::empty() =~= log@);
                                lemma_kv_insert(
                                    log@,
                                    Seq::<u8>::empty(),
                                    es_b,
                                    index@,
                                    cv->Put_key,
                                    ptr,
                                    cv->Put_value,
                                );
                                lemma_replay_push(done, cv);
                            }
                        },
                        Command::Rm { key } => {
                            proof {
                                if entries_map(es_b).dom().contains(key@) {
                                    lemma_entries_map_dom(es_b, key@);
                                    let i0 = choose|i0: int|
                                        0 <= i0 < es_b.len() && es_b[i0].0@ == key@;
                                    lemma_entries_map_get(es_b, i0);
                                    lemma_live_sum_ge(es_b, i0);
                                } else {
                                    lemma_live_sum_nonneg(es_b);
                                }
                            }
                            let prior = index_remove(&mut index, &key);
                            match prior {
                                Some(p) => {
                                    unc = unc + p.length + rec_len;
                                },
                                None => {
                                    unc = unc + rec_len;
                                },
                            }
                            proof {
                                assert(log@ + Seq::<u8>::empty() =~= log@);
                                if prior is Some {
                                    lemma_kv_remove(
                                        log@,
                                        Seq::<u8>::empty(),
                                        es_b,
                                        index@,
                                        cv->Rm_key,
                                    );
                                } else {
                                    assert(!kv_of(log@, es_b).dom().contains(cv->Rm_key));
                                    assert(kv_of(log@, index@) =~= kv_of(log@, es_b).remove(
                                        cv->Rm_key,
                                    ));
                                }
                                lemma_replay_push(done, cv);
                            }
                        },
                        Command::Get { .. } => {
                            proof {
                                lemma_live_sum_nonneg(index@);
                            }
                            unc = unc + rec_len;
                            proof {
                                lemma_replay_push(done, cv);
                            }
                        },
                    }
                    proof {
                        done = done.push(cv);
                        if spec_parse_log(log@.skip(j as int + 1)) is Some {
                            let rest2 = spec_parse_log(log@.skip(j as int + 1)).unwrap();
                            assert(spec_parse_log(rec) == Some(seq![cv] + rest2));
                            assert(es_b + Seq::<(String, LogInFile)>::empty() =~= es_b);
                            assert(done.drop_last() + (seq![cv] + rest2) =~= done + rest2);
                        } else {
                            assert(spec_parse_log(rec) is None);
                        }
                    }
                    pos = j + 1;
                },
            }
        }
        proof {
            assert(log@.skip(pos as int) =~= Seq::<u8>::empty());
            assert(spec_parse_log(Seq::<u8>::empty()) == Some(Seq::<CommandView>::empty()));
            assert(done + Seq::<CommandView>::empty() =~= done);
            assert(spec_parse_log(log@) == Some(done));
        }
        let position = n as u64;
        let s = KvStore { log, index, position, uncompacted_size: unc, rewritten: false };
        proof {
            assert(s.wf());
        }
        Ok(s)
    }

    /// Rewrite the log to hold only the records the index still references,
    /// each copied verbatim to a freshly packed offset; dead bytes drop to
    /// zero and the log shrinks by exactly the dead bytes.
    #[verifier::rlimit(100)]
    pub fn compact(&mut self) -> (r: Result<(), KvsError>)
        requires
            old(self).wf(),
        ensures
            final(self).wf(),
            r is Ok,
            final(self)@ == old(self)@,
            final(self).spec_uncompacted() == 0,
            final(self).spec_position() == old(self).spec_position() - old(
                self,
            ).spec_uncompacted(),
            final(self).spec_rewritten(),
    {
        let ghost log0 = self.log@;
        let ghost es0 = self.index@;
        let mut new_log: Vec<u8> = Vec::new();
        let mut i: usize = 0;
        proof {
            vstd::std_specs::vec::axiom_spec_len(&self.log);
            assert(self.index@.take(0) =~= Seq::<(String, LogInFile)>::empty());
            assert(spec_parse_log(new_log@) == Some(Seq::<CommandView>::empty()));
            assert(replay_kv(Seq::<CommandView>::empty()) =~= kv_of(
                new_log@,
                self.index@.take(0),
            ));
        }
        while i < self.index.len()
            invariant
                0 <= i <= es0.len(),
                self.log@ == log0,
                log0.len() <= usize::MAX,
                uniq_keys(es0),
                forall|j: int|
                    0 <= j < es0.len() ==> entry_is_put(log0, (#[trigger] es0[j]).0@, es0[j].1),
                self.index@.len() == es0.len(),
                forall|j: int| 0 <= j < es0.len() ==> (#[trigger] self.index@[j]).0@ == es0[j].0@,
                forall|j: int|
                    0 <= j < es0.len() ==> (#[trigger] self.index@[j]).1.length == es0[j].1.length,
                forall|j: int| i <= j < es0.len() ==> self.index@[j] == es0[j],
                uniq_keys(self.index@),
                forall|j: int|
                    0 <= j < i ==> entry_is_put(
                        new_log@,
                        (#[trigger] self.index@[j]).0@,
                        self.index@[j].1,
                    ),
                forall|j: int|
                    0 <= j < i ==> entry_value(new_log@, (#[trigger] self.index@[j]).1)
                        == entry_value(log0, es0[j].1),
                new_log@.len() == live_sum(self.index@.take(i as int)),
                live_sum(self.index@.take(i as int)) == live_sum(es0.take(i as int)),
                spec_parse_log(new_log@) is Some,
                replay_kv(spec_parse_log(new_log@).unwrap()) == kv_of(
                    new_log@,
                    self.index@.take(i as int),
                ),
            decreases es0.len() - i,
        {
            let p = self.index[i].1;
            let ghost k = self.index@[i as int].0@;
            proof {
                assert(self.index@[i as int] == es0[i as int]);
                assert(entry_is_put(log0, k, p));
            }
            let new_off = new_log.len() as u64;
            let off = p.offset as usize;
            let end = (p.offset + p.length) as usize;
            let ghost new_log0 = new_log@;
            let ghost span = span_of(log0, p);
            copy_range(&mut new_log, &self.log, off, end);
            proof {
                assert(new_log@ == new_log0 + span);
            }
            let ghost es_before = self.index@;
            let e = vstd::std_specs::vec::vec_index_mut(&mut self.index, i);
            e.1 = LogInFile { offset: new_off, length: p.length };
            let ghost np = LogInFile { offset: new_off, length: p.length };
            proof {
                assert(self.index@ == es_before.update(i as int, (es_before[i as int].0, np)));
                assert(self.index@.take(i as int) =~= es_before.take(i as int));
                assert(self.index@[i as int].0@ == k);
                // the fresh span is the old record, verbatim
                assert(span_of(new_log@, np) =~= span);
                assert(span.len() == p.length);
                assert(span.drop_last() =~= span_of(log0, p).drop_last());
                assert(new_log@[np.offset + np.length - 1] == span[p.length - 1]);
                assert(span[p.length - 1] == log0[p.offset + p.length - 1]);
                assert(entry_is_put(new_log@, k, np));
                assert(entry_value(new_log@, np) == entry_value(log0, p));
                // earlier entries keep their spans under the append
                assert forall|j: int| 0 <= j < i implies entry_is_put(
                    new_log@,
                    (#[trigger] self.index@[j]).0@,
                    self.index@[j].1,
                ) && entry_value(new_log@, self.index@[j].1) == entry_value(log0, es0[j].1) by {
                    assert(self.index@[j] == es_before[j]);
                    let q = es_before[j].1;
                    assert(span_of(new_log@, q) =~= span_of(new_log0, q));
                    assert(new_log@[q.offset + q.length - 1] == new_log0[q.offset + q.length - 1]);
                }
                // uniqueness: keys are untouched
                assert forall|a: int, b: int|
                    0 <= a < b < self.index@.len() implies self.index@[a].0@
                    != self.index@[b].0@ by {
                    assert(es0[a].0@ != es0[b].0@);
                }
                // the new log parses and replays to the first i + 1 entries
                let cmds0 = spec_parse_log(new_log0).unwrap();
                let cv = spec_parse_command(span.drop_last()).unwrap();
                assert(cv == (CommandView::Put { key: k, value: entry_value(log0, p) }));
                assert(new_log@ =~= new_log0 + span.drop_last() + seq![DELIM]);
                lemma_parse_log_append(new_log0, span.drop_last(), cv);
                lemma_replay_push(cmds0, cv);
                let t1 = self.index@.take(i as int + 1);
                assert(t1.drop_last() =~= es_before.take(i as int));
                assert(t1.last() == (es_before[i as int].0, np));
                assert(entries_map(t1) == entries_map(es_before.take(i as int)).insert(k, np));
                assert forall|j: int|
                    0 <= j < es_before.take(i as int).len() implies entry_is_put(
                    new_log0,
                    (#[trigger] es_before.take(i as int)[j]).0@,
                    es_before.take(i as int)[j].1,
                ) by {
                    assert(es_before.take(i as int)[j] == es_before[j]);
                }
                assert forall|a: int, b: int|
                    0 <= a < b < es_before.take(i as int).len() implies es_before.take(
                    i as int,
                )[a].0@ != es_before.take(i as int)[b].0@ by {
                    assert(es0[a].0@ != es0[b].0@);
                }
                lemma_kv_insert(
                    new_log0,
                    span,
                    es_before.take(i as int),
                    t1,
                    k,
                    np,
                    entry_value(log0, p),
                );
                // live bytes of the prefix grow by exactly this record
                assert(live_sum(t1) == live_sum(es_before.take(i as int)) + p.length);
                let u1 = es0.take(i as int + 1);
                assert(u1.drop_last() =~= es0.take(i as int));
                assert(u1.last() == es0[i as int]);
                assert(live_sum(u1) == live_sum(es0.take(i as int)) + p.length);
            }
            i = i + 1;
        }
        proof {
            assert(self.index@.take(es0.len() as int) =~= self.index@);
            assert(es0.take(es0.len() as int) =~= es0);
        }
        self.log = new_log;
        self.position = self.log.len() as u64;
        self.uncompacted_size = 0;
        self.rewritten = true;
        proof {
            // the view is unchanged: same keys, each reading the same value
            let lhs = kv_of(self.log@, self.index@);
            let rhs = kv_of(log0, es0);
            assert forall|k2: Seq<char>| lhs.dom().contains(k2) implies rhs.dom().contains(
                k2,
            ) by {
                lemma_entries_map_dom(self.index@, k2);
                lemma_entries_map_dom(es0, k2);
                let j = choose|j: int| 0 <= j < self.index@.len() && self.index@[j].0@ == k2;
                assert(es0[j].0@ == k2);
            }
            assert forall|k2: Seq<char>| rhs.dom().contains(k2) implies lhs.dom().contains(
                k2,
            ) by {
                lemma_entries_map_dom(self.index@, k2);
                lemma_entries_map_dom(es0, k2);
                let j = choose|j: int| 0 <= j < es0.len() && es0[j].0@ == k2;
                assert(self.index@[j].0@ == k2);
            }
            assert forall|k2: Seq<char>| lhs.dom().contains(k2) implies lhs[k2] == rhs[k2] by {
                lemma_entries_map_dom(self.index@, k2);
                let j = choose|j: int| 0 <= j < self.index@.len() && self.index@[j].0@ == k2;
                lemma_entries_map_get(self.index@, j);
                lemma_entries_map_get(es0, j);
            }
            assert(lhs =~= rhs);
            assert(self.wf());
        }
        Ok(())
    }
}

/// Round trip: a `set` of a key followed by a `get` of that key returns
/// exactly the value that was set, whatever the store held before.
pub proof fn lemma_set_then_get(m: Map<Seq<char>, Seq<char>>, k: Seq<char>, v: Seq<char>)
    ensures
        spec_lookup(m.insert(k, v), k) == Some(v),
{
}

/// Overwrite: of two `set`s to one key, the last write wins.
pub proof fn lemma_overwrite(
    m: Map<Seq<char>, Seq<char>>,
    k: Seq<char>,
    a: Seq<char>,
    b: Seq<char>,
)
    ensures
        spec_lookup(m.insert(k, a).insert(k, b), k) == Some(b),
{
}

/// Tombstone: after a `set` and a `remove` of one key, a `get` of it
/// misses, and a second `remove` finds no entry to delete.
pub proof fn lemma_tombstone(m: Map<Seq<char>, Seq<char>>, k: Seq<char>, v: Seq<char>)
    ensures
        spec_lookup(m.insert(k, v).remove(k), k) == None::<Seq<char>>,
        !m.insert(k, v).remove(k).dom().contains(k),
{
}

/// Durability: a well-formed store's log replays to exactly the store's
/// state, so opening the bytes the store has written gives back every key's
/// value unchanged.
pub proof fn lemma_reopen_preserves_state(s: KvStore)
    requires
        s.wf(),
    ensures
        spec_parse_log(s.log_view()) is Some,
        replay_kv(spec_parse_log(s.log_view()).unwrap()) == s@,
{
}

} // verus!
