//! The storage engine: log files, index, writer and compaction.
//!
//! The engine's state is a list of generation-numbered log files (each a
//! sequence of characters that is exactly a concatenation of encoded command
//! records), an index from live keys to record positions, and counters. Its
//! abstract value is the key/value map obtained by replaying every record in
//! generation order. The host process mirrors each queued [`DiskOp`] onto the
//! real directory; everything the engine decides is computed and proved here.

use vstd::prelude::*;
use crate::codec::{Command, CommandModel, spec_encode, encodes_at, encode_command, decode_command,
    lemma_encodes_at_unique, lemma_encodes_at_extend};
use crate::error::KvsError;
use crate::index::{index_map, distinct_keys, live_len, index_get, index_insert, index_remove,
    lemma_index_map_contains, lemma_index_map_entry, lemma_live_take_succ, lemma_live_take_mono};

verus! {

/// Compaction starts once this many superseded characters have accumulated.
pub const COMPACTION_THRESHOLD: u64 = 1024 * 1024;

/// An index entry: where the latest record for a key lives on disk.
#[derive(Clone, Copy, Debug, PartialEq, Eq, Structural)]
pub struct CommandPos {
    /// The generation (log file) holding the record.
    pub gen: u64,
    /// The char offset of the record inside that file.
    pub pos: u64,
    /// The char length of the record.
    pub len: u64,
}

impl CommandPos {
    /// Builds an index entry from its three coordinates.
    pub fn new(gen: u64, pos: u64, len: u64) -> (r: CommandPos)
        ensures
            r.gen == gen,
            r.pos == pos,
            r.len == len,
    {
        CommandPos { gen, pos, len }
    }
}

/// A directory action the engine has decided on; the host performs it.
pub enum DiskOp {
    /// Create (or truncate) the log file of this generation.
    Create { gen: u64 },
    /// Append these characters to the log file of this generation.
    Append { gen: u64, chars: Vec<char> },
    /// Unlink the log file of this generation.
    Delete { gen: u64 },
}

/// One log file: its generation, its characters, and (for the proofs) the
/// sequence of commands those characters encode.
pub struct LogFile {
    /// The generation number; the on-disk name is `<gen>.log`.
    pub gen: u64,
    /// The file contents.
    pub data: Vec<char>,
    /// The commands the contents encode, in order.
    pub journal: Ghost<Seq<CommandModel>>,
}

// ---------------------------------------------------------------------------
// The abstract model
// ---------------------------------------------------------------------------

/// The characters encoding a sequence of commands, concatenated.
pub open spec fn encode_all(cs: Seq<CommandModel>) -> Seq<char>
    decreases cs.len(),
{
    if cs.len() == 0 {
        Seq::empty()
    } else {
        spec_encode(cs.first()) + encode_all(cs.drop_first())
    }
}

/// What one command does to the key/value map.
pub open spec fn apply_command(m: Map<Seq<char>, Seq<char>>, c: CommandModel) -> Map<
    Seq<char>,
    Seq<char>,
> {
    match c {
        CommandModel::Put { key, value } => m.insert(key, value),
        CommandModel::Remove { key } => m.remove(key),
    }
}

/// The map left after replaying a command sequence over `m`.
pub open spec fn replay(m: Map<Seq<char>, Seq<char>>, cs: Seq<CommandModel>) -> Map<
    Seq<char>,
    Seq<char>,
>
    decreases cs.len(),
{
    if cs.len() == 0 {
        m
    } else {
        apply_command(replay(m, cs.drop_last()), cs.last())
    }
}

/// Every command in every file, in generation order.
pub open spec fn all_journal(files: Seq<LogFile>) -> Seq<CommandModel>
    decreases files.len(),
{
    if files.len() == 0 {
        Seq::empty()
    } else {
        all_journal(files.drop_last()) + files.last().journal@
    }
}

/// The total character count across all files.
pub open spec fn total_len(files: Seq<LogFile>) -> nat
    decreases files.len(),
{
    if files.len() == 0 {
        0
    } else {
        (total_len(files.drop_last()) + files.last().data@.len()) as nat
    }
}

/// A file's characters are exactly the encoding of its journal.
pub open spec fn file_wf(f: LogFile) -> bool {
    f.data@ == encode_all(f.journal@)
}

/// The file list is well-formed: nonempty, strictly ascending generations,
/// every file the encoding of its journal.
pub open spec fn files_wf(files: Seq<LogFile>) -> bool {
    &&& files.len() >= 1
    &&& (forall|i: int, j: int|
        0 <= i < j < files.len() ==> (#[trigger] files[i]).gen < (#[trigger] files[j]).gen)
    &&& (forall|i: int| 0 <= i < files.len() ==> file_wf(#[trigger] files[i]))
}

/// An index entry is truthful: its key is live, and its position names a
/// record inside some file that encodes exactly `Put{key, current value}`.
pub open spec fn entry_ok(
    files: Seq<LogFile>,
    m: Map<Seq<char>, Seq<char>>,
    e: (String, CommandPos),
) -> bool {
    &&& m.contains_key(e.0@)
    &&& spec_encode(CommandModel::Put { key: e.0@, value: m[e.0@] }).len() == e.1.len as nat
    &&& exists|j: int|
        0 <= j < files.len() && (#[trigger] files[j]).gen == e.1.gen && encodes_at(
            files[j].data@,
            e.1.pos as int,
            CommandModel::Put { key: e.0@, value: m[e.0@] },
        )
}

/// Appending characters at the back of a journal appends their encoding.
pub proof fn lemma_encode_all_snoc(cs: Seq<CommandModel>, c: CommandModel)
    ensures
        encode_all(cs.push(c)) == encode_all(cs) + spec_encode(c),
    decreases cs.len(),
{
    if cs.len() == 0 {
        assert(cs.push(c).drop_first() =~= Seq::<CommandModel>::empty());
        assert(cs.push(c).first() == c);
        assert(encode_all(Seq::<CommandModel>::empty()) == Seq::<char>::empty());
        assert(encode_all(cs.push(c)) =~= encode_all(cs) + spec_encode(c));
    } else {
        assert(cs.push(c).drop_first() =~= cs.drop_first().push(c));
        assert(cs.push(c).first() == cs.first());
        lemma_encode_all_snoc(cs.drop_first(), c);
        assert(encode_all(cs.push(c)) == spec_encode(cs.first()) + (encode_all(cs.drop_first())
            + spec_encode(c)));
        assert(spec_encode(cs.first()) + (encode_all(cs.drop_first()) + spec_encode(c)) =~= (
        spec_encode(cs.first()) + encode_all(cs.drop_first())) + spec_encode(c));
    }
}

/// A record boundary in a parseable log always carries a next record: if the
/// whole text encodes some command sequence and a prefix of it encodes
/// another, a record starts right after that prefix.
proof fn lemma_boundary(d: Seq<char>, pre: Seq<CommandModel>, full: Seq<CommandModel>, p: int)
    requires
        d == encode_all(full),
        0 <= p < d.len(),
        d.subrange(0, p) == encode_all(pre),
    ensures
        exists|cm: CommandModel| #[trigger] encodes_at(d, p, cm),
    decreases pre.len(),
{
    if full.len() == 0 {
        assert(d.len() == 0);
    }
    let j0 = full.first();
    let ej = spec_encode(j0);
    assert(d == ej + encode_all(full.drop_first()));
    assert(d.subrange(0, ej.len() as int) =~= ej);
    assert(encodes_at(d, 0, j0));
    if pre.len() == 0 {
        assert(encode_all(pre) == Seq::<char>::empty());
        assert(p == 0);
    } else {
        let c0 = pre.first();
        let e0 = spec_encode(c0);
        let ep = encode_all(pre);
        assert(ep.len() == p);
        assert(ep == e0 + encode_all(pre.drop_first()));
        assert(e0.len() <= p);
        assert(d.subrange(0, e0.len() as int) =~= e0) by {
            assert forall|x: int| 0 <= x < e0.len() implies d.subrange(0, e0.len() as int)[x]
                == e0[x] by {
                assert(d.subrange(0, p)[x] == d[x]);
                assert(ep[x] == e0[x]);
            }
        }
        assert(encodes_at(d, 0, c0));
        lemma_encodes_at_unique(d, 0, c0, j0);
        let l = e0.len() as int;
        let d2 = d.skip(l);
        assert(d2 =~= encode_all(full.drop_first())) by {
            assert forall|x: int| 0 <= x < d2.len() implies d2[x] == encode_all(
                full.drop_first(),
            )[x] by {
                assert(d2[x] == d[l + x]);
            }
        }
        assert(d2.subrange(0, p - l) =~= encode_all(pre.drop_first())) by {
            assert forall|x: int| 0 <= x < p - l implies d2.subrange(0, p - l)[x] == encode_all(
                pre.drop_first(),
            )[x] by {
                assert(d2.subrange(0, p - l)[x] == d[l + x]);
                assert(d.subrange(0, p)[l + x] == d[l + x]);
                assert(ep[l + x] == encode_all(pre.drop_first())[x]);
            }
        }
        lemma_boundary(d2, pre.drop_first(), full.drop_first(), p - l);
        let cm = choose|cm: CommandModel| #[trigger] encodes_at(d2, p - l, cm);
        let lc = spec_encode(cm).len() as int;
        assert(encodes_at(d, p, cm)) by {
            assert(d.subrange(p, p + lc) =~= d2.subrange(p - l, p - l + lc));
        }
    }
}

/// A character sequence encodes at most one command sequence.
pub proof fn lemma_encode_all_unique(d: Seq<char>, cs1: Seq<CommandModel>, cs2: Seq<CommandModel>)
    requires
        d == encode_all(cs1),
        d == encode_all(cs2),
    ensures
        cs1 == cs2,
    decreases cs1.len(),
{
    if cs1.len() == 0 {
        if cs2.len() > 0 {
            assert(d == spec_encode(cs2.first()) + encode_all(cs2.drop_first()));
            assert(spec_encode(cs2.first()).len() >= 2);
            assert(d.len() >= 2);
        }
        assert(cs1 =~= cs2);
    } else {
        if cs2.len() == 0 {
            assert(d == spec_encode(cs1.first()) + encode_all(cs1.drop_first()));
            assert(spec_encode(cs1.first()).len() >= 2);
            assert(false);
        }
        let a = cs1.first();
        let b = cs2.first();
        assert(d == spec_encode(a) + encode_all(cs1.drop_first()));
        assert(d == spec_encode(b) + encode_all(cs2.drop_first()));
        assert(d.subrange(0, spec_encode(a).len() as int) =~= spec_encode(a));
        assert(d.subrange(0, spec_encode(b).len() as int) =~= spec_encode(b));
        assert(encodes_at(d, 0, a));
        assert(encodes_at(d, 0, b));
        lemma_encodes_at_unique(d, 0, a, b);
        let l = spec_encode(a).len() as int;
        let d2 = d.skip(l);
        assert(d2 =~= encode_all(cs1.drop_first())) by {
            assert forall|x: int| 0 <= x < d2.len() implies d2[x] == encode_all(
                cs1.drop_first(),
            )[x] by {
                assert(d2[x] == d[l + x]);
            }
        }
        assert(d2 =~= encode_all(cs2.drop_first())) by {
            assert forall|x: int| 0 <= x < d2.len() implies d2[x] == encode_all(
                cs2.drop_first(),
            )[x] by {
                assert(d2[x] == d[l + x]);
            }
        }
        lemma_encode_all_unique(d2, cs1.drop_first(), cs2.drop_first());
        assert(cs1 =~= cs2) by {
            assert forall|x: int| 0 <= x < cs1.len() implies cs1[x] == cs2[x] by {
                if x > 0 {
                    assert(cs1.drop_first()[x - 1] == cs2.drop_first()[x - 1]);
                }
            }
        }
    }
}

/// The journals of a file list, concatenated in order.
pub open spec fn concat_all(js: Seq<Seq<CommandModel>>) -> Seq<CommandModel>
    decreases js.len(),
{
    if js.len() == 0 {
        Seq::empty()
    } else {
        concat_all(js.drop_last()) + js.last()
    }
}

/// Raw file contents encode these journals, file by file.
pub open spec fn files_encode(inputs: Seq<(u64, Vec<char>)>, js: Seq<Seq<CommandModel>>) -> bool {
    &&& js.len() == inputs.len()
    &&& forall|i: int| 0 <= i < inputs.len() ==> (#[trigger] inputs[i]).1@ == encode_all(js[i])
}

/// The character count of raw input files.
pub open spec fn inputs_total(inputs: Seq<(u64, Vec<char>)>) -> nat
    decreases inputs.len(),
{
    if inputs.len() == 0 {
        0
    } else {
        (inputs_total(inputs.drop_last()) + inputs.last().1@.len()) as nat
    }
}

proof fn lemma_inputs_total_take_succ(inputs: Seq<(u64, Vec<char>)>, k: int)
    requires
        0 <= k < inputs.len(),
    ensures
        inputs_total(inputs.take(k + 1)) == inputs_total(inputs.take(k)) + inputs[k].1@.len(),
{
    assert(inputs.take(k + 1).drop_last() =~= inputs.take(k));
    assert(inputs.take(k + 1).last() == inputs[k]);
}

proof fn lemma_inputs_total_take_mono(inputs: Seq<(u64, Vec<char>)>, k: int)
    requires
        0 <= k <= inputs.len(),
    ensures
        inputs_total(inputs.take(k)) <= inputs_total(inputs),
    decreases inputs.len() - k,
{
    if k == inputs.len() {
        assert(inputs.take(k) =~= inputs);
    } else {
        lemma_inputs_total_take_succ(inputs, k);
        lemma_inputs_total_take_mono(inputs, k + 1);
    }
}

/// Like [`entry_ok`], but the record may also live in one further file,
/// given by its generation and contents alone.
pub open spec fn entry_ok_x(
    files: Seq<LogFile>,
    g: u64,
    d: Seq<char>,
    m: Map<Seq<char>, Seq<char>>,
    e: (String, CommandPos),
) -> bool {
    &&& m.contains_key(e.0@)
    &&& spec_encode(CommandModel::Put { key: e.0@, value: m[e.0@] }).len() == e.1.len as nat
    &&& ((exists|j: int|
        0 <= j < files.len() && (#[trigger] files[j]).gen == e.1.gen && encodes_at(
            files[j].data@,
            e.1.pos as int,
            CommandModel::Put { key: e.0@, value: m[e.0@] },
        )) || (e.1.gen == g && encodes_at(d, e.1.pos as int, CommandModel::Put {
        key: e.0@,
        value: m[e.0@],
    })))
}

proof fn lemma_entry_x_push(
    files: Seq<LogFile>,
    lf: LogFile,
    m: Map<Seq<char>, Seq<char>>,
    e: (String, CommandPos),
)
    requires
        entry_ok_x(files, lf.gen, lf.data@, m, e),
    ensures
        entry_ok(files.push(lf), m, e),
{
    let nf = files.push(lf);
    let cm = (CommandModel::Put { key: e.0@, value: m[e.0@] });
    if exists|j: int|
        0 <= j < files.len() && (#[trigger] files[j]).gen == e.1.gen && encodes_at(
            files[j].data@,
            e.1.pos as int,
            cm,
        ) {
        let j = choose|j: int|
            0 <= j < files.len() && (#[trigger] files[j]).gen == e.1.gen && encodes_at(
                files[j].data@,
                e.1.pos as int,
                cm,
            );
        assert(nf[j] == files[j]);
    } else {
        assert(nf[files.len() as int] == lf);
    }
}

/// The engine. Its abstract value (`self@`) is the key/value map the log
/// describes; `wf` ties the files, the index and the counters together.
pub struct KvStore {
    /// The log files, in ascending generation order; the last is the one
    /// being appended to.
    pub files: Vec<LogFile>,
    /// Live keys to the positions of their latest `Put` records.
    pub index: Vec<(String, CommandPos)>,
    /// The generation of the file being appended to.
    pub cur_gen: u64,
    /// Characters in live files that the index no longer reaches.
    pub uncompacted: u64,
    /// Characters stored across all files.
    pub stored: u64,
    /// The smallest generation still on disk; readers drop older handles.
    pub safe_point: u64,
    /// Directory actions decided but not yet performed by the host.
    pub ops: Vec<DiskOp>,
}

impl View for KvStore {
    type V = Map<Seq<char>, Seq<char>>;

    open spec fn view(&self) -> Map<Seq<char>, Seq<char>> {
        replay(Map::empty(), all_journal(self.files@))
    }
}

impl KvStore {
    /// The engine invariant.
    pub open spec fn wf(self) -> bool {
        &&& files_wf(self.files@)
        &&& self.files@.last().gen == self.cur_gen
        &&& distinct_keys(self.index@)
        &&& (forall|k: Seq<char>|
            #[trigger] self@.contains_key(k) ==> index_map(self.index@).contains_key(k))
        &&& (forall|k: Seq<char>|
            #[trigger] index_map(self.index@).contains_key(k) ==> self@.contains_key(k))
        &&& (forall|i: int|
            0 <= i < self.index@.len() ==> entry_ok(self.files@, self@, #[trigger] self.index@[i]))
        &&& self.stored as nat == total_len(self.files@)
        &&& self.uncompacted as nat + live_len(self.index@) == total_len(self.files@)
    }

    /// The length of the record that a write to `k` would supersede: the
    /// indexed record's length, or zero when the key is not live.
    pub open spec fn displaced_len(self, k: Seq<char>) -> nat {
        if index_map(self.index@).contains_key(k) {
            index_map(self.index@)[k].len as nat
        } else {
            0
        }
    }

    /// Appends one record to the current log file, updating the journal, the
    /// stored-character count and the pending directory actions. Fails (with
    /// nothing changed) only when the file offsets would no longer fit.
    fn append_record(&mut self, c: &Command) -> (r: Result<CommandPos, KvsError>)
        requires
            files_wf(old(self).files@),
            old(self).files@.last().gen == old(self).cur_gen,
            old(self).stored as nat == total_len(old(self).files@),
        ensures
            final(self).index == old(self).index,
            final(self).cur_gen == old(self).cur_gen,
            final(self).uncompacted == old(self).uncompacted,
            final(self).safe_point == old(self).safe_point,
            total_len(old(self).files@) + spec_encode(c@).len() <= u64::MAX ==> r is Ok,
            match r {
                Ok(p) => {
                    &&& files_wf(final(self).files@)
                    &&& final(self).files@.len() == old(self).files@.len()
                    &&& (forall|j: int|
                        0 <= j < old(self).files@.len() - 1 ==> final(self).files@[j] == old(
                            self,
                        ).files@[j])
                    &&& final(self).files@.last().gen == old(self).cur_gen
                    &&& final(self).files@.last().data@ == old(self).files@.last().data@
                        + spec_encode(c@)
                    &&& all_journal(final(self).files@) == all_journal(old(self).files@).push(c@)
                    &&& p.gen == old(self).cur_gen
                    &&& p.pos as nat == old(self).files@.last().data@.len()
                    &&& p.len as nat == spec_encode(c@).len()
                    &&& encodes_at(final(self).files@.last().data@, p.pos as int, c@)
                    &&& total_len(final(self).files@) == total_len(old(self).files@)
                        + spec_encode(c@).len()
                    &&& final(self).stored as nat == total_len(final(self).files@)
                    &&& final(self).ops@.len() == old(self).ops@.len() + 1
                    &&& final(self).ops@.subrange(0, old(self).ops@.len() as int) == old(
                        self,
                    ).ops@
                    &&& final(self).ops@.last() is Append
                    &&& final(self).ops@.last().arrow_Append_gen() == old(self).cur_gen
                    &&& final(self).ops@.last().arrow_Append_chars()@ == spec_encode(c@)
                },
                Err(e) => {
                    &&& e == KvsError::Io
                    &&& final(self).files == old(self).files
                    &&& final(self).stored == old(self).stored
                    &&& final(self).ops == old(self).ops
                    &&& total_len(old(self).files@) + spec_encode(c@).len() > u64::MAX
                },
            },
    {
        let mut rec: Vec<char> = Vec::new();
        encode_command(c, &mut rec);
        let rec_len = rec.len();
        if rec_len as u64 > u64::MAX - self.stored {
            return Err(KvsError::Io);
        }
        let mut op_chars: Vec<char> = Vec::new();
        encode_command(c, &mut op_chars);
        self.ops.push(DiskOp::Append { gen: self.cur_gen, chars: op_chars });
        proof {
            assert(self.ops@.subrange(0, old(self).ops@.len() as int) =~= old(self).ops@);
        }
        let ghost old_files = self.files@;
        let mut f = match self.files.pop() {
            Some(f) => f,
            None => {
                proof {
                    assert(false);
                }
                return Err(KvsError::Io);
            },
        };
        let ghost old_f = f;
        let pos0 = f.data.len();
        f.data.append(&mut rec);
        proof {
            f.journal@ = f.journal@.push(c@);
        }
        self.files.push(f);
        self.stored = self.stored + rec_len as u64;
        let p = CommandPos::new(self.cur_gen, pos0 as u64, rec_len as u64);
        proof {
            let fs = self.files@;
            let n = old_files.len() as int;
            assert(fs =~= old_files.drop_last().push(fs.last()));
            assert(forall|j: int| 0 <= j < n - 1 ==> fs[j] == old_files[j]);
            assert(fs.last().journal@ == old_f.journal@.push(c@));
            assert(fs.last().data@ == old_f.data@ + spec_encode(c@));
            // the extended file still encodes its journal
            lemma_encode_all_snoc(old_f.journal@, c@);
            assert(file_wf(fs.last()));
            assert(files_wf(fs)) by {
                assert(forall|i: int| 0 <= i < fs.len() - 1 ==> fs[i] == old_files[i]);
            }
            // every command list concatenates as before, plus the new record
            assert(fs.drop_last() =~= old_files.drop_last());
            assert(all_journal(fs) == all_journal(old_files.drop_last()) + (old_f.journal@.push(
                c@,
            )));
            assert(all_journal(old_files) == all_journal(old_files.drop_last())
                + old_f.journal@);
            assert(all_journal(old_files.drop_last()) + (old_f.journal@.push(c@))
                =~= all_journal(old_files).push(c@));
            // sizes
            assert(total_len(fs) == total_len(old_files.drop_last()) + fs.last().data@.len());
            assert(total_len(old_files) == total_len(old_files.drop_last())
                + old_f.data@.len());
            // the new record sits at the old end of the file
            assert(fs.last().data@.subrange(
                pos0 as int,
                pos0 as int + spec_encode(c@).len() as int,
            ) =~= spec_encode(c@));
        }
        Ok(p)
    }

    /// Sets `key` to `value`: appends a `Put` record, then points the index
    /// at it. Fails (with nothing changed) only when the record would push
    /// the file offsets past what they can hold.
    pub fn set(&mut self, key: String, value: String) -> (r: Result<(), KvsError>)
        requires
            old(self).wf(),
        ensures
            final(self).wf(),
            final(self).ops@.len() >= old(self).ops@.len(),
            final(self).ops@.subrange(0, old(self).ops@.len() as int) == old(self).ops@,
            total_len(old(self).files@) + spec_encode(
                (CommandModel::Put { key: key@, value: value@ }),
            ).len() <= u64::MAX ==> r is Ok,
            match r {
                Ok(()) => ({
                    let grown = old(self).uncompacted as nat + old(self).displaced_len(key@);
                    let rec = spec_encode((CommandModel::Put { key: key@, value: value@ })).len();
                    &&& final(self)@ == old(self)@.insert(key@, value@)
                    &&& (final(self).uncompacted > COMPACTION_THRESHOLD ==> old(self).cur_gen
                        > u64::MAX - 2)
                    // no compaction was owed: only this record was appended
                    &&& ((grown <= COMPACTION_THRESHOLD || old(self).cur_gen > u64::MAX - 2)
                        ==> {
                        &&& final(self).uncompacted as nat == grown
                        &&& final(self).stored as nat == old(self).stored as nat + rec
                        &&& final(self).cur_gen == old(self).cur_gen
                        &&& final(self).safe_point == old(self).safe_point
                    })
                    // compaction ran before returning: only live records remain
                    &&& ((grown > COMPACTION_THRESHOLD && old(self).cur_gen <= u64::MAX - 2)
                        ==> {
                        &&& final(self).uncompacted == 0
                        &&& final(self).stored as nat == live_len(final(self).index@)
                        &&& final(self).cur_gen == old(self).cur_gen + 2
                        &&& final(self).safe_point == old(self).cur_gen + 1
                    })
                }),
                Err(e) => {
                    &&& e == KvsError::Io
                    &&& *final(self) == *old(self)
                    &&& total_len(old(self).files@) + spec_encode(
                        (CommandModel::Put { key: key@, value: value@ }),
                    ).len() > u64::MAX
                },
            },
    {
        let ghost m0 = self@;
        let ghost files0 = self.files@;
        let ghost index0 = self.index@;
        let c = Command::Put { key: key.clone(), value };
        let ghost cm = c@;
        match self.append_record(&c) {
            Err(e) => Err(e),
            Ok(p) => {
                let ghost files1 = self.files@;
                proof {
                    let alls = all_journal(files1);
                    assert(alls.drop_last() =~= all_journal(files0));
                    assert(self@ == apply_command(m0, cm));
                }
                let ghost m1 = self@;
                let old_entry = index_insert(&mut self.index, key, p);
                proof {
                    match old_entry {
                        Some(q) => {
                            assert(self.uncompacted + q.len <= self.stored);
                        }
                        None => {}
                    }
                }
                if let Some(q) = old_entry {
                    self.uncompacted = self.uncompacted + q.len;
                }
                proof {
                    let index1 = self.index@;
                    let n1 = index1.len() as int;
                    assert forall|k: Seq<char>| #[trigger] m1.contains_key(k) implies index_map(
                        index1,
                    ).contains_key(k) by {
                        if k != key@ {
                            assert(m0.contains_key(k));
                        }
                    }
                    assert forall|k: Seq<char>| #[trigger]
                        index_map(index1).contains_key(k) implies m1.contains_key(k) by {
                        if k != key@ {
                            assert(index_map(index0).contains_key(k));
                        }
                    }
                    assert forall|i: int| 0 <= i < n1 implies entry_ok(
                        files1,
                        m1,
                        #[trigger] index1[i],
                    ) by {
                        if i == n1 - 1 {
                            let jw = files1.len() - 1;
                            assert(files1[jw].gen == p.gen);
                            assert(encodes_at(files1[jw].data@, p.pos as int, cm));
                            assert(entry_ok(files1, m1, index1[i]));
                        } else {
                            let j = choose|j: int|
                                0 <= j < index0.len() && (#[trigger] index1[i]) == index0[j];
                            let e = index1[i];
                            assert(entry_ok(files0, m0, index0[j]));
                            assert(e.0@ != key@);
                            assert(m1[e.0@] == m0[e.0@]);
                            let cme = (CommandModel::Put { key: e.0@, value: m0[e.0@] });
                            let jf = choose|jf: int|
                                0 <= jf < files0.len() && (#[trigger] files0[jf]).gen == e.1.gen
                                    && encodes_at(files0[jf].data@, e.1.pos as int, cme);
                            if jf < files0.len() - 1 {
                                assert(files1[jf] == files0[jf]);
                                assert(encodes_at(files1[jf].data@, e.1.pos as int, cme));
                            } else {
                                lemma_encodes_at_extend(
                                    files0.last().data@,
                                    spec_encode(cm),
                                    e.1.pos as int,
                                    cme,
                                );
                                assert(files1[jf].data@ == files0.last().data@ + spec_encode(cm));
                                assert(encodes_at(files1[jf].data@, e.1.pos as int, cme));
                            }
                            assert(entry_ok(files1, m1, e));
                        }
                    }
                }
                if self.uncompacted > COMPACTION_THRESHOLD && self.cur_gen <= u64::MAX - 2 {
                    self.compact();
                }
                Ok(())
            },
        }
    }

    /// Looks up the latest value bound to `key`, reading it back out of the
    /// log through the index.
    pub fn get(&self, key: String) -> (r: Result<Option<String>, KvsError>)
        requires
            self.wf(),
        ensures
            match r {
                Ok(opt) => match opt {
                    Some(v) => self@.contains_key(key@) && v@ == self@[key@],
                    None => !self@.contains_key(key@),
                },
                Err(_) => false,
            },
    {
        match index_get(&self.index, &key) {
            None => Ok(None),
            Some(p) => {
                let ghost cm = (CommandModel::Put { key: key@, value: self@[key@] });
                proof {
                    lemma_index_map_contains(self.index@, key@);
                    let i = choose|i: int|
                        0 <= i < self.index@.len() && (#[trigger] self.index@[i]).0@ == key@;
                    lemma_index_map_entry(self.index@, i);
                    assert(entry_ok(self.files@, self@, self.index@[i]));
                }
                let ghost jf = choose|jf: int|
                    0 <= jf < self.files@.len() && (#[trigger] self.files@[jf]).gen == p.gen
                        && encodes_at(self.files@[jf].data@, p.pos as int, cm);
                let n = self.files.len();
                let mut j: usize = 0;
                loop
                    invariant
                        j <= n,
                        n == self.files@.len(),
                        0 <= jf < n,
                        self.files@[jf].gen == p.gen,
                        forall|jj: int| 0 <= jj < j ==> (#[trigger] self.files@[jj]).gen != p.gen,
                    ensures
                        j < n,
                        self.files@[j as int].gen == p.gen,
                    decreases n - j,
                {
                    if j >= n {
                        proof {
                            assert(false);
                        }
                    }
                    if self.files[j].gen == p.gen {
                        break;
                    }
                    j = j + 1;
                }
                proof {
                    // generations are strictly ascending, so this is the witness file
                    assert(j as int == jf) by {
                        if (j as int) < jf {
                            assert(self.files@[j as int].gen < self.files@[jf].gen);
                        }
                        if jf < j as int {
                            assert(self.files@[jf].gen < self.files@[j as int].gen);
                        }
                    }
                }
                let f = &self.files[j];
                let flen = f.data.len();
                proof {
                    assert(p.pos + spec_encode(cm).len() <= flen);
                }
                let pos = p.pos as usize;
                match decode_command(&f.data, pos) {
                    Ok((c, _used)) => {
                        proof {
                            lemma_encodes_at_unique(f.data@, pos as int, c@, cm);
                        }
                        match c {
                            Command::Put { value, .. } => Ok(Some(value)),
                            Command::Remove { .. } => {
                                proof {
                                    assert(false);
                                }
                                Err(KvsError::UnexpectedCommandType)
                            },
                        }
                    },
                    Err(_) => {
                        proof {
                            assert(encodes_at(f.data@, pos as int, cm));
                            assert(false);
                        }
                        Err(KvsError::Io)
                    },
                }
            },
        }
    }

    /// Removes `key`: appends a `Remove` record and drops the index entry.
    /// Fails with `KeyNotFound` when the key is absent, and with `Io` (and
    /// nothing changed) when the record would overflow the file offsets.
    pub fn remove(&mut self, key: String) -> (r: Result<(), KvsError>)
        requires
            old(self).wf(),
        ensures
            final(self).wf(),
            final(self).ops@.len() >= old(self).ops@.len(),
            final(self).ops@.subrange(0, old(self).ops@.len() as int) == old(self).ops@,
            (old(self)@.contains_key(key@) && total_len(old(self).files@) + spec_encode(
                (CommandModel::Remove { key: key@ }),
            ).len() <= u64::MAX) ==> r is Ok,
            match r {
                Ok(()) => ({
                    let rec = spec_encode((CommandModel::Remove { key: key@ })).len();
                    &&& old(self)@.contains_key(key@)
                    &&& final(self)@ == old(self)@.remove(key@)
                    &&& final(self).uncompacted as nat == old(self).uncompacted as nat + old(
                        self,
                    ).displaced_len(key@) + rec
                    &&& final(self).stored as nat == old(self).stored as nat + rec
                    &&& final(self).cur_gen == old(self).cur_gen
                    &&& final(self).safe_point == old(self).safe_point
                }),
                Err(e) => {
                    &&& *final(self) == *old(self)
                    &&& (e == KvsError::KeyNotFound <==> !old(self)@.contains_key(key@))
                    &&& (e == KvsError::KeyNotFound || e == KvsError::Io)
                },
            },
    {
        let ghost m0 = self@;
        let ghost files0 = self.files@;
        let ghost index0 = self.index@;
        match index_get(&self.index, &key) {
            None => Err(KvsError::KeyNotFound),
            Some(_) => {
                let c = Command::Remove { key: key.clone() };
                let ghost cm = c@;
                match self.append_record(&c) {
                    Err(e) => Err(e),
                    Ok(p) => {
                        let ghost files1 = self.files@;
                        proof {
                            let alls = all_journal(files1);
                            assert(alls.drop_last() =~= all_journal(files0));
                            assert(self@ == apply_command(m0, cm));
                        }
                        let ghost m1 = self@;
                        let old_entry = index_remove(&mut self.index, &key);
                        let q = match old_entry {
                            Some(q) => q,
                            None => {
                                proof {
                                    assert(false);
                                }
                                CommandPos::new(0, 0, 0)
                            },
                        };
                        proof {
                            assert(self.uncompacted + q.len + p.len <= self.stored);
                        }
                        self.uncompacted = self.uncompacted + q.len + p.len;
                        proof {
                            let index1 = self.index@;
                            let n1 = index1.len() as int;
                            assert forall|k: Seq<char>| #[trigger] m1.contains_key(
                                k,
                            ) implies index_map(index1).contains_key(k) by {
                                assert(k != key@);
                                assert(m0.contains_key(k));
                            }
                            assert forall|k: Seq<char>| #[trigger]
                                index_map(index1).contains_key(k) implies m1.contains_key(k) by {
                                assert(index_map(index0).contains_key(k));
                                assert(k != key@);
                            }
                            assert forall|i: int| 0 <= i < n1 implies entry_ok(
                                files1,
                                m1,
                                #[trigger] index1[i],
                            ) by {
                                let j = choose|j: int|
                                    0 <= j < index0.len() && (#[trigger] index1[i]) == index0[j];
                                let e = index1[i];
                                assert(entry_ok(files0, m0, index0[j]));
                                assert(e.0@ != key@) by {
                                    lemma_index_map_contains(index1, key@);
                                }
                                assert(m1[e.0@] == m0[e.0@]);
                                let cme = (CommandModel::Put { key: e.0@, value: m0[e.0@] });
                                let jf = choose|jf: int|
                                    0 <= jf < files0.len() && (#[trigger] files0[jf]).gen
                                        == e.1.gen && encodes_at(
                                        files0[jf].data@,
                                        e.1.pos as int,
                                        cme,
                                    );
                                if jf < files0.len() - 1 {
                                    assert(files1[jf] == files0[jf]);
                                    assert(encodes_at(files1[jf].data@, e.1.pos as int, cme));
                                } else {
                                    lemma_encodes_at_extend(
                                        files0.last().data@,
                                        spec_encode(cm),
                                        e.1.pos as int,
                                        cme,
                                    );
                                    assert(files1[jf].data@ == files0.last().data@ + spec_encode(
                                        cm,
                                    ));
                                    assert(encodes_at(files1[jf].data@, e.1.pos as int, cme));
                                }
                                assert(entry_ok(files1, m1, e));
                            }
                        }
                        Ok(())
                    },
                }
            },
        }
    }

    /// Finds the position of the file holding generation `g`.
    fn find_gen(&self, g: u64, Ghost(jw): Ghost<int>) -> (j: usize)
        requires
            files_wf(self.files@),
            0 <= jw < self.files@.len(),
            self.files@[jw].gen == g,
        ensures
            j as int == jw,
            self.files@[j as int].gen == g,
    {
        let n = self.files.len();
        let mut j: usize = 0;
        loop
            invariant
                j <= n,
                n == self.files@.len(),
                0 <= jw < n,
                self.files@[jw].gen == g,
                forall|jj: int| 0 <= jj < j ==> (#[trigger] self.files@[jj]).gen != g,
            ensures
                j < n,
                self.files@[j as int].gen == g,
            decreases n - j,
        {
            if j >= n {
                proof {
                    assert(self.files@[jw].gen != g);
                }
            }
            if self.files[j].gen == g {
                break;
            }
            j = j + 1;
        }
        proof {
            assert(j as int == jw) by {
                if (j as int) < jw {
                    assert(self.files@[j as int].gen < self.files@[jw].gen);
                }
                if jw < j as int {
                    assert(self.files@[jw].gen < self.files@[j as int].gen);
                }
            }
        }
        j
    }

    /// Rewrites every live record into a fresh compaction generation, opens a
    /// new current file two generations ahead, publishes the safe point and
    /// retires all prior files. The map is unchanged; afterwards the files
    /// hold exactly the live records. The queued directory actions gain the
    /// file creations, the copied records and the deletions, in that order.
    fn compact(&mut self)
        requires
            old(self).wf(),
            old(self).cur_gen <= u64::MAX - 2,
        ensures
            final(self).wf(),
            final(self)@ == old(self)@,
            final(self).uncompacted == 0,
            total_len(final(self).files@) == live_len(final(self).index@),
            final(self).cur_gen == old(self).cur_gen + 2,
            final(self).safe_point == old(self).cur_gen + 1,
            final(self).ops@.len() >= old(self).ops@.len(),
            final(self).ops@.subrange(0, old(self).ops@.len() as int) == old(self).ops@,
    {
        let ghost m0 = self@;
        let ghost files0 = self.files@;
        let ghost index0 = self.index@;
        let compaction_gen = self.cur_gen + 1;
        let new_cur = compaction_gen + 1;
        let mut cdata: Vec<char> = Vec::new();
        let mut cindex: Vec<(String, CommandPos)> = Vec::new();
        let ghost mut cjournal: Seq<CommandModel> = Seq::empty();
        let mut cpos: u64 = 0;
        let n = self.index.len();
        let mut i: usize = 0;
        while i < n
            invariant
                i <= n,
                n == index0.len(),
                self.files@ == files0,
                self.index@ == index0,
                self.uncompacted == old(self).uncompacted,
                self.stored == old(self).stored,
                self.ops@ == old(self).ops@,
                self.cur_gen == old(self).cur_gen,
                old(self).wf(),
                self.wf(),
                self@ == m0,
                compaction_gen == old(self).cur_gen + 1,
                cdata@ == encode_all(cjournal),
                cpos as nat == cdata@.len(),
                cdata@.len() == live_len(cindex@),
                live_len(cindex@) == live_len(index0.take(i as int)),
                cindex@.len() == i,
                forall|jj: int| 0 <= jj < i ==> (#[trigger] cindex@[jj]).0 == index0[jj].0,
                forall|jj: int| 0 <= jj < i ==> (#[trigger] cindex@[jj]).1.gen == compaction_gen,
                forall|jj: int|
                    0 <= jj < i ==> encodes_at(
                        cdata@,
                        (#[trigger] cindex@[jj]).1.pos as int,
                        (CommandModel::Put { key: cindex@[jj].0@, value: m0[cindex@[jj].0@] }),
                    ),
                forall|jj: int|
                    0 <= jj < i ==> (#[trigger] cindex@[jj]).1.len == index0[jj].1.len,
                forall|k: Seq<char>| #[trigger]
                    replay(Map::empty(), cjournal).contains_key(k) ==> exists|jj: int|
                        0 <= jj < i && (#[trigger] index0[jj]).0@ == k,
                forall|jj: int|
                    0 <= jj < i ==> replay(Map::empty(), cjournal).contains_key(
                        (#[trigger] index0[jj]).0@,
                    ),
                forall|k: Seq<char>| #[trigger]
                    replay(Map::empty(), cjournal).contains_key(k) ==> m0.contains_key(k)
                        && replay(Map::empty(), cjournal)[k] == m0[k],
            decreases n - i,
        {
            let key_i = self.index[i].0.clone();
            let p = self.index[i].1;
            proof {
                assert(entry_ok(files0, m0, index0[i as int]));
                lemma_index_map_entry(index0, i as int);
            }
            let ghost cm_i = (CommandModel::Put { key: key_i@, value: m0[key_i@] });
            let ghost jw = choose|jf: int|
                0 <= jf < files0.len() && (#[trigger] files0[jf]).gen == p.gen && encodes_at(
                    files0[jf].data@,
                    p.pos as int,
                    cm_i,
                );
            let j = self.find_gen(p.gen, Ghost(jw));
            let fd = &self.files[j].data;
            let flen = fd.len();
            proof {
                assert(p.pos + spec_encode(cm_i).len() <= flen);
                lemma_live_take_succ(index0, i as int);
                lemma_live_take_mono(index0, i as int + 1);
                assert(live_len(index0) + self.uncompacted == self.stored);
            }
            let start = p.pos as usize;
            let len_i = p.len as usize;
            let ghost cdata0 = cdata@;
            let mut t: usize = 0;
            while t < len_i
                invariant
                    t <= len_i,
                    flen == fd@.len(),
                    start + len_i <= flen,
                    cdata@ == cdata0 + fd@.subrange(start as int, start as int + t as int),
                decreases len_i - t,
            {
                cdata.push(fd[start + t]);
                proof {
                    assert(cdata@ =~= cdata0 + fd@.subrange(
                        start as int,
                        start as int + t as int + 1,
                    ));
                }
                t = t + 1;
            }
            proof {
                assert(cdata@ == cdata0 + spec_encode(cm_i)) by {
                    assert(fd@.subrange(start as int, start as int + len_i as int) == spec_encode(
                        cm_i,
                    ));
                }
            }
            let ghost cindex0 = cindex@;
            cindex.push((key_i, CommandPos::new(compaction_gen, cpos, p.len)));
            proof {
                let ghost old_cjournal = cjournal;
                cjournal = cjournal.push(cm_i);
                lemma_encode_all_snoc(old_cjournal, cm_i);
                assert(cjournal.drop_last() =~= old_cjournal);
                assert(replay(Map::empty(), cjournal) == replay(Map::empty(), old_cjournal).insert(
                    cm_i.arrow_Put_key(),
                    cm_i.arrow_Put_value(),
                ));
                assert(cindex@.drop_last() =~= cindex@.subrange(0, i as int));
                // records already copied are untouched by the append
                assert(forall|jj: int|
                    0 <= jj < i ==> encodes_at(
                        cdata@,
                        (#[trigger] cindex@[jj]).1.pos as int,
                        (CommandModel::Put { key: cindex@[jj].0@, value: m0[cindex@[jj].0@] }),
                    )) by {
                    assert forall|jj: int| 0 <= jj < i implies encodes_at(
                        cdata@,
                        (#[trigger] cindex@[jj]).1.pos as int,
                        (CommandModel::Put { key: cindex@[jj].0@, value: m0[cindex@[jj].0@] }),
                    ) by {
                        lemma_encodes_at_extend(
                            cdata0,
                            spec_encode(cm_i),
                            cindex@[jj].1.pos as int,
                            (CommandModel::Put { key: cindex@[jj].0@, value: m0[cindex@[jj].0@] }),
                        );
                    }
                }
                // the new record sits at the old end
                assert(cdata@.subrange(cpos as int, cpos as int + spec_encode(cm_i).len() as int)
                    =~= spec_encode(cm_i));
                assert(live_len(cindex@) == live_len(index0.take(i as int)) + p.len) by {
                    assert(cindex@.drop_last() =~= cindex0);
                    assert(cindex@.last().1.len == p.len);
                }
                assert(live_len(index0.take(i as int + 1)) == live_len(index0.take(i as int))
                    + p.len);
            }
            cpos = cpos + p.len;
            i = i + 1;
        }
        proof {
            assert(index0.take(n as int) =~= index0);
        }
        let ghost old_ops_len = self.ops@.len();
        self.ops.push(DiskOp::Create { gen: compaction_gen });
        self.ops.push(DiskOp::Append { gen: compaction_gen, chars: cdata.clone() });
        self.ops.push(DiskOp::Create { gen: new_cur });
        let nf = self.files.len();
        let mut fi: usize = 0;
        while fi < nf
            invariant
                fi <= nf,
                nf == self.files@.len(),
                self.files@ == files0,
                self.ops@.len() >= old_ops_len,
                self.ops@.subrange(0, old_ops_len as int) == old(self).ops@,
            decreases nf - fi,
        {
            let g = self.files[fi].gen;
            self.ops.push(DiskOp::Delete { gen: g });
            proof {
                assert(self.ops@.subrange(0, old_ops_len as int) =~= old(self).ops@);
            }
            fi = fi + 1;
        }
        let mut new_files: Vec<LogFile> = Vec::new();
        new_files.push(LogFile { gen: compaction_gen, data: cdata, journal: Ghost(cjournal) });
        new_files.push(LogFile { gen: new_cur, data: Vec::new(), journal: Ghost(Seq::empty()) });
        self.files = new_files;
        self.index = cindex;
        self.cur_gen = new_cur;
        self.safe_point = compaction_gen;
        self.uncompacted = 0;
        self.stored = cpos;
        proof {
            let fs = self.files@;
            assert(fs.len() == 2);
            assert(fs[0].journal@ == cjournal);
            assert(fs[1].journal@ =~= Seq::<CommandModel>::empty());
            assert(file_wf(fs[1])) by {
                assert(encode_all(Seq::<CommandModel>::empty()) == Seq::<char>::empty());
                assert(fs[1].data@ =~= Seq::<char>::empty());
            }
            assert(files_wf(fs));
            assert(all_journal(fs) =~= cjournal) by {
                assert(fs.last() == fs[1]);
                assert(fs[1].journal@ == Seq::<CommandModel>::empty());
                assert(fs.drop_last() =~= seq![fs[0]]);
                assert(seq![fs[0]].last() == fs[0]);
                assert(seq![fs[0]].drop_last() =~= Seq::<LogFile>::empty());
                assert(all_journal(Seq::<LogFile>::empty()) == Seq::<CommandModel>::empty());
                assert(all_journal(seq![fs[0]]) == all_journal(seq![fs[0]].drop_last())
                    + seq![fs[0]].last().journal@);
                assert(all_journal(fs) == all_journal(fs.drop_last()) + fs.last().journal@);
            }
            assert(self@ == replay(Map::empty(), cjournal));
            // the rebuilt map is the old one
            assert(self@ =~= m0) by {
                assert forall|k: Seq<char>| #[trigger] m0.contains_key(k) implies self@.contains_key(
                    k,
                ) && self@[k] == m0[k] by {
                    lemma_index_map_contains(index0, k);
                    let jj = choose|jj: int|
                        0 <= jj < index0.len() && (#[trigger] index0[jj]).0@ == k;
                    assert(replay(Map::empty(), cjournal).contains_key(k));
                }
            }
            // the index still names exactly the live keys
            let index1 = self.index@;
            assert forall|k: Seq<char>| #[trigger] self@.contains_key(k) implies index_map(
                index1,
            ).contains_key(k) by {
                let jj = choose|jj: int| 0 <= jj < n && (#[trigger] index0[jj]).0@ == k;
                assert(index1[jj].0@ == k);
                lemma_index_map_contains(index1, k);
            }
            assert forall|k: Seq<char>| #[trigger]
                index_map(index1).contains_key(k) implies self@.contains_key(k) by {
                lemma_index_map_contains(index1, k);
                let jj = choose|jj: int| 0 <= jj < index1.len() && (#[trigger] index1[jj]).0@ == k;
                assert(index0[jj].0@ == k);
                assert(m0.contains_key(k)) by {
                    lemma_index_map_entry(index0, jj);
                }
            }
            assert(distinct_keys(index1)) by {
                assert(forall|a: int, b: int|
                    0 <= a < b < index1.len() ==> (#[trigger] index1[a]).0@ != (
                    #[trigger] index1[b]).0@) by {
                    assert(forall|a: int|
                        0 <= a < index1.len() ==> (#[trigger] index1[a]).0 == index0[a].0);
                }
            }
            assert forall|ii: int| 0 <= ii < index1.len() implies entry_ok(
                fs,
                self@,
                #[trigger] index1[ii],
            ) by {
                let e = index1[ii];
                assert(e.0 == index0[ii].0);
                assert(m0.contains_key(e.0@)) by {
                    lemma_index_map_entry(index0, ii);
                }
                assert(self@[e.0@] == m0[e.0@]);
                assert(spec_encode(CommandModel::Put { key: e.0@, value: m0[e.0@] }).len()
                    == index0[ii].1.len as nat) by {
                    assert(entry_ok(files0, m0, index0[ii]));
                }
                assert(fs[0].gen == e.1.gen);
                assert(encodes_at(fs[0].data@, e.1.pos as int, CommandModel::Put {
                    key: e.0@,
                    value: m0[e.0@],
                }));
            }
            // sizes: the files now hold exactly the live records
            assert(total_len(fs) == fs[0].data@.len()) by {
                assert(fs.last() == fs[1]);
                assert(fs[1].data@.len() == 0);
                assert(fs.drop_last() =~= seq![fs[0]]);
                assert(seq![fs[0]].last() == fs[0]);
                assert(seq![fs[0]].drop_last() =~= Seq::<LogFile>::empty());
                assert(total_len(Seq::<LogFile>::empty()) == 0);
                assert(total_len(seq![fs[0]]) == total_len(seq![fs[0]].drop_last())
                    + seq![fs[0]].last().data@.len());
                assert(total_len(fs) == total_len(fs.drop_last()) + fs.last().data@.len());
            }
        }
    }


    /// Replays one log file: decodes its records in order, rebuilding index
    /// entries and counting the superseded characters. On success returns
    /// that count and the decoded journal; on failure the file is no valid
    /// record sequence at all.
    fn load(
        gen: u64,
        data: &Vec<char>,
        index: &mut Vec<(String, CommandPos)>,
        Ghost(files): Ghost<Seq<LogFile>>,
    ) -> (r: Result<(u64, Ghost<Seq<CommandModel>>), KvsError>)
        requires
            distinct_keys(old(index)@),
            ({
                let m = replay(Map::empty(), all_journal(files));
                &&& (forall|k: Seq<char>| #[trigger] m.contains_key(k) ==> index_map(
                    old(index)@,
                ).contains_key(k))
                &&& (forall|k: Seq<char>| #[trigger] index_map(old(index)@).contains_key(k)
                    ==> m.contains_key(k))
                &&& (forall|i: int|
                    0 <= i < old(index)@.len() ==> entry_ok(
                        files,
                        m,
                        #[trigger] old(index)@[i],
                    ))
            }),
            live_len(old(index)@) + data@.len() <= u64::MAX,
        ensures
            distinct_keys(final(index)@),
            match r {
                Ok((du, js)) => ({
                    let m2 = replay(Map::empty(), all_journal(files) + js@);
                    &&& data@ == encode_all(js@)
                    &&& (forall|k: Seq<char>| #[trigger] m2.contains_key(k) ==> index_map(
                        final(index)@,
                    ).contains_key(k))
                    &&& (forall|k: Seq<char>| #[trigger] index_map(final(index)@).contains_key(
                        k,
                    ) ==> m2.contains_key(k))
                    &&& (forall|i: int|
                        0 <= i < final(index)@.len() ==> entry_ok_x(
                            files,
                            gen,
                            data@,
                            m2,
                            #[trigger] final(index)@[i],
                        ))
                    &&& du as nat + live_len(final(index)@) == data@.len() + live_len(
                        old(index)@,
                    )
                }),
                Err(e) => {
                    &&& e == KvsError::Decode
                    &&& forall|cs: Seq<CommandModel>| data@ != encode_all(cs)
                },
            },
    {
        let n = data.len();
        let mut pos: usize = 0;
        let mut du: u64 = 0;
        let ghost mut js: Seq<CommandModel> = Seq::empty();
        let ghost m0all = all_journal(files);
        proof {
            assert(data@.subrange(0, 0) =~= Seq::<char>::empty());
            assert(encode_all(Seq::<CommandModel>::empty()) == Seq::<char>::empty());
            assert(m0all + js =~= m0all);
        }
        while pos < n
            invariant
                pos <= n,
                n == data@.len(),
                distinct_keys(index@),
                data@.subrange(0, pos as int) == encode_all(js),
                du as nat + live_len(index@) == pos + live_len(old(index)@),
                live_len(old(index)@) + data@.len() <= u64::MAX,
                m0all == all_journal(files),
                ({
                    let m = replay(Map::empty(), m0all + js);
                    &&& (forall|k: Seq<char>| #[trigger] m.contains_key(k) ==> index_map(
                        index@,
                    ).contains_key(k))
                    &&& (forall|k: Seq<char>| #[trigger] index_map(index@).contains_key(k)
                        ==> m.contains_key(k))
                    &&& (forall|i: int|
                        0 <= i < index@.len() ==> entry_ok_x(
                            files,
                            gen,
                            data@,
                            m,
                            #[trigger] index@[i],
                        ))
                }),
            decreases n - pos,
        {
            let ghost m = replay(Map::empty(), m0all + js);
            let (c, used) = match decode_command(data, pos) {
                Ok(x) => x,
                Err(e) => {
                    proof {
                        assert forall|cs: Seq<CommandModel>| data@ != encode_all(cs) by {
                            if data@ == encode_all(cs) {
                                lemma_boundary(data@, js, cs, pos as int);
                            }
                        }
                    }
                    return Err(e);
                },
            };
            let ghost js0 = js;
            proof {
                js = js.push(c@);
                lemma_encode_all_snoc(js0, c@);
                assert(data@.subrange(0, pos as int + used as int) == encode_all(js)) by {
                    assert(data@.subrange(0, pos as int + used as int) =~= data@.subrange(
                        0,
                        pos as int,
                    ) + data@.subrange(pos as int, pos as int + used as int));
                }
                assert(m0all + js =~= (m0all + js0).push(c@));
                assert((m0all + js0).push(c@).drop_last() =~= m0all + js0);
                assert(replay(Map::empty(), m0all + js) == apply_command(m, c@));
            }
            let ghost m2 = replay(Map::empty(), m0all + js);
            let ghost index_pre = index@;
            match c {
                Command::Put { key, value } => {
                    let ghost keyv = key@;
                    let p = CommandPos::new(gen, pos as u64, used as u64);
                    let old_e = index_insert(index, key, p);
                    proof {
                        if let Some(q) = old_e {
                            assert(du + q.len <= pos + live_len(old(index)@) + used);
                        }
                    }
                    if let Some(q) = old_e {
                        du = du + q.len;
                    }
                    proof {
                        assert(m2 == m.insert(keyv, value@));
                        assert forall|k: Seq<char>| #[trigger] m2.contains_key(
                            k,
                        ) implies index_map(index@).contains_key(k) by {
                            if k != keyv {
                                assert(m.contains_key(k));
                            }
                        }
                        assert forall|k: Seq<char>| #[trigger] index_map(index@).contains_key(
                            k,
                        ) implies m2.contains_key(k) by {
                            if k != keyv {
                                assert(index_map(index_pre).contains_key(k));
                            }
                        }
                        assert forall|i: int| 0 <= i < index@.len() implies entry_ok_x(
                            files,
                            gen,
                            data@,
                            m2,
                            #[trigger] index@[i],
                        ) by {
                            if i == index@.len() - 1 {
                                assert(index@[i] == (index@.last()));
                                assert(index@.last().0@ == keyv);
                                assert(index@.last().1 == p);
                                assert(m2[keyv] == value@);
                                assert(encodes_at(data@, pos as int, c@));
                            } else {
                                let j = choose|j: int|
                                    0 <= j < index_pre.len() && (#[trigger] index@[i])
                                        == index_pre[j];
                                let e = index@[i];
                                assert(entry_ok_x(files, gen, data@, m, index_pre[j]));
                                assert(e.0@ != keyv);
                                assert(m2[e.0@] == m[e.0@]);
                            }
                        }
                    }
                },
                Command::Remove { key } => {
                    let ghost keyv = key@;
                    let old_e = index_remove(index, &key);
                    proof {
                        assert(m2 =~= m.remove(keyv));
                        if let Some(q) = old_e {
                            assert(du + q.len + used <= pos + used + live_len(old(index)@));
                        } else {
                            assert(index_map(index@) =~= index_map(index_pre).remove(keyv));
                        }
                    }
                    if let Some(q) = old_e {
                        du = du + q.len;
                    }
                    du = du + used as u64;
                    proof {
                        assert forall|k: Seq<char>| #[trigger] m2.contains_key(
                            k,
                        ) implies index_map(index@).contains_key(k) by {
                            assert(k != keyv);
                            assert(m.contains_key(k));
                            match old_e {
                                Some(_) => {}
                                None => {
                                    assert(index_map(index@).contains_key(k)) by {
                                        assert(index_map(index_pre).contains_key(k));
                                        assert(index@ == index_pre);
                                    }
                                }
                            }
                        }
                        assert forall|k: Seq<char>| #[trigger] index_map(index@).contains_key(
                            k,
                        ) implies m2.contains_key(k) by {
                            match old_e {
                                Some(_) => {
                                    assert(index_map(index_pre).contains_key(k));
                                    assert(k != keyv);
                                }
                                None => {
                                    assert(index_map(index_pre).contains_key(k));
                                    assert(k != keyv) by {
                                        if k == keyv {
                                            assert(index_map(index_pre).contains_key(keyv));
                                        }
                                    }
                                }
                            }
                        }
                        assert forall|i: int| 0 <= i < index@.len() implies entry_ok_x(
                            files,
                            gen,
                            data@,
                            m2,
                            #[trigger] index@[i],
                        ) by {
                            match old_e {
                                Some(_) => {
                                    let j = choose|j: int|
                                        0 <= j < index_pre.len() && (#[trigger] index@[i])
                                            == index_pre[j];
                                    let e = index@[i];
                                    assert(entry_ok_x(files, gen, data@, m, index_pre[j]));
                                    assert(e.0@ != keyv) by {
                                        lemma_index_map_contains(index@, keyv);
                                        lemma_index_map_entry(index@, i);
                                    }
                                    assert(m2[e.0@] == m[e.0@]);
                                }
                                None => {
                                    let e = index@[i];
                                    assert(entry_ok_x(files, gen, data@, m, e));
                                    assert(e.0@ != keyv) by {
                                        if e.0@ == keyv {
                                            lemma_index_map_entry(index@, i);
                                        }
                                    }
                                    assert(m2[e.0@] == m[e.0@]);
                                }
                            }
                        }
                    }
                },
            }
            pos = pos + used;
        }
        proof {
            assert(data@.subrange(0, n as int) =~= data@);
        }
        Ok((du, Ghost(js)))
    }

    /// Opens a store from raw files (generation and contents, in ascending
    /// generation order, as read from the data directory): replays every
    /// record to rebuild the index, then starts a fresh generation for the
    /// writer. Fails with `Decode` exactly when some file is not a record
    /// sequence, and with `Io` when the sizes or generation numbers leave no
    /// room.
    pub fn open(inputs: Vec<(u64, Vec<char>)>) -> (r: Result<KvStore, KvsError>)
        requires
            forall|i: int, j: int|
                0 <= i < j < inputs@.len() ==> (#[trigger] inputs@[i]).0 < (
                #[trigger] inputs@[j]).0,
        ensures
            match r {
                Ok(s) => {
                    &&& s.wf()
                    &&& exists|js: Seq<Seq<CommandModel>>|
                        #[trigger] files_encode(inputs@, js) && s@ == replay(
                            Map::empty(),
                            concat_all(js),
                        )
                    &&& s.cur_gen == (if inputs@.len() == 0 {
                        1u64
                    } else {
                        (inputs@.last().0 + 1) as u64
                    })
                    &&& s.safe_point == 0
                    &&& s.stored as nat == inputs_total(inputs@)
                    &&& s.uncompacted as nat + live_len(s.index@) == inputs_total(inputs@)
                    &&& s.ops@.len() == 1
                    &&& s.ops@[0] is Create
                    &&& s.ops@[0].arrow_Create_gen() == s.cur_gen
                },
                Err(e) => {
                    &&& (e == KvsError::Decode || e == KvsError::Io)
                    &&& (e == KvsError::Decode ==> forall|js: Seq<Seq<CommandModel>>|
                        !files_encode(inputs@, js))
                    &&& (e == KvsError::Io ==> inputs_total(inputs@) > u64::MAX || (
                    inputs@.len() > 0 && inputs@.last().0 == u64::MAX))
                },
            },
            ((exists|js: Seq<Seq<CommandModel>>| #[trigger] files_encode(inputs@, js))
                && inputs_total(inputs@) <= u64::MAX && (inputs@.len() == 0
                || inputs@.last().0 < u64::MAX)) ==> r is Ok,
    {
        let ghost orig = inputs@;
        let n_in = inputs.len();
        let mut st = KvStore {
            files: Vec::new(),
            index: Vec::new(),
            cur_gen: 0,
            uncompacted: 0,
            stored: 0,
            safe_point: 0,
            ops: Vec::new(),
        };
        let ghost mut jss: Seq<Seq<CommandModel>> = Seq::empty();
        let mut k: usize = 0;
        proof {
            assert(orig.take(0) =~= Seq::<(u64, Vec<char>)>::empty());
            assert(all_journal(st.files@) =~= concat_all(jss));
        }
        while k < n_in
            invariant
                k <= n_in,
                n_in == inputs@.len(),
                orig == inputs@,
                forall|i: int, j: int|
                    0 <= i < j < orig.len() ==> (#[trigger] orig[i]).0 < (#[trigger] orig[j]).0,
                jss.len() == k,
                forall|i: int| 0 <= i < k ==> orig[i].1@ == encode_all(#[trigger] jss[i]),
                st.files@.len() == k,
                forall|i: int|
                    0 <= i < k ==> (#[trigger] st.files@[i]).gen == orig[i].0
                        && st.files@[i].data@ == orig[i].1@ && file_wf(st.files@[i]),
                all_journal(st.files@) == concat_all(jss),
                distinct_keys(st.index@),
                ({
                    let m = replay(Map::empty(), all_journal(st.files@));
                    &&& (forall|kk: Seq<char>| #[trigger] m.contains_key(kk) ==> index_map(
                        st.index@,
                    ).contains_key(kk))
                    &&& (forall|kk: Seq<char>| #[trigger] index_map(st.index@).contains_key(kk)
                        ==> m.contains_key(kk))
                    &&& (forall|i: int|
                        0 <= i < st.index@.len() ==> entry_ok(
                            st.files@,
                            m,
                            #[trigger] st.index@[i],
                        ))
                }),
                st.stored as nat == total_len(st.files@),
                st.stored as nat == inputs_total(orig.take(k as int)),
                st.uncompacted as nat + live_len(st.index@) == st.stored as nat,
                st.ops@.len() == 0,
                st.safe_point == 0,
            decreases n_in - k,
        {
            let g = inputs[k].0;
            let dl = inputs[k].1.len();
            if dl as u64 > u64::MAX - st.stored {
                proof {
                    lemma_inputs_total_take_succ(orig, k as int);
                    lemma_inputs_total_take_mono(orig, k as int + 1);
                }
                return Err(KvsError::Io);
            }
            let ghost files_pre = st.files@;
            match Self::load(g, &inputs[k].1, &mut st.index, Ghost(st.files@)) {
                Err(e) => {
                    proof {
                        assert forall|js2: Seq<Seq<CommandModel>>| !files_encode(
                            orig,
                            js2,
                        ) by {
                            if files_encode(orig, js2) {
                                assert(js2.len() == orig.len());
                                assert(orig[k as int].1@ == encode_all(js2[k as int]));
                            }
                        }
                    }
                    return Err(e);
                },
                Ok((du, js_g)) => {
                    let ghost js = js_g@;
                    proof {
                        assert(st.uncompacted + du + live_len(st.index@) == st.stored + dl);
                    }
                    st.uncompacted = st.uncompacted + du;
                    st.stored = st.stored + dl as u64;
                    let d = inputs[k].1.clone();
                    proof {
                        assert(d@ =~= inputs@[k as int].1@) by {
                            assert forall|x: int| 0 <= x < d@.len() implies d@[x] == inputs@[
                                k as int].1@[x] by {
                                assert(cloned::<char>(inputs@[k as int].1@[x], d@[x]));
                            }
                        }
                    }
                    let lf = LogFile { gen: g, data: d, journal: Ghost(js) };
                    st.files.push(lf);
                    proof {
                        let ghost jss0 = jss;
                        jss = jss.push(js);
                        let fs = st.files@;
                        assert(fs.drop_last() =~= files_pre);
                        assert(fs.last() == lf);
                        assert(all_journal(fs) == all_journal(files_pre) + js);
                        assert(jss.drop_last() =~= jss0);
                        assert(concat_all(jss) == concat_all(jss0) + js);
                        assert(total_len(fs) == total_len(files_pre) + dl);
                        lemma_inputs_total_take_succ(orig, k as int);
                        assert(orig.take(k as int + 1).drop_last() =~= orig.take(k as int));
                        // the rebuilt entries now point into the pushed file
                        let m2 = replay(Map::empty(), all_journal(fs));
                        assert(m2 == replay(Map::empty(), all_journal(files_pre) + js));
                        assert forall|i: int| 0 <= i < st.index@.len() implies entry_ok(
                            fs,
                            m2,
                            #[trigger] st.index@[i],
                        ) by {
                            assert(entry_ok_x(files_pre, g, inputs@[k as int].1@, m2,
                                st.index@[i]));
                            assert(lf.gen == g && lf.data@ == inputs@[k as int].1@);
                            lemma_entry_x_push(files_pre, lf, m2, st.index@[i]);
                        }
                    }
                    k = k + 1;
                },
            }
        }
        proof {
            assert(orig.take(k as int) =~= orig);
        }
        let next_gen: u64;
        if st.files.len() == 0 {
            next_gen = 1;
        } else {
            let lg = st.files[st.files.len() - 1].gen;
            proof {
                assert(lg == orig.last().0);
            }
            if lg == u64::MAX {
                return Err(KvsError::Io);
            }
            next_gen = lg + 1;
        }
        st.cur_gen = next_gen;
        let ghost files_pre = st.files@;
        let lf = LogFile { gen: next_gen, data: Vec::new(), journal: Ghost(Seq::empty()) };
        st.files.push(lf);
        st.ops.push(DiskOp::Create { gen: next_gen });
        proof {
            let fs = st.files@;
            assert(fs.drop_last() =~= files_pre);
            assert(fs.last() == lf);
            assert(lf.data@ =~= Seq::<char>::empty());
            assert(encode_all(Seq::<CommandModel>::empty()) == Seq::<char>::empty());
            assert(file_wf(lf));
            assert(files_wf(fs)) by {
                assert forall|i: int, j: int|
                    0 <= i < j < fs.len() implies (#[trigger] fs[i]).gen < (
                #[trigger] fs[j]).gen by {
                    if j < fs.len() - 1 {
                        assert(fs[i] == files_pre[i] && fs[j] == files_pre[j]);
                    } else {
                        if i < fs.len() - 1 {
                            assert(fs[i].gen == orig[i].0);
                        }
                    }
                }
            }
            assert(all_journal(fs) =~= all_journal(files_pre) + Seq::<CommandModel>::empty());
            assert(all_journal(fs) =~= concat_all(jss));
            assert(st@ == replay(Map::empty(), concat_all(jss)));
            assert(total_len(fs) == total_len(files_pre));
            assert(files_encode(orig, jss));
            let m2 = replay(Map::empty(), all_journal(fs));
            assert(m2 == replay(Map::empty(), all_journal(files_pre)));
            assert forall|i: int| 0 <= i < st.index@.len() implies entry_ok(
                fs,
                m2,
                #[trigger] st.index@[i],
            ) by {
                assert(entry_ok(files_pre, m2, st.index@[i]));
                let cm = (CommandModel::Put {
                    key: st.index@[i].0@,
                    value: m2[st.index@[i].0@],
                });
                let j = choose|j: int|
                    0 <= j < files_pre.len() && (#[trigger] files_pre[j]).gen
                        == st.index@[i].1.gen && encodes_at(
                        files_pre[j].data@,
                        st.index@[i].1.pos as int,
                        cm,
                    );
                assert(fs[j] == files_pre[j]);
            }
            assert(st.wf());
        }
        Ok(st)
    }


    /// Hands the queued directory actions to the host, leaving the queue
    /// empty. Nothing else about the engine changes.
    pub fn take_ops(&mut self) -> (r: Vec<DiskOp>)
        ensures
            r == old(self).ops,
            final(self).ops@ == Seq::<DiskOp>::empty(),
            final(self).files == old(self).files,
            final(self).index == old(self).index,
            final(self).cur_gen == old(self).cur_gen,
            final(self).uncompacted == old(self).uncompacted,
            final(self).stored == old(self).stored,
            final(self).safe_point == old(self).safe_point,
    {
        let mut v: Vec<DiskOp> = Vec::new();
        core::mem::swap(&mut v, &mut self.ops);
        proof {
            assert(self.ops@ =~= Seq::<DiskOp>::empty());
        }
        v
    }

}

} // verus!
