//! The store's laws: statements that tie several operations together,
//! proved once and for all.

use vstd::prelude::*;
use crate::codec::{CommandModel, spec_encode, encodes_at, lemma_encodes_at_unique};
use crate::index::live_len;
use crate::store::{KvStore, LogFile, all_journal, apply_command, replay, concat_all, encode_all,
    lemma_encode_all_unique, total_len, COMPACTION_THRESHOLD};

verus! {

/// Overwrite: writing a key twice leaves the second value, with the first
/// gone without a trace.
pub proof fn lemma_overwrite(m: Map<Seq<char>, Seq<char>>, k: Seq<char>, v1: Seq<char>, v2: Seq<char>)
    ensures
        apply_command(apply_command(m, (CommandModel::Put { key: k, value: v1 })), (CommandModel::Put { key: k, value: v2 }))
            == m.insert(k, v2),
{
    assert(m.insert(k, v1).insert(k, v2) =~= m.insert(k, v2));
}

/// Remove boundary: once a key is removed it is gone, so removing it again
/// finds nothing.
pub proof fn lemma_remove_boundary(m: Map<Seq<char>, Seq<char>>, k: Seq<char>, v: Seq<char>)
    ensures
        !apply_command(apply_command(m, (CommandModel::Put { key: k, value: v })), (CommandModel::Remove { key: k })).contains_key(k),
        apply_command(apply_command(m, (CommandModel::Put { key: k, value: v })), (CommandModel::Remove { key: k }))
            == m.remove(k),
{
    assert(m.insert(k, v).remove(k) =~= m.remove(k));
}

/// Codec round trip: a record followed by anything reads back as exactly
/// that record, and as nothing else.
pub proof fn lemma_codec_round_trip(cm: CommandModel, rest: Seq<char>)
    ensures
        encodes_at(spec_encode(cm) + rest, 0, cm),
        forall|cm2: CommandModel|
            encodes_at(spec_encode(cm) + rest, 0, cm2) ==> cm2 == cm,
{
    let d = spec_encode(cm) + rest;
    assert(d.subrange(0, spec_encode(cm).len() as int) =~= spec_encode(cm));
    assert forall|cm2: CommandModel| encodes_at(d, 0, cm2) implies cm2 == cm by {
        lemma_encodes_at_unique(d, 0, cm2, cm);
    }
}

/// Compaction reclaims: whenever the superseded bytes rest at or below the
/// threshold — which `set` guarantees after every write while generation
/// numbers last — the files hold at most the live records plus the
/// threshold, however many writes went before.
pub proof fn lemma_bounded_size(s: KvStore)
    requires
        s.wf(),
        s.uncompacted <= COMPACTION_THRESHOLD,
    ensures
        total_len(s.files@) <= live_len(s.index@) + COMPACTION_THRESHOLD,
{
}

/// The journals of a well-formed store are the only reading of its files.
proof fn lemma_journals_determined(files: Seq<LogFile>, js: Seq<Seq<CommandModel>>)
    requires
        js.len() == files.len(),
        forall|i: int| 0 <= i < files.len() ==> (#[trigger] files[i]).data@ == encode_all(js[i]),
        forall|i: int| 0 <= i < files.len() ==> (#[trigger] files[i]).data@ == encode_all(
            files[i].journal@,
        ),
    ensures
        concat_all(js) == all_journal(files),
    decreases files.len(),
{
    if files.len() > 0 {
        assert(forall|i: int|
            0 <= i < files.len() - 1 ==> (#[trigger] files.drop_last()[i]) == files[i]);
        assert(forall|i: int|
            0 <= i < js.len() - 1 ==> (#[trigger] js.drop_last()[i]) == js[i]);
        lemma_journals_determined(files.drop_last(), js.drop_last());
        lemma_encode_all_unique(files.last().data@, js.last(), files.last().journal@);
        assert(js.last() == files.last().journal@);
        assert(concat_all(js) == concat_all(js.drop_last()) + js.last());
        assert(all_journal(files) == all_journal(files.drop_last()) + files.last().journal@);
    } else {
        assert(js =~= Seq::<Seq<CommandModel>>::empty());
    }
}

/// Durability: the files of a well-formed store admit exactly one reading,
/// and replaying that reading yields the store's current map. Together with
/// `KvStore::open`'s contract this says a store reopened from its own files
/// answers every `get` as before.
pub proof fn lemma_durability(s: KvStore, js: Seq<Seq<CommandModel>>)
    requires
        s.wf(),
        js.len() == s.files@.len(),
        forall|i: int| 0 <= i < s.files@.len() ==> (#[trigger] s.files@[i]).data@ == encode_all(
            js[i],
        ),
    ensures
        replay(Map::empty(), concat_all(js)) == s@,
{
    lemma_journals_determined(s.files@, js);
}

} // verus!
