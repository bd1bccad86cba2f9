//! Rebuilding the sorted table by replaying the log.
use vstd::prelude::*;
use crate::memtable::MemTable;
use crate::record::{DecodeError, parse_record, mutation_record, lemma_parse_mutation_record};
use crate::wal::{frame, parse_log, parse_records, lemma_parse_log_append};

verus! {

/// The table that applying `recs` in order to an empty table yields.
pub open spec fn replay(recs: Seq<Seq<u8>>) -> Result<Map<Seq<u8>, Option<Seq<u8>>>, DecodeError>
    decreases recs.len(),
{
    if recs.len() == 0 {
        Ok(Map::empty())
    } else {
        match replay(recs.drop_last()) {
            Ok(m) => match parse_record(recs.last()) {
                Ok((k, slot)) => Ok(m.insert(k, slot)),
                Err(e) => Err(e),
            },
            Err(e) => Err(e),
        }
    }
}

/// Once a prefix of the records fails to replay, the whole sequence fails
/// with the same error.
proof fn lemma_replay_prefix_err(recs: Seq<Seq<u8>>, j: int)
    requires
        0 <= j <= recs.len(),
        replay(recs.take(j)) is Err,
    ensures
        replay(recs) == replay(recs.take(j)),
    decreases recs.len() - j,
{
    if j == recs.len() {
        assert(recs.take(j) =~= recs);
    } else {
        assert(recs.take(j + 1).drop_last() =~= recs.take(j));
        lemma_replay_prefix_err(recs, j + 1);
    }
}

/// The table that a log describes.
pub open spec fn recovered(log: Seq<u8>) -> Result<Map<Seq<u8>, Option<Seq<u8>>>, DecodeError> {
    match parse_log(log) {
        Ok(recs) => replay(recs),
        Err(e) => Err(e),
    }
}

/// Once the frame of a mutation is appended to a log, a restart recovers
/// the table the log described with that mutation applied.
pub proof fn lemma_durable_mutation(log: Seq<u8>, key: Seq<u8>, slot: Option<Seq<u8>>)
    requires
        recovered(log) is Ok,
        key.len() <= u32::MAX,
        slot is Some ==> slot->0.len() <= u32::MAX,
        mutation_record(key, slot).len() <= u32::MAX,
    ensures
        recovered(log + frame(mutation_record(key, slot))) == Ok::<
            Map<Seq<u8>, Option<Seq<u8>>>,
            DecodeError,
        >(recovered(log)->Ok_0.insert(key, slot)),
{
    let rec = mutation_record(key, slot);
    lemma_parse_log_append(log, rec);
    lemma_parse_mutation_record(key, slot);
    let recs = parse_log(log)->Ok_0;
    assert(recs.push(rec).drop_last() =~= recs);
    assert(recs.push(rec).last() == rec);
}

/// Rebuilds the sorted table from the bytes of a log (an absent log is an
/// empty one). Any malformed frame or record fails the whole recovery.
pub fn recover(log: &[u8]) -> (r: Result<MemTable, DecodeError>)
    ensures
        match recovered(log@) {
            Ok(m) => r matches Ok(t) && t.wf() && t@ == m,
            Err(e) => r matches Err(e2) && e2 == e,
        },
{
    let records = match parse_records(log) {
        Ok(v) => v,
        Err(e) => return Err(e),
    };
    let ghost recs = records@.map_values(|x: Vec<u8>| x@);
    let mut memtable = MemTable::new();
    let mut i: usize = 0;
    while i < records.len()
        invariant
            recs == records@.map_values(|x: Vec<u8>| x@),
            parse_log(log@) == Ok::<Seq<Seq<u8>>, DecodeError>(recs),
            i <= recs.len(),
            memtable.wf(),
            replay(recs.take(i as int)) == Ok::<Map<Seq<u8>, Option<Seq<u8>>>, DecodeError>(
                memtable@,
            ),
        decreases recs.len() - i,
    {
        assert(recs.take(i + 1).drop_last() =~= recs.take(i as int));
        assert(recs.take(i + 1).last() == records@[i as int]@);
        match memtable.apply(records[i].as_slice()) {
            Ok(()) => {},
            Err(e) => {
                proof {
                    lemma_replay_prefix_err(recs, i + 1);
                }
                return Err(e);
            },
        }
        i = i + 1;
    }
    assert(recs.take(i as int) =~= recs);
    Ok(memtable)
}

} // verus!
