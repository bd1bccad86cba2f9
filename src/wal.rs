//! The write-ahead log's byte format: each record is framed by a 32-bit
//! little-endian length, and the log is the frames back to back.
use vstd::prelude::*;
use crate::bytes::{le32, u32_le, lemma_le32_of_u32_le, push_u32_le, push_bytes, copy_range};
use crate::record::DecodeError;

verus! {

/// One framed record.
pub open spec fn frame(rec: Seq<u8>) -> Seq<u8>
    recommends
        rec.len() <= u32::MAX,
{
    u32_le(rec.len() as u32) + rec
}

/// The records of a log, in order. The log must end exactly after a
/// frame; a cut length field or record body is an error.
pub open spec fn parse_log(s: Seq<u8>) -> Result<Seq<Seq<u8>>, DecodeError>
    decreases s.len(),
{
    if s.len() == 0 {
        Ok(Seq::empty())
    } else if s.len() < 4 {
        Err(DecodeError::Truncated)
    } else {
        let n = le32(s.subrange(0, 4)) as int;
        if s.len() - 4 < n {
            Err(DecodeError::Truncated)
        } else {
            match parse_log(s.skip(4 + n)) {
                Ok(rest) => Ok(seq![s.subrange(4, 4 + n)] + rest),
                Err(e) => Err(e),
            }
        }
    }
}

/// Appending one frame to a log that parses appends its record to the
/// parsed records.
pub proof fn lemma_parse_log_append(log: Seq<u8>, rec: Seq<u8>)
    requires
        parse_log(log) is Ok,
        rec.len() <= u32::MAX,
    ensures
        parse_log(log + frame(rec)) == Ok::<Seq<Seq<u8>>, DecodeError>(
            parse_log(log)->Ok_0.push(rec),
        ),
    decreases log.len(),
{
    let s = log + frame(rec);
    if log.len() == 0 {
        lemma_le32_of_u32_le(rec.len() as u32);
        assert(s =~= frame(rec));
        assert(s.subrange(0, 4) =~= u32_le(rec.len() as u32));
        assert(s.skip(4 + rec.len() as int) =~= Seq::<u8>::empty());
        assert(s.subrange(4, 4 + rec.len() as int) =~= rec);
        assert(parse_log(Seq::<u8>::empty()) == Ok::<Seq<Seq<u8>>, DecodeError>(Seq::empty()));
        assert(parse_log(log) == Ok::<Seq<Seq<u8>>, DecodeError>(Seq::empty()));
        assert(seq![rec] + Seq::<Seq<u8>>::empty() =~= Seq::<Seq<u8>>::empty().push(rec));
    } else {
        let n = le32(log.subrange(0, 4)) as int;
        assert(s.subrange(0, 4) =~= log.subrange(0, 4));
        assert(s.skip(4 + n) =~= log.skip(4 + n) + frame(rec));
        assert(s.subrange(4, 4 + n) =~= log.subrange(4, 4 + n));
        lemma_parse_log_append(log.skip(4 + n), rec);
        let rest = parse_log(log.skip(4 + n))->Ok_0;
        assert(seq![log.subrange(4, 4 + n)] + rest.push(rec) =~= (seq![log.subrange(4, 4 + n)]
            + rest).push(rec));
    }
}

/// Appends one framed record to `out`.
pub fn push_frame(out: &mut Vec<u8>, rec: &[u8])
    requires
        rec@.len() <= u32::MAX,
    ensures
        final(out)@ == old(out)@ + frame(rec@),
{
    push_u32_le(out, rec.len() as u32);
    push_bytes(out, rec);
    assert(final(out)@ =~= old(out)@ + frame(rec@));
}

/// Splits a log into its records, in order.
pub fn parse_records(log: &[u8]) -> (r: Result<Vec<Vec<u8>>, DecodeError>)
    ensures
        match (r, parse_log(log@)) {
            (Ok(v), Ok(recs)) => v@.map_values(|x: Vec<u8>| x@) == recs,
            (Err(e), Err(se)) => e == se,
            _ => false,
        },
{
    let ghost s = log@;
    let mut out: Vec<Vec<u8>> = Vec::new();
    let mut pos: usize = 0;
    proof {
        assert(s.skip(0) =~= s);
        assert(out@.map_values(|x: Vec<u8>| x@) =~= Seq::<Seq<u8>>::empty());
        match parse_log(s) {
            Ok(rest) => {
                assert(Seq::<Seq<u8>>::empty() + rest =~= rest);
            },
            Err(e) => {},
        }
    }
    while pos < log.len()
        invariant
            s == log@,
            pos <= s.len(),
            parse_log(s) == match parse_log(s.skip(pos as int)) {
                Ok(rest) => Ok(out@.map_values(|x: Vec<u8>| x@) + rest),
                Err(e) => Err::<Seq<Seq<u8>>, DecodeError>(e),
            },
        decreases s.len() - pos,
    {
        let ghost t = s.skip(pos as int);
        if log.len() - pos < 4 {
            return Err(DecodeError::Truncated);
        }
        let n = crate::bytes::read_u32_le(log, pos) as usize;
        assert(t.subrange(0, 4) =~= s.subrange(pos as int, pos + 4));
        if log.len() - pos - 4 < n {
            return Err(DecodeError::Truncated);
        }
        let rec = copy_range(log, pos + 4, pos + 4 + n);
        assert(t.subrange(4, 4 + n as int) =~= rec@);
        assert(t.skip(4 + n as int) =~= s.skip(pos + 4 + n));
        let ghost before = out@.map_values(|x: Vec<u8>| x@);
        out.push(rec);
        assert(out@.map_values(|x: Vec<u8>| x@) =~= before.push(rec@));
        proof {
            match parse_log(s.skip(pos + 4 + n)) {
                Ok(rest) => {
                    assert(before + (seq![rec@] + rest) =~= before.push(rec@) + rest);
                },
                Err(e) => {},
            }
        }
        pos = pos + 4 + n;
    }
    assert(s.skip(pos as int) =~= Seq::<u8>::empty());
    assert(out@.map_values(|x: Vec<u8>| x@) + Seq::<Seq<u8>>::empty() =~= out@.map_values(
        |x: Vec<u8>| x@,
    ));
    Ok(out)
}

} // verus!
