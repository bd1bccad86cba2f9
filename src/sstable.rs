//! The immutable sorted file's byte format and its point lookup. An entry is
//! a 32-bit little-endian key length, the key, then a signed 32-bit value
//! length (`-1`, all bits set, marks a tombstone) and the value bytes.
use vstd::prelude::*;
use crate::bytes::{le32, u32_le, lemma_le32_of_u32_le, push_u32_le, push_bytes, read_u32_le, copy_range};
use crate::memtable::{MemTable, compare_keys, entry_view, lex_lt, slot_view, sorted_keys, describes};
use crate::record::DecodeError;

verus! {

/// The value-length field of a tombstone: `-1` as a signed 32-bit number.
pub const TOMBSTONE_LEN: u32 = 0xFFFF_FFFF;

/// The largest value length the signed field can hold.
pub const MAX_VALUE_LEN: u32 = 0x7FFF_FFFF;

/// An entry whose lengths fit its fields.
pub open spec fn entry_fits(key: Seq<u8>, slot: Option<Seq<u8>>) -> bool {
    &&& key.len() <= u32::MAX
    &&& slot is Some ==> slot->0.len() <= MAX_VALUE_LEN
}

/// The bytes of one entry.
pub open spec fn entry_bytes(key: Seq<u8>, slot: Option<Seq<u8>>) -> Seq<u8> {
    u32_le(key.len() as u32) + key + match slot {
        Some(v) => u32_le(v.len() as u32) + v,
        None => u32_le(TOMBSTONE_LEN),
    }
}

/// The bytes of a file holding `e`, in order.
pub open spec fn table_bytes(e: Seq<(Seq<u8>, Option<Seq<u8>>)>) -> Seq<u8>
    decreases e.len(),
{
    if e.len() == 0 {
        Seq::empty()
    } else {
        entry_bytes(e[0].0, e[0].1) + table_bytes(e.drop_first())
    }
}

/// What a forward scan of file bytes finds for `key`: `None` when the scan
/// reaches the end without a match, else the slot of the first entry with
/// that key. A malformed entry met before a match is an error.
pub open spec fn find_in(s: Seq<u8>, key: Seq<u8>) -> Result<Option<Option<Seq<u8>>>, DecodeError>
    decreases s.len(),
{
    if s.len() == 0 {
        Ok(None)
    } else if s.len() < 4 {
        Err(DecodeError::Truncated)
    } else {
        let kl = le32(s.subrange(0, 4)) as int;
        if s.len() < 8 + kl {
            Err(DecodeError::Truncated)
        } else {
            let k = s.subrange(4, 4 + kl);
            let f = le32(s.subrange(4 + kl, 8 + kl));
            if f == TOMBSTONE_LEN {
                if k == key {
                    Ok(Some(None))
                } else {
                    find_in(s.skip(8 + kl), key)
                }
            } else if f > MAX_VALUE_LEN {
                Err(DecodeError::BadValueLength)
            } else if s.len() < 8 + kl + f {
                Err(DecodeError::Truncated)
            } else if k == key {
                Ok(Some(Some(s.subrange(8 + kl, 8 + kl + f))))
            } else {
                find_in(s.skip(8 + kl + f), key)
            }
        }
    }
}

/// The slot of the first entry of `e` with key `key`, if any.
pub open spec fn first_slot(e: Seq<(Seq<u8>, Option<Seq<u8>>)>, key: Seq<u8>) -> Option<
    Option<Seq<u8>>,
>
    decreases e.len(),
{
    if e.len() == 0 {
        None
    } else if e[0].0 == key {
        Some(e[0].1)
    } else {
        first_slot(e.drop_first(), key)
    }
}

/// A scan over one entry followed by more bytes either matches that entry
/// or goes on with the bytes after it.
pub proof fn lemma_find_entry_then(
    key: Seq<u8>,
    slot: Option<Seq<u8>>,
    rest: Seq<u8>,
    target: Seq<u8>,
)
    requires
        entry_fits(key, slot),
    ensures
        find_in(entry_bytes(key, slot) + rest, target) == if key == target {
            Ok(Some(slot))
        } else {
            find_in(rest, target)
        },
{
    let s = entry_bytes(key, slot) + rest;
    let kl = key.len() as int;
    lemma_le32_of_u32_le(key.len() as u32);
    assert(s.subrange(0, 4) =~= u32_le(key.len() as u32));
    assert(s.subrange(4, 4 + kl) =~= key);
    match slot {
        Some(v) => {
            lemma_le32_of_u32_le(v.len() as u32);
            assert(s.subrange(4 + kl, 8 + kl) =~= u32_le(v.len() as u32));
            assert(s.subrange(8 + kl, 8 + kl + v.len()) =~= v);
            assert(s.skip(8 + kl + v.len()) =~= rest);
        },
        None => {
            lemma_le32_of_u32_le(TOMBSTONE_LEN);
            assert(s.subrange(4 + kl, 8 + kl) =~= u32_le(TOMBSTONE_LEN));
            assert(s.skip(8 + kl) =~= rest);
        },
    }
}

/// Writing one entry and scanning the bytes for its key gives back its slot.
pub proof fn lemma_entry_round_trip(key: Seq<u8>, slot: Option<Seq<u8>>)
    requires
        entry_fits(key, slot),
    ensures
        find_in(entry_bytes(key, slot), key) == Ok::<Option<Option<Seq<u8>>>, DecodeError>(
            Some(slot),
        ),
{
    lemma_find_entry_then(key, slot, Seq::empty(), key);
    assert(entry_bytes(key, slot) + Seq::<u8>::empty() =~= entry_bytes(key, slot));
}

/// Scanning a whole file finds the first entry with the key.
pub proof fn lemma_find_in_table(e: Seq<(Seq<u8>, Option<Seq<u8>>)>, key: Seq<u8>)
    requires
        forall|i: int| 0 <= i < e.len() ==> entry_fits(#[trigger] e[i].0, e[i].1),
    ensures
        find_in(table_bytes(e), key) == Ok::<Option<Option<Seq<u8>>>, DecodeError>(
            first_slot(e, key),
        ),
    decreases e.len(),
{
    if e.len() > 0 {
        assert(entry_fits(e[0].0, e[0].1));
        lemma_find_entry_then(e[0].0, e[0].1, table_bytes(e.drop_first()), key);
        assert forall|i: int| 0 <= i < e.drop_first().len() implies entry_fits(
            #[trigger] e.drop_first()[i].0,
            e.drop_first()[i].1,
        ) by {
            assert(e.drop_first()[i] == e[i + 1]);
        }
        lemma_find_in_table(e.drop_first(), key);
    }
}

/// In sorted entries that describe a map, the first entry with a key holds
/// the map's slot for it.
pub proof fn lemma_first_slot_describes(
    e: Seq<(Seq<u8>, Option<Seq<u8>>)>,
    m: Map<Seq<u8>, Option<Seq<u8>>>,
    key: Seq<u8>,
)
    requires
        sorted_keys(e),
        describes(e, m),
    ensures
        first_slot(e, key) == if m.contains_key(key) {
            Some(m[key])
        } else {
            None::<Option<Seq<u8>>>
        },
{
    crate::memtable::lemma_lex_order();
    if m.contains_key(key) {
        let i = choose|i: int| 0 <= i < e.len() && e[i].0 == key;
        lemma_first_slot_at(e, key, i);
    } else {
        lemma_first_slot_none(e, key);
    }
}

proof fn lemma_first_slot_at(e: Seq<(Seq<u8>, Option<Seq<u8>>)>, key: Seq<u8>, i: int)
    requires
        0 <= i < e.len(),
        e[i].0 == key,
        sorted_keys(e),
    ensures
        first_slot(e, key) == Some(e[i].1),
    decreases e.len(),
{
    crate::memtable::lemma_lex_order();
    if i > 0 {
        assert(lex_lt(e[0].0, e[i].0));
        assert(e.drop_first()[i - 1] == e[i]);
        lemma_first_slot_at(e.drop_first(), key, i - 1);
    }
}

proof fn lemma_first_slot_none(e: Seq<(Seq<u8>, Option<Seq<u8>>)>, key: Seq<u8>)
    requires
        forall|i: int| 0 <= i < e.len() ==> #[trigger] e[i].0 != key,
    ensures
        first_slot(e, key) == None::<Option<Seq<u8>>>,
    decreases e.len(),
{
    if e.len() > 0 {
        assert(e[0].0 != key);
        assert forall|i: int| 0 <= i < e.drop_first().len() implies #[trigger] e.drop_first()[i].0
            != key by {
            assert(e.drop_first()[i] == e[i + 1]);
        }
        lemma_first_slot_none(e.drop_first(), key);
    }
}

proof fn lemma_table_bytes_push(e: Seq<(Seq<u8>, Option<Seq<u8>>)>, x: (Seq<u8>, Option<Seq<u8>>))
    ensures
        table_bytes(e.push(x)) == table_bytes(e) + entry_bytes(x.0, x.1),
    decreases e.len(),
{
    if e.len() == 0 {
        assert(e.push(x).drop_first() =~= Seq::<(Seq<u8>, Option<Seq<u8>>)>::empty());
        assert(table_bytes(Seq::<(Seq<u8>, Option<Seq<u8>>)>::empty()) == Seq::<u8>::empty());
        assert(e.push(x)[0] == x);
        assert(table_bytes(e.push(x)) =~= entry_bytes(x.0, x.1));
    } else {
        assert(e.push(x).drop_first() =~= e.drop_first().push(x));
        lemma_table_bytes_push(e.drop_first(), x);
        assert(table_bytes(e.push(x)) =~= table_bytes(e) + entry_bytes(x.0, x.1));
    }
}

/// Appends one entry to `out`.
pub fn write_entry(out: &mut Vec<u8>, key: &[u8], value: &Option<Vec<u8>>)
    requires
        entry_fits(key@, slot_view(*value)),
    ensures
        final(out)@ == old(out)@ + entry_bytes(key@, slot_view(*value)),
{
    push_u32_le(out, key.len() as u32);
    push_bytes(out, key);
    match value {
        Some(v) => {
            push_u32_le(out, v.len() as u32);
            push_bytes(out, v.as_slice());
        },
        None => {
            push_u32_le(out, TOMBSTONE_LEN);
        },
    }
    assert(final(out)@ =~= old(out)@ + entry_bytes(key@, slot_view(*value)));
}

/// The bytes of a file holding every entry of the table, in ascending key
/// order; `None` when some key or value is too long for its length field.
pub fn encode_table(t: &MemTable) -> (r: Option<Vec<u8>>)
    requires
        t.wf(),
    ensures
        match r {
            Some(b) => b@ == table_bytes(t.entries()) && forall|i: int|
                0 <= i < t.entries().len() ==> entry_fits(
                    #[trigger] t.entries()[i].0,
                    t.entries()[i].1,
                ),
            None => exists|i: int|
                0 <= i < t.entries().len() && !entry_fits(
                    #[trigger] t.entries()[i].0,
                    t.entries()[i].1,
                ),
        },
{
    let entries = t.iter();
    let ghost e = t.entries();
    let mut out: Vec<u8> = Vec::new();
    let mut i: usize = 0;
    assert(e.take(0) =~= Seq::<(Seq<u8>, Option<Seq<u8>>)>::empty());
    while i < entries.len()
        invariant
            entries@.map_values(|x: (Vec<u8>, Option<Vec<u8>>)| entry_view(x)) == e,
            e == t.entries(),
            i <= e.len(),
            out@ == table_bytes(e.take(i as int)),
            forall|j: int| 0 <= j < i ==> entry_fits(#[trigger] e[j].0, e[j].1),
        decreases e.len() - i,
    {
        let key = &entries[i].0;
        let value = &entries[i].1;
        assert(entry_view(entries@[i as int]) == e[i as int]);
        let key_fits = key.len() <= 0xFFFF_FFFFusize;
        let value_fits = match value {
            Some(v) => v.len() <= MAX_VALUE_LEN as usize,
            None => true,
        };
        if !key_fits || !value_fits {
            assert(key@ == e[i as int].0);
            assert(slot_view(*value) == e[i as int].1);
            assert(!entry_fits(e[i as int].0, e[i as int].1));
            return None;
        }
        write_entry(&mut out, key.as_slice(), value);
        proof {
            assert(e.take(i + 1) =~= e.take(i as int).push(e[i as int]));
            lemma_table_bytes_push(e.take(i as int), e[i as int]);
        }
        i = i + 1;
    }
    assert(e.take(i as int) =~= e);
    Some(out)
}

/// Scans file bytes for `key`: `Ok(None)` when no entry has it,
/// `Ok(Some(None))` for a tombstone, `Ok(Some(Some(v)))` for a value.
pub fn find_entry(file: &[u8], key: &[u8]) -> (r: Result<Option<Option<Vec<u8>>>, DecodeError>)
    ensures
        match (r, find_in(file@, key@)) {
            (Ok(None), Ok(None)) => true,
            (Ok(Some(s)), Ok(Some(ss))) => slot_view(s) == ss,
            (Err(e), Err(se)) => e == se,
            _ => false,
        },
{
    let ghost s = file@;
    let mut pos: usize = 0;
    assert(s.skip(0) =~= s);
    while pos < file.len()
        invariant
            s == file@,
            pos <= s.len(),
            find_in(s, key@) == find_in(s.skip(pos as int), key@),
        decreases s.len() - pos,
    {
        let ghost t = s.skip(pos as int);
        let avail = file.len() - pos;
        if avail < 4 {
            return Err(DecodeError::Truncated);
        }
        let kl = read_u32_le(file, pos) as usize;
        assert(t.subrange(0, 4) =~= s.subrange(pos as int, pos + 4));
        if avail - 4 < kl || avail - 4 - kl < 4 {
            return Err(DecodeError::Truncated);
        }
        let f = read_u32_le(file, pos + 4 + kl);
        assert(t.subrange(4 + kl as int, 8 + kl as int) =~= s.subrange(
            pos + 4 + kl,
            pos + 8 + kl,
        ));
        let k = copy_range(file, pos + 4, pos + 4 + kl);
        assert(t.subrange(4, 4 + kl as int) =~= k@);
        let is_match = compare_keys(k.as_slice(), key) == 0;
        if f == TOMBSTONE_LEN {
            if is_match {
                return Ok(Some(None));
            }
            assert(t.skip(8 + kl as int) =~= s.skip(pos + 8 + kl));
            pos = pos + 8 + kl;
        } else {
            if f > MAX_VALUE_LEN {
                return Err(DecodeError::BadValueLength);
            }
            let vl = f as usize;
            if avail - 8 - kl < vl {
                return Err(DecodeError::Truncated);
            }
            if is_match {
                let v = copy_range(file, pos + 8 + kl, pos + 8 + kl + vl);
                assert(t.subrange(8 + kl as int, 8 + kl + vl as int) =~= v@);
                return Ok(Some(Some(v)));
            }
            assert(t.skip(8 + kl + vl as int) =~= s.skip(pos + 8 + kl + vl));
            pos = pos + 8 + kl + vl;
        }
    }
    assert(s.skip(pos as int) =~= Seq::<u8>::empty());
    Ok(None)
}

} // verus!
