//! The engine's decisions: applying logged mutations to the sorted table,
//! when to flush, what a flush writes, how reads walk the layers, and how the
//! next immutable-file id is recovered. Reading and writing files is left to
//! the caller, which hands the results in as bytes.
use vstd::prelude::*;
use crate::record::{delete_record, mutation_record};
use crate::recovery::{lemma_durable_mutation, recovered};
use crate::wal::frame;
use crate::memtable::{MemTable, slot_view, sorted_keys, describes};
use crate::sstable::{encode_table, entry_fits, find_entry, find_in, first_slot, table_bytes,
    lemma_find_in_table, lemma_first_slot_describes};

verus! {

/// The sorted table is flushed once it holds this many keys.
pub const MEMTABLE_MAX_ENTRIES: usize = 1000;

/// A read over immutable files given newest first: the first file whose
/// scan finds the key decides (a tombstone there means not found); a file
/// that cannot be scanned is passed over.
pub open spec fn files_get(files: Seq<Seq<u8>>, key: Seq<u8>) -> Option<Seq<u8>>
    decreases files.len(),
{
    if files.len() == 0 {
        None
    } else {
        match find_in(files[0], key) {
            Ok(Some(slot)) => slot,
            _ => files_get(files.drop_first(), key),
        }
    }
}

/// A read over the sorted table and then the immutable files: a slot in
/// the table decides, a tombstone included.
pub open spec fn layered_get(
    table: Map<Seq<u8>, Option<Seq<u8>>>,
    files: Seq<Seq<u8>>,
    key: Seq<u8>,
) -> Option<Seq<u8>> {
    if table.contains_key(key) {
        table[key]
    } else {
        files_get(files, key)
    }
}

/// The in-memory state of the store: the sorted table and the id that the
/// next immutable file gets.
pub struct Engine {
    pub memtable: MemTable,
    pub next_sstable_id: u64,
}

impl Engine {
    /// A store over a recovered table, whose next immutable file gets
    /// `next_sstable_id`.
    pub fn new(memtable: MemTable, next_sstable_id: u64) -> (r: Engine)
        requires
            memtable.wf(),
        ensures
            r.memtable.wf(),
            r.memtable@ == memtable@,
            r.memtable.entries() == memtable.entries(),
            r.next_sstable_id == next_sstable_id,
    {
        Engine { memtable, next_sstable_id }
    }

    /// Applies a put whose record is already durable in the log. Returns
    /// whether the table has reached the flush threshold.
    pub fn put(&mut self, key: Vec<u8>, value: Vec<u8>) -> (flush_due: bool)
        requires
            old(self).memtable.wf(),
        ensures
            final(self).memtable.wf(),
            final(self).memtable@ == old(self).memtable@.insert(key@, Some(value@)),
            final(self).next_sstable_id == old(self).next_sstable_id,
            flush_due == (final(self).memtable.entries().len() >= MEMTABLE_MAX_ENTRIES),
    {
        self.memtable.put(key, value);
        self.memtable.len() >= MEMTABLE_MAX_ENTRIES
    }

    /// Applies a delete whose record is already durable in the log. Returns
    /// whether the table has reached the flush threshold.
    pub fn delete(&mut self, key: Vec<u8>) -> (flush_due: bool)
        requires
            old(self).memtable.wf(),
        ensures
            final(self).memtable.wf(),
            final(self).memtable@ == old(self).memtable@.insert(key@, None),
            final(self).next_sstable_id == old(self).next_sstable_id,
            flush_due == (final(self).memtable.entries().len() >= MEMTABLE_MAX_ENTRIES),
    {
        self.memtable.delete(key);
        self.memtable.len() >= MEMTABLE_MAX_ENTRIES
    }

    /// The bytes of the immutable file that a flush writes, or `None` when
    /// some entry is too long for the file format.
    pub fn flush_image(&self) -> (r: Option<Vec<u8>>)
        requires
            self.memtable.wf(),
        ensures
            match r {
                Some(b) => b@ == table_bytes(self.memtable.entries()) && forall|i: int|
                    0 <= i < self.memtable.entries().len() ==> entry_fits(
                        #[trigger] self.memtable.entries()[i].0,
                        self.memtable.entries()[i].1,
                    ),
                None => exists|i: int|
                    0 <= i < self.memtable.entries().len() && !entry_fits(
                        #[trigger] self.memtable.entries()[i].0,
                        self.memtable.entries()[i].1,
                    ),
            },
    {
        encode_table(&self.memtable)
    }

    /// Records that the flushed file has been written under
    /// `next_sstable_id`: the table is cleared and the id moves on.
    pub fn flushed(&mut self)
        requires
            old(self).next_sstable_id < u64::MAX,
        ensures
            final(self).memtable.wf(),
            final(self).memtable@ == Map::<Seq<u8>, Option<Seq<u8>>>::empty(),
            final(self).memtable.entries().len() == 0,
            final(self).next_sstable_id == old(self).next_sstable_id + 1,
    {
        self.memtable.clear();
        self.next_sstable_id = self.next_sstable_id + 1;
    }

    /// Reads `key`: from the sorted table if it holds a slot for it, else
    /// from the immutable files, given newest first.
    pub fn get(&self, key: &[u8], files: &Vec<Vec<u8>>) -> (r: Option<Vec<u8>>)
        requires
            self.memtable.wf(),
        ensures
            slot_view(r) == layered_get(
                self.memtable@,
                files@.map_values(|f: Vec<u8>| f@),
                key@,
            ),
    {
        match self.memtable.get(key) {
            Some(Some(v)) => return Some(v.clone()),
            Some(None) => return None,
            None => {},
        }
        let ghost fs = files@.map_values(|f: Vec<u8>| f@);
        let mut i: usize = 0;
        assert(fs.skip(0) =~= fs);
        while i < files.len()
            invariant
                fs == files@.map_values(|f: Vec<u8>| f@),
                !self.memtable@.contains_key(key@),
                i <= fs.len(),
                files_get(fs, key@) == files_get(fs.skip(i as int), key@),
            decreases fs.len() - i,
        {
            assert(fs.skip(i as int)[0] == files@[i as int]@);
            assert(fs.skip(i as int).drop_first() =~= fs.skip(i + 1));
            match find_entry(files[i].as_slice(), key) {
                Ok(Some(slot)) => return slot,
                _ => {},
            }
            i = i + 1;
        }
        assert(fs.skip(i as int).len() == 0);
        None
    }
}

/// A key written with `v2` in the sorted table is read as `v2`, whatever
/// the immutable files hold for it.
pub proof fn lemma_layer_precedence(
    table: Map<Seq<u8>, Option<Seq<u8>>>,
    files: Seq<Seq<u8>>,
    key: Seq<u8>,
    v2: Seq<u8>,
)
    ensures
        layered_get(table.insert(key, Some(v2)), files, key) == Some(v2),
{
}

/// A tombstone in the sorted table hides every immutable file.
pub proof fn lemma_tombstone_hides_files(
    table: Map<Seq<u8>, Option<Seq<u8>>>,
    files: Seq<Seq<u8>>,
    key: Seq<u8>,
)
    ensures
        layered_get(table.insert(key, None), files, key) == None::<Seq<u8>>,
{
}

/// Flushing changes no read: the file a flush writes, put in front of the
/// older files, answers every key as the sorted table did.
pub proof fn lemma_flush_preserves_reads(
    entries: Seq<(Seq<u8>, Option<Seq<u8>>)>,
    table: Map<Seq<u8>, Option<Seq<u8>>>,
    files: Seq<Seq<u8>>,
    key: Seq<u8>,
)
    requires
        sorted_keys(entries),
        describes(entries, table),
        forall|i: int| 0 <= i < entries.len() ==> entry_fits(#[trigger] entries[i].0, entries[i].1),
    ensures
        layered_get(Map::empty(), seq![table_bytes(entries)] + files, key) == layered_get(
            table,
            files,
            key,
        ),
{
    lemma_find_in_table(entries, key);
    lemma_first_slot_describes(entries, table, key);
    let all = seq![table_bytes(entries)] + files;
    assert(all[0] == table_bytes(entries));
    assert(all.drop_first() =~= files);
}

/// After a delete reaches the log, a restart reads the key as not found,
/// whatever the immutable files hold for it.
pub proof fn lemma_tombstone_after_restart(log: Seq<u8>, key: Seq<u8>, files: Seq<Seq<u8>>)
    requires
        recovered(log) is Ok,
        key.len() + 5 <= u32::MAX,
    ensures
        recovered(log + frame(delete_record(key))) matches Ok(table) && layered_get(
            table,
            files,
            key,
        ) == None::<Seq<u8>>,
{
    lemma_durable_mutation(log, key, None);
    assert(mutation_record(key, None) == delete_record(key));
}

/// An ASCII decimal digit.
pub open spec fn is_digit(b: u8) -> bool {
    48 <= b <= 57
}

/// The number that a string of decimal digits spells.
pub open spec fn digits_value(s: Seq<u8>) -> nat
    decreases s.len(),
{
    if s.len() == 0 {
        0
    } else {
        digits_value(s.drop_last()) * 10 + (s.last() - 48) as nat
    }
}

/// The id that an immutable file's name (without extension) stands for:
/// a non-empty run of decimal digits whose value fits 64 bits.
pub open spec fn file_id_of(stem: Seq<u8>) -> Option<u64> {
    if stem.len() > 0 && (forall|i: int| 0 <= i < stem.len() ==> is_digit(#[trigger] stem[i]))
        && digits_value(stem) <= u64::MAX {
        Some(digits_value(stem) as u64)
    } else {
        None
    }
}

proof fn lemma_digits_value_grows(s: Seq<u8>, i: int)
    requires
        0 <= i <= s.len(),
        forall|j: int| 0 <= j < s.len() ==> is_digit(#[trigger] s[j]),
    ensures
        digits_value(s.take(i)) <= digits_value(s),
    decreases s.len(),
{
    if i < s.len() {
        assert(s.drop_last().take(i) =~= s.take(i));
        assert forall|j: int| 0 <= j < s.drop_last().len() implies is_digit(
            #[trigger] s.drop_last()[j],
        ) by {
            assert(s.drop_last()[j] == s[j]);
        }
        lemma_digits_value_grows(s.drop_last(), i);
    } else {
        assert(s.take(i) =~= s);
    }
}

/// Parses an immutable file's name (without extension) into its id.
pub fn parse_file_id(stem: &[u8]) -> (r: Option<u64>)
    ensures
        r == file_id_of(stem@),
{
    let ghost s = stem@;
    if stem.len() == 0 {
        return None;
    }
    let mut acc: u64 = 0;
    let mut i: usize = 0;
    assert(s.take(0) =~= Seq::<u8>::empty());
    while i < stem.len()
        invariant
            s == stem@,
            i <= s.len(),
            acc as nat == digits_value(s.take(i as int)),
            forall|j: int| 0 <= j < i ==> is_digit(#[trigger] s[j]),
        decreases s.len() - i,
    {
        let b = stem[i];
        if b < 48 || b > 57 {
            assert(!is_digit(s[i as int]));
            return None;
        }
        let d = (b - 48) as u64;
        assert(s.take(i + 1).drop_last() =~= s.take(i as int));
        assert(s.take(i + 1).last() == b);
        if acc > (u64::MAX - d) / 10 {
            proof {
                assert(acc * 10 + d > u64::MAX) by (nonlinear_arith)
                    requires
                        acc > (u64::MAX - d) / 10,
                        d <= 9,
                ;
                if forall|j: int| 0 <= j < s.len() ==> is_digit(#[trigger] s[j]) {
                    lemma_digits_value_grows(s, i + 1);
                }
            }
            return None;
        }
        assert(acc * 10 + d <= u64::MAX) by (nonlinear_arith)
            requires
                acc <= (u64::MAX - d) / 10,
                d <= 9,
        ;
        acc = acc * 10 + d;
        i = i + 1;
    }
    assert(s.take(i as int) =~= s);
    Some(acc)
}

/// The id for the next immutable file, one past the largest id among the
/// existing file names; `None` when some name already holds the largest
/// possible id, so that no unused id is left.
pub fn next_file_id(stems: &Vec<Vec<u8>>) -> (r: Option<u64>)
    ensures
        match r {
            Some(n) => {
                &&& forall|i: int|
                    0 <= i < stems@.len() ==> (#[trigger] file_id_of(stems@[i]@) matches Some(
                        id,
                    ) ==> id < n)
                &&& n == 0 || exists|i: int|
                    0 <= i < stems@.len() && file_id_of(stems@[i]@) == Some((n - 1) as u64)
            },
            None => exists|i: int|
                0 <= i < stems@.len() && file_id_of(stems@[i]@) == Some(u64::MAX),
        },
{
    let mut next: u64 = 0;
    let mut i: usize = 0;
    while i < stems.len()
        invariant
            i <= stems@.len(),
            forall|j: int|
                0 <= j < i ==> (#[trigger] file_id_of(stems@[j]@) matches Some(id) ==> id < next),
            next == 0 || exists|j: int|
                0 <= j < i && file_id_of(stems@[j]@) == Some((next - 1) as u64),
        decreases stems@.len() - i,
    {
        match parse_file_id(stems[i].as_slice()) {
            Some(id) => {
                if id == u64::MAX {
                    return None;
                }
                if id >= next {
                    next = id + 1;
                }
            },
            None => {},
        }
        i = i + 1;
    }
    Some(next)
}

} // verus!
