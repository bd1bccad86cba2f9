//! The in-memory sorted table: keys unique and ascending in byte order, each
//! holding a slot that is either a value or a tombstone.
use vstd::prelude::*;
use crate::record::{DecodeError, decode_record, parse_record};

verus! {

/// Byte-lexicographic order, compared from position `i` on.
pub open spec fn lex_lt_from(a: Seq<u8>, b: Seq<u8>, i: nat) -> bool
    decreases a.len() - i,
{
    if i >= b.len() {
        false
    } else if i >= a.len() {
        true
    } else if a[i as int] < b[i as int] {
        true
    } else if a[i as int] > b[i as int] {
        false
    } else {
        lex_lt_from(a, b, i + 1)
    }
}

/// `a` comes strictly before `b` in byte-lexicographic order
/// (a proper prefix comes first).
pub open spec fn lex_lt(a: Seq<u8>, b: Seq<u8>) -> bool {
    lex_lt_from(a, b, 0)
}

proof fn lemma_lex_irreflexive_from(a: Seq<u8>, i: nat)
    ensures
        !lex_lt_from(a, a, i),
    decreases a.len() - i,
{
    if i < a.len() {
        lemma_lex_irreflexive_from(a, i + 1);
    }
}

proof fn lemma_lex_total_from(a: Seq<u8>, b: Seq<u8>, i: nat)
    requires
        i <= a.len(),
        i <= b.len(),
        forall|j: int| 0 <= j < i ==> a[j] == b[j],
        !lex_lt_from(a, b, i),
        !lex_lt_from(b, a, i),
    ensures
        a == b,
    decreases a.len() - i,
{
    if i < a.len() && i < b.len() {
        lemma_lex_total_from(a, b, i + 1);
    } else {
        assert(a =~= b);
    }
}

proof fn lemma_lex_trans_from(a: Seq<u8>, b: Seq<u8>, c: Seq<u8>, i: nat)
    requires
        lex_lt_from(a, b, i),
        lex_lt_from(b, c, i),
    ensures
        lex_lt_from(a, c, i),
    decreases a.len() - i,
{
    if i < a.len() && i < b.len() && i < c.len() && a[i as int] == b[i as int] && b[i as int]
        == c[i as int] {
        lemma_lex_trans_from(a, b, c, i + 1);
    }
}

/// The byte order is a strict total order.
pub proof fn lemma_lex_order()
    ensures
        forall|a: Seq<u8>| !#[trigger] lex_lt(a, a),
        forall|a: Seq<u8>, b: Seq<u8>|
            a != b ==> #[trigger] lex_lt(a, b) || #[trigger] lex_lt(b, a),
        forall|a: Seq<u8>, b: Seq<u8>, c: Seq<u8>|
            #[trigger] lex_lt(a, b) && #[trigger] lex_lt(b, c) ==> lex_lt(a, c),
{
    assert forall|a: Seq<u8>| !#[trigger] lex_lt(a, a) by {
        lemma_lex_irreflexive_from(a, 0);
    }
    assert forall|a: Seq<u8>, b: Seq<u8>|
        a != b implies #[trigger] lex_lt(a, b) || #[trigger] lex_lt(b, a) by {
        if !lex_lt(a, b) && !lex_lt(b, a) {
            lemma_lex_total_from(a, b, 0);
        }
    }
    assert forall|a: Seq<u8>, b: Seq<u8>, c: Seq<u8>|
        #[trigger] lex_lt(a, b) && #[trigger] lex_lt(b, c) implies lex_lt(a, c) by {
        lemma_lex_trans_from(a, b, c, 0);
    }
}

/// Compares two byte strings: negative, zero or positive as `a` comes
/// before, equals, or comes after `b`.
pub fn compare_keys(a: &[u8], b: &[u8]) -> (r: i8)
    ensures
        (r < 0) == lex_lt(a@, b@),
        (r == 0) == (a@ == b@),
        (r > 0) == lex_lt(b@, a@),
{
    proof {
        lemma_lex_order();
    }
    let mut i: usize = 0;
    while i < a.len() && i < b.len()
        invariant
            i <= a@.len(),
            i <= b@.len(),
            forall|j: int| 0 <= j < i ==> a@[j] == b@[j],
            lex_lt(a@, b@) == lex_lt_from(a@, b@, i as nat),
            lex_lt(b@, a@) == lex_lt_from(b@, a@, i as nat),
        decreases a@.len() - i,
    {
        if a[i] < b[i] {
            return -1;
        }
        if a[i] > b[i] {
            return 1;
        }
        i = i + 1;
    }
    if a.len() == b.len() {
        assert(a@ =~= b@);
        0
    } else if i == a.len() {
        -1
    } else {
        1
    }
}

/// The view of a stored slot.
pub open spec fn slot_view(s: Option<Vec<u8>>) -> Option<Seq<u8>> {
    match s {
        Some(v) => Some(v@),
        None => None,
    }
}

/// The view of one stored entry.
pub open spec fn entry_view(e: (Vec<u8>, Option<Vec<u8>>)) -> (Seq<u8>, Option<Seq<u8>>) {
    (e.0@, slot_view(e.1))
}

/// Keys strictly ascending, hence unique.
pub open spec fn sorted_keys(e: Seq<(Seq<u8>, Option<Seq<u8>>)>) -> bool {
    forall|i: int, j: int| 0 <= i < j < e.len() ==> lex_lt(#[trigger] e[i].0, #[trigger] e[j].0)
}

/// The map that a sequence of entries with unique keys describes.
pub open spec fn describes(
    e: Seq<(Seq<u8>, Option<Seq<u8>>)>,
    m: Map<Seq<u8>, Option<Seq<u8>>>,
) -> bool {
    &&& forall|i: int|
        0 <= i < e.len() ==> m.contains_key(#[trigger] e[i].0) && m[e[i].0] == e[i].1
    &&& forall|k: Seq<u8>| #[trigger]
        m.contains_key(k) ==> exists|i: int| 0 <= i < e.len() && e[i].0 == k
}

/// Sorted entries that describe a map hold exactly one entry per key.
pub proof fn lemma_entry_count(e: Seq<(Seq<u8>, Option<Seq<u8>>)>, m: Map<Seq<u8>, Option<Seq<u8>>>)
    requires
        sorted_keys(e),
        describes(e, m),
    ensures
        m.dom().finite(),
        m.dom().len() == e.len(),
{
    lemma_lex_order();
    let keys = e.map_values(|x: (Seq<u8>, Option<Seq<u8>>)| x.0);
    assert forall|i: int, j: int| 0 <= i < keys.len() && 0 <= j < keys.len() && i != j implies keys[i]
        != keys[j] by {
        if i < j {
            assert(lex_lt(e[i].0, e[j].0));
        } else {
            assert(lex_lt(e[j].0, e[i].0));
        }
    }
    assert(keys.no_duplicates());
    keys.unique_seq_to_set();
    assert forall|k: Seq<u8>| m.dom().contains(k) <==> keys.to_set().contains(k) by {
        if m.dom().contains(k) {
            let i = choose|i: int| 0 <= i < e.len() && e[i].0 == k;
            assert(keys[i] == k);
        }
        if keys.to_set().contains(k) {
            let i = choose|i: int| 0 <= i < keys.len() && keys[i] == k;
            assert(m.contains_key(e[i].0));
        }
    }
    assert(m.dom() =~= keys.to_set());
    vstd::seq_lib::seq_to_set_is_finite(keys);
}

/// The sorted table. Its view maps each key touched since the table was
/// created or cleared to its slot: `Some(value)`, or `None` for a tombstone.
pub struct MemTable {
    entries: Vec<(Vec<u8>, Option<Vec<u8>>)>,
    contents: Ghost<Map<Seq<u8>, Option<Seq<u8>>>>,
}

impl View for MemTable {
    type V = Map<Seq<u8>, Option<Seq<u8>>>;

    closed spec fn view(&self) -> Self::V {
        self.contents@
    }
}

impl MemTable {
    /// The entries in storage order, which is ascending key order.
    pub closed spec fn entries(&self) -> Seq<(Seq<u8>, Option<Seq<u8>>)> {
        self.entries@.map_values(|e: (Vec<u8>, Option<Vec<u8>>)| entry_view(e))
    }

    /// The entries are sorted by key and describe the view.
    pub open spec fn wf(&self) -> bool {
        &&& sorted_keys(self.entries())
        &&& describes(self.entries(), self@)
    }

    /// An empty table.
    pub fn new() -> (r: MemTable)
        ensures
            r.wf(),
            r@ == Map::<Seq<u8>, Option<Seq<u8>>>::empty(),
            r.entries().len() == 0,
    {
        MemTable { entries: Vec::new(), contents: Ghost(Map::empty()) }
    }

    /// The entries in ascending key order.
    pub fn iter(&self) -> (r: &Vec<(Vec<u8>, Option<Vec<u8>>)>)
        ensures
            r@.map_values(|e: (Vec<u8>, Option<Vec<u8>>)| entry_view(e)) == self.entries(),
    {
        &self.entries
    }

    /// The number of keys held, tombstones included.
    pub fn len(&self) -> (r: usize)
        requires
            self.wf(),
        ensures
            r == self.entries().len(),
            r == self@.dom().len(),
    {
        proof {
            lemma_entry_count(self.entries(), self@);
        }
        self.entries.len()
    }

    /// Forgets every key.
    pub fn clear(&mut self)
        ensures
            final(self).wf(),
            final(self)@ == Map::<Seq<u8>, Option<Seq<u8>>>::empty(),
            final(self).entries().len() == 0,
    {
        self.entries.clear();
        self.contents = Ghost(Map::empty());
        assert(self.entries() =~= Seq::<(Seq<u8>, Option<Seq<u8>>)>::empty());
    }

    /// Sets the slot of `key`, overwriting any earlier one, keeping the order.
    fn set_slot(&mut self, key: Vec<u8>, slot: Option<Vec<u8>>)
        requires
            old(self).wf(),
        ensures
            final(self).wf(),
            final(self)@ == old(self)@.insert(key@, slot_view(slot)),
    {
        proof {
            lemma_lex_order();
        }
        let ghost e = self.entries();
        let ghost k = key@;
        let mut i: usize = 0;
        loop
            invariant
                self.wf(),
                e == self.entries(),
                k == key@,
                i <= e.len(),
                forall|j: int| 0 <= j < i ==> lex_lt(#[trigger] e[j].0, k),
            ensures
                i <= e.len(),
                forall|j: int| 0 <= j < i ==> lex_lt(#[trigger] e[j].0, k),
                i < e.len() ==> !lex_lt(e[i as int].0, k),
            decreases e.len() - i,
        {
            if i >= self.entries.len() {
                break;
            }
            assert(entry_view(self.entries@[i as int]) == e[i as int]);
            let stored = self.entries[i].0.as_slice();
            let wanted = key.as_slice();
            assert(stored@ == e[i as int].0);
            assert(wanted@ == k);
            let c = compare_keys(stored, wanted);
            assert((c < 0) == lex_lt(e[i as int].0, k));
            if c >= 0 {
                break;
            }
            i = i + 1;
        }
        let ghost new_entry = (k, slot_view(slot));
        let ghost m = self.contents@.insert(k, slot_view(slot));
        let mut same = false;
        if i < self.entries.len() {
            assert(entry_view(self.entries@[i as int]) == e[i as int]);
            same = compare_keys(self.entries[i].0.as_slice(), key.as_slice()) == 0;
        }
        assert(same == (i < e.len() && e[i as int].0 == k));
        if same {
            self.entries.set(i, (key, slot));
            self.contents = Ghost(m);
            let ghost e2 = self.entries();
            assert(e2 =~= e.update(i as int, new_entry));
            assert forall|k2: Seq<u8>| #[trigger] m.contains_key(k2) implies exists|p: int|
                0 <= p < e2.len() && e2[p].0 == k2 by {
                if k2 != k {
                    let p = choose|p: int| 0 <= p < e.len() && e[p].0 == k2;
                    assert(e2[p].0 == k2);
                } else {
                    assert(e2[i as int].0 == k2);
                }
            }
        } else {
            proof {
                if i < e.len() {
                    assert(entry_view(self.entries@[i as int]) == e[i as int]);
                    assert(lex_lt(k, e[i as int].0));
                }
            }
            self.entries.insert(i, (key, slot));
            self.contents = Ghost(m);
            let ghost e2 = self.entries();
            assert(e2 =~= e.insert(i as int, new_entry));
            assert forall|p: int, q: int| 0 <= p < q < e2.len() implies lex_lt(
                #[trigger] e2[p].0,
                #[trigger] e2[q].0,
            ) by {
                if q < i {
                } else if q == i {
                } else if p < i {
                    assert(lex_lt(e[p].0, k));
                    if i < e.len() {
                        assert(lex_lt(k, e[q - 1].0) || q - 1 == i);
                    }
                } else if p == i {
                    assert(i < e.len());
                    assert(q - 1 == i || lex_lt(e[i as int].0, e[q - 1].0));
                } else {
                }
            }
            assert forall|p: int| 0 <= p < e2.len() implies m.contains_key(#[trigger] e2[p].0)
                && m[e2[p].0] == e2[p].1 by {
                if p < i {
                    assert(e2[p] == e[p]);
                    assert(lex_lt(e[p].0, k));
                } else if p > i {
                    assert(e2[p] == e[p - 1]);
                    assert(lex_lt(k, e[i as int].0));
                    assert(p - 1 == i || lex_lt(e[i as int].0, e[p - 1].0));
                }
            }
            assert forall|k2: Seq<u8>| #[trigger] m.contains_key(k2) implies exists|p: int|
                0 <= p < e2.len() && e2[p].0 == k2 by {
                if k2 != k {
                    let p = choose|p: int| 0 <= p < e.len() && e[p].0 == k2;
                    if p < i {
                        assert(e2[p].0 == k2);
                    } else {
                        assert(e2[p + 1].0 == k2);
                    }
                } else {
                    assert(e2[i as int].0 == k2);
                }
            }
        }
    }

    /// Sets `key` to hold `value`, overwriting any earlier slot.
    pub fn put(&mut self, key: Vec<u8>, value: Vec<u8>)
        requires
            old(self).wf(),
        ensures
            final(self).wf(),
            final(self)@ == old(self)@.insert(key@, Some(value@)),
    {
        self.set_slot(key, Some(value));
    }

    /// The slot of `key`: `None` when the key was never touched here,
    /// `Some(None)` for a tombstone, `Some(Some(v))` for a value.
    pub fn get(&self, key: &[u8]) -> (r: Option<&Option<Vec<u8>>>)
        requires
            self.wf(),
        ensures
            match r {
                None => !self@.contains_key(key@),
                Some(s) => self@.contains_key(key@) && slot_view(*s) == self@[key@],
            },
    {
        let ghost e = self.entries();
        let mut i: usize = 0;
        while i < self.entries.len()
            invariant
                self.wf(),
                e == self.entries(),
                i <= e.len(),
                forall|j: int| 0 <= j < i ==> #[trigger] e[j].0 != key@,
            decreases e.len() - i,
        {
            assert(entry_view(self.entries@[i as int]) == e[i as int]);
            let c = compare_keys(self.entries[i].0.as_slice(), key);
            assert(c == 0 ==> self.entries@[i as int].0@ == key@);
            assert(c == 0 ==> e[i as int].0 == key@);
            if c == 0 {
                assert(self@.contains_key(key@));
                return Some(&self.entries[i].1);
            }
            i = i + 1;
        }
        None
    }

    /// Marks `key` deleted: it keeps a tombstone, so that older layers are
    /// not consulted for it.
    pub fn delete(&mut self, key: Vec<u8>)
        requires
            old(self).wf(),
        ensures
            final(self).wf(),
            final(self)@ == old(self)@.insert(key@, None),
    {
        self.set_slot(key, None);
    }

    /// Decodes one record and applies the mutation it holds. On an error
    /// the table is left as it was.
    pub fn apply(&mut self, record: &[u8]) -> (r: Result<(), DecodeError>)
        requires
            old(self).wf(),
        ensures
            final(self).wf(),
            match parse_record(record@) {
                Ok((k, slot)) => r is Ok && final(self)@ == old(self)@.insert(k, slot),
                Err(e) => r == Err::<(), DecodeError>(e) && final(self)@ == old(self)@,
            },
    {
        match decode_record(record) {
            Ok((key, Some(value))) => {
                self.put(key, value);
                Ok(())
            },
            Ok((key, None)) => {
                self.delete(key);
                Ok(())
            },
            Err(e) => Err(e),
        }
    }
}

} // verus!
