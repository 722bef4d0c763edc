//! Ledger stores: an in-memory store with the capabilities that every
//! backing store offers (delete a batch of keys, insert or overwrite one
//! entry, scan everything), and the statements for the relational store,
//! which keeps the ledger in a table `results` with the columns `key` and
//! `encoded`.

use crate::key::push_char;
use crate::ledger::{apply_update, insert_all, keys_view, StoreEntry, StoreModel, TxUpdate};
use vstd::prelude::*;
use vstd::string::StringExecFns;

verus! {

/// `DELETE FROM results WHERE key IN (`
pub open spec fn delete_prefix() -> Seq<char> {
    seq!['D', 'E', 'L', 'E', 'T', 'E', ' ', 'F', 'R', 'O', 'M', ' ', 'r', 'e', 's', 'u', 'l', 't',
    's', ' ', 'W', 'H', 'E', 'R', 'E', ' ', 'k', 'e', 'y', ' ', 'I', 'N', ' ', '(']
}

/// A key as a quoted SQL literal.
pub open spec fn quoted(k: Seq<char>) -> Seq<char> {
    seq!['\''] + k + seq!['\'']
}

/// The quoted keys, separated by `, `.
pub open spec fn quoted_list(keys: Seq<Seq<char>>) -> Seq<char>
    decreases keys.len(),
{
    if keys.len() == 0 {
        seq![]
    } else if keys.len() == 1 {
        quoted(keys[0])
    } else {
        quoted_list(keys.drop_last()) + seq![',', ' '] + quoted(keys.last())
    }
}

/// The statement that deletes every key of `keys` in one go, or none for an
/// empty batch, which deletes nothing.
pub open spec fn batch_delete_spec(keys: Seq<Seq<char>>) -> Option<Seq<char>> {
    if keys.len() == 0 {
        None
    } else {
        Some(delete_prefix() + quoted_list(keys) + seq![')', ';'])
    }
}

fn push_quoted(s: &mut String, k: &String)
    ensures
        final(s)@ == old(s)@ + quoted(k@),
{
    push_char(s, '\'');
    s.append(k.as_str());
    push_char(s, '\'');
    assert(s@ =~= old(s)@ + quoted(k@));
}

/// Builds the statement that deletes a batch of keys, one per spent output.
/// Ledger keys hold hexadecimal and decimal digits only, so each stands
/// between quotes as it is.
pub fn batch_delete_statement(keys: &Vec<String>) -> (r: Option<String>)
    ensures
        match r {
            Some(s) => batch_delete_spec(keys@.map_values(|k: String| k@)) == Some(s@),
            None => batch_delete_spec(keys@.map_values(|k: String| k@)) is None,
        },
{
    let ghost ks = keys@.map_values(|k: String| k@);
    if keys.len() == 0 {
        return None;
    }
    let mut s = String::new();
    let prefix = [
        'D', 'E', 'L', 'E', 'T', 'E', ' ', 'F', 'R', 'O', 'M', ' ', 'r', 'e', 's', 'u', 'l', 't',
        's', ' ', 'W', 'H', 'E', 'R', 'E', ' ', 'k', 'e', 'y', ' ', 'I', 'N', ' ', '(',
    ];
    let mut p: usize = 0;
    while p < prefix.len()
        invariant
            p <= prefix@.len(),
            s@ == prefix@.take(p as int),
        decreases prefix@.len() - p,
    {
        push_char(&mut s, prefix[p]);
        assert(prefix@.take(p + 1) =~= prefix@.take(p as int).push(prefix@[p as int]));
        p = p + 1;
    }
    assert(prefix@.take(p as int) =~= delete_prefix());
    push_quoted(&mut s, &keys[0]);
    assert(ks.take(1) =~= seq![ks[0]]);
    let mut i: usize = 1;
    while i < keys.len()
        invariant
            1 <= i <= keys@.len(),
            ks == keys@.map_values(|k: String| k@),
            s@ == delete_prefix() + quoted_list(ks.take(i as int)),
        decreases keys@.len() - i,
    {
        push_char(&mut s, ',');
        push_char(&mut s, ' ');
        push_quoted(&mut s, &keys[i]);
        assert(ks.take(i + 1).drop_last() =~= ks.take(i as int));
        assert(s@ =~= delete_prefix() + quoted_list(ks.take(i + 1)));
        i = i + 1;
    }
    assert(ks.take(i as int) =~= ks);
    push_char(&mut s, ')');
    push_char(&mut s, ';');
    assert(s@ =~= delete_prefix() + quoted_list(ks) + seq![')', ';']);
    Some(s)
}

/// The keys of a sequence of entries.
pub open spec fn entry_keys_of(s: Seq<StoreEntry>) -> Seq<Seq<char>> {
    s.map_values(|e: StoreEntry| e.key@)
}

proof fn lemma_push_to_set(s: Seq<Seq<char>>, x: Seq<char>)
    ensures
        s.push(x).to_set() == s.to_set().insert(x),
{
    let t = s.push(x);
    assert forall|y: Seq<char>| t.contains(y) implies s.contains(y) || y == x by {
        let j = choose|j: int| 0 <= j < t.len() && t[j] == y;
        if j < s.len() {
            assert(s[j] == y);
        }
    }
    assert forall|y: Seq<char>| s.contains(y) implies t.contains(y) by {
        let j = choose|j: int| 0 <= j < s.len() && s[j] == y;
        assert(t[j] == y);
    }
    assert(t[s.len() as int] == x);
    assert(t.to_set() =~= s.to_set().insert(x));
}

/// A ledger store held in memory, in insertion order.
pub struct MemoryStore {
    entries: Vec<StoreEntry>,
    model: Ghost<StoreModel>,
}

impl View for MemoryStore {
    type V = StoreModel;

    closed spec fn view(&self) -> StoreModel {
        self.model@
    }
}

impl MemoryStore {
    /// Keys are unique, and the model maps each key to its entry's bytes.
    pub closed spec fn wf(&self) -> bool {
        let ks = entry_keys_of(self.entries@);
        &&& ks.no_duplicates()
        &&& self.model@.dom() == ks.to_set()
        &&& forall|i: int|
            0 <= i < self.entries@.len() ==> #[trigger] self.model@[self.entries@[i].key@]
                == self.entries@[i].encoded@
    }

    proof fn lemma_len(&self)
        requires
            self.wf(),
        ensures
            self@.dom().finite(),
            self@.len() == self.entries@.len(),
    {
        let ks = entry_keys_of(self.entries@);
        ks.unique_seq_to_set();
    }

    /// An empty store.
    pub fn new() -> (r: Self)
        ensures
            r.wf(),
            r@ == Map::<Seq<char>, Seq<u8>>::empty(),
    {
        let r = MemoryStore { entries: Vec::new(), model: Ghost(Map::empty()) };
        assert(entry_keys_of(r.entries@).to_set() =~= Set::empty());
        r
    }

    /// Number of entries.
    pub fn len(&self) -> (r: usize)
        requires
            self.wf(),
        ensures
            r == self@.len(),
    {
        proof {
            self.lemma_len();
        }
        self.entries.len()
    }

    fn find(&self, key: &String) -> (r: Option<usize>)
        requires
            self.wf(),
        ensures
            match r {
                Some(i) => i < self.entries@.len() && self.entries@[i as int].key@ == key@,
                None => !self@.dom().contains(key@),
            },
    {
        let mut i: usize = 0;
        while i < self.entries.len()
            invariant
                i <= self.entries@.len(),
                forall|j: int| 0 <= j < i ==> self.entries@[j].key@ != key@,
            decreases self.entries@.len() - i,
        {
            if self.entries[i].key == *key {
                return Some(i);
            }
            i = i + 1;
        }
        proof {
            if self@.dom().contains(key@) {
                let ks = entry_keys_of(self.entries@);
                let j = choose|j: int| 0 <= j < ks.len() && ks[j] == key@;
                assert(self.entries@[j].key@ == key@);
            }
        }
        None
    }

    /// Inserts `encoded` under `key`, overwriting what was there.
    pub fn upsert(&mut self, key: String, encoded: Vec<u8>)
        requires
            old(self).wf(),
        ensures
            final(self).wf(),
            final(self)@ == old(self)@.insert(key@, encoded@),
    {
        let ghost k = key@;
        let ghost v = encoded@;
        let ghost old_entries = self.entries@;
        let ghost ks0 = entry_keys_of(old_entries);
        match self.find(&key) {
            Some(i) => {
                self.entries.set(i, StoreEntry { key, encoded });
                self.model = Ghost(self.model@.insert(k, v));
                proof {
                    let ks = entry_keys_of(self.entries@);
                    assert(ks =~= ks0);
                    assert(self.model@.dom() =~= ks.to_set()) by {
                        assert(ks0[i as int] == k);
                    }
                    assert forall|j: int| 0 <= j < self.entries@.len() implies #[trigger] self.model@[
                        self.entries@[j].key@] == self.entries@[j].encoded@ by {
                        if j != i {
                            assert(ks0[j] != ks0[i as int]);
                            assert(self.entries@[j] == old_entries[j]);
                        }
                    }
                }
            },
            None => {
                self.entries.push(StoreEntry { key, encoded });
                self.model = Ghost(self.model@.insert(k, v));
                proof {
                    let ks = entry_keys_of(self.entries@);
                    assert(ks =~= ks0.push(k));
                    assert(!ks0.contains(k));
                    assert(ks.no_duplicates()) by {
                        assert forall|a: int, b: int|
                            0 <= a < ks.len() && 0 <= b < ks.len() && a != b implies ks[a]
                            != ks[b] by {
                            if a < ks0.len() && b < ks0.len() {
                            } else if a < ks0.len() {
                                assert(ks0[a] == ks[a]);
                            } else {
                                assert(ks0[b] == ks[b]);
                            }
                        }
                    }
                    assert(self.model@.dom() =~= ks.to_set()) by {
                        assert(ks[ks.len() - 1] == k);
                        assert forall|x: Seq<char>| ks.contains(x) implies ks0.contains(x) || x == k by {
                            let j = choose|j: int| 0 <= j < ks.len() && ks[j] == x;
                            if j < ks0.len() {
                                assert(ks0[j] == x);
                            }
                        }
                        assert forall|x: Seq<char>| ks0.contains(x) implies ks.contains(x) by {
                            let j = choose|j: int| 0 <= j < ks0.len() && ks0[j] == x;
                            assert(ks[j] == x);
                        }
                    }
                    assert forall|j: int| 0 <= j < self.entries@.len() implies #[trigger] self.model@[
                        self.entries@[j].key@] == self.entries@[j].encoded@ by {
                        if j < old_entries.len() {
                            assert(self.entries@[j] == old_entries[j]);
                            assert(ks0[j] != k);
                        }
                    }
                }
            },
        }
    }

    /// Removes `key` if present; returns whether it was.
    fn delete_one(&mut self, key: &String) -> (r: bool)
        requires
            old(self).wf(),
        ensures
            final(self).wf(),
            final(self)@ == old(self)@.remove(key@),
            r == old(self)@.dom().contains(key@),
    {
        let ghost old_entries = self.entries@;
        let ghost ks0 = entry_keys_of(old_entries);
        match self.find(key) {
            None => {
                assert(self.model@.remove(key@) =~= self.model@);
                false
            },
            Some(i) => {
                let _removed = self.entries.remove(i);
                self.model = Ghost(self.model@.remove(key@));
                proof {
                    let ks = entry_keys_of(self.entries@);
                    assert(ks =~= ks0.remove(i as int));
                    assert(ks0[i as int] == key@);
                    assert(ks.no_duplicates()) by {
                        assert forall|a: int, b: int|
                            0 <= a < ks.len() && 0 <= b < ks.len() && a != b implies ks[a]
                            != ks[b] by {
                            let a0 = if a < i { a } else { a + 1 };
                            let b0 = if b < i { b } else { b + 1 };
                            assert(ks[a] == ks0[a0] && ks[b] == ks0[b0]);
                        }
                    }
                    assert(self.model@.dom() =~= ks.to_set()) by {
                        assert forall|x: Seq<char>| ks.contains(x) implies ks0.contains(x) && x != key@ by {
                            let j = choose|j: int| 0 <= j < ks.len() && ks[j] == x;
                            let j0 = if j < i { j } else { j + 1 };
                            assert(ks0[j0] == x);
                        }
                        assert forall|x: Seq<char>| ks0.contains(x) && x != key@ implies ks.contains(x) by {
                            let j = choose|j: int| 0 <= j < ks0.len() && ks0[j] == x;
                            assert(j != i);
                            if j < i {
                                assert(ks[j] == x);
                            } else {
                                assert(ks[j - 1] == x);
                            }
                        }
                    }
                    assert forall|j: int| 0 <= j < self.entries@.len() implies #[trigger] self.model@[
                        self.entries@[j].key@] == self.entries@[j].encoded@ by {
                        let j0 = if j < i { j } else { j + 1 };
                        assert(self.entries@[j] == old_entries[j0]);
                        assert(ks0[j0] != ks0[i as int]);
                    }
                }
                true
            },
        }
    }

    /// Deletes every key of `keys`, present or not; returns how many
    /// entries went. An empty batch changes nothing and deletes nothing.
    pub fn delete_many(&mut self, keys: &Vec<String>) -> (r: usize)
        requires
            old(self).wf(),
        ensures
            final(self).wf(),
            final(self)@ == old(self)@.remove_keys(keys_view(keys@).to_set()),
            r == old(self)@.len() - final(self)@.len(),
    {
        let ghost start = self@;
        let size = self.len();
        assert(start.len() == size);
        let mut count: usize = 0;
        let mut i: usize = 0;
        proof {
            self.lemma_len();
            assert(start.remove_keys(keys_view(keys@.take(0)).to_set()) =~= start);
        }
        while i < keys.len()
            invariant
                i <= keys@.len(),
                self.wf(),
                start.dom().finite(),
                start.len() <= usize::MAX,
                self@ == start.remove_keys(keys_view(keys@.take(i as int)).to_set()),
                count == start.len() - self@.len(),
            decreases keys@.len() - i,
        {
            proof {
                self.lemma_len();
            }
            let removed = self.delete_one(&keys[i]);
            proof {
                let a = keys_view(keys@.take(i as int)).to_set();
                let b = keys_view(keys@.take(i + 1)).to_set();
                assert(keys_view(keys@.take(i + 1)) =~= keys_view(keys@.take(i as int)).push(keys@[i as int]@));
                lemma_push_to_set(keys_view(keys@.take(i as int)), keys@[i as int]@);
                assert(b =~= a.insert(keys@[i as int]@));
                assert(self@ =~= start.remove_keys(b));
                self.lemma_len();
            }
            if removed {
                count = count + 1;
            }
            i = i + 1;
        }
        assert(keys@.take(i as int) =~= keys@);
        count
    }

    /// Applies one transaction's update: its deletions, then its insertions.
    pub fn apply(&mut self, update: &TxUpdate)
        requires
            old(self).wf(),
        ensures
            final(self).wf(),
            final(self)@ == apply_update(old(self)@, update@.0, update@.1),
    {
        self.delete_many(&update.deletes);
        let ghost mid = self@;
        let mut j: usize = 0;
        while j < update.inserts.len()
            invariant
                j <= update.inserts@.len(),
                self.wf(),
                self@ == insert_all(mid, update@.1.take(j as int)),
            decreases update.inserts@.len() - j,
        {
            let e = &update.inserts[j];
            self.upsert(e.key.clone(), e.encoded.clone());
            assert(update@.1.take(j + 1).drop_last() =~= update@.1.take(j as int));
            j = j + 1;
        }
        assert(update@.1.take(j as int) =~= update@.1);
    }

    /// Every entry, in the store's order.
    pub fn scan_all(&self) -> (r: Vec<StoreEntry>)
        requires
            self.wf(),
        ensures
            r@.len() == self@.len(),
            forall|i: int|
                0 <= i < r@.len() ==> #[trigger] self@.contains_key(r@[i].key@)
                    && self@[r@[i].key@] == r@[i].encoded@,
            entry_keys_of(r@).to_set() == self@.dom(),
            entry_keys_of(r@).no_duplicates(),
    {
        proof {
            self.lemma_len();
        }
        let mut out: Vec<StoreEntry> = Vec::new();
        let mut i: usize = 0;
        while i < self.entries.len()
            invariant
                self.wf(),
                i <= self.entries@.len(),
                out@.len() == i,
                forall|j: int| 0 <= j < i ==> #[trigger] out@[j]@ == self.entries@[j]@,
            decreases self.entries@.len() - i,
        {
            let e = &self.entries[i];
            out.push(StoreEntry { key: e.key.clone(), encoded: e.encoded.clone() });
            i = i + 1;
        }
        proof {
            assert forall|j: int| 0 <= j < out@.len() implies #[trigger] entry_keys_of(out@)[j]
                == entry_keys_of(self.entries@)[j] by {
                assert(out@[j]@ == self.entries@[j]@);
            }
            assert(entry_keys_of(out@) =~= entry_keys_of(self.entries@));
            assert forall|j: int| 0 <= j < out@.len() implies #[trigger] self@.contains_key(out@[j].key@)
                && self@[out@[j].key@] == out@[j].encoded@ by {
                assert(out@[j]@ == self.entries@[j]@);
                assert(entry_keys_of(self.entries@)[j] == self.entries@[j].key@);
            }
        }
        out
    }
}

} // verus!
