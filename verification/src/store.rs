//! The in-memory credential store: named entries plus a side list of
//! soft-deleted backups, with the mutation operations a caller composes into
//! load → mutate → save cycles.
//!
//! The active entries behave as a mapping from name to value: no two live
//! entries share a name ([`StoreV::wf`]), and every operation's contract is
//! stated against the mathematical map [`StoreV::as_map`].  The backups are an
//! ordered history list that may repeat names; removal from it is
//! first-match-wins under append order.

use vstd::prelude::*;
use vstd::string::StrSliceExecFns;

verus! {

/// Which stage of loading a persisted store failed.
#[derive(Clone, Copy, Debug, PartialEq, Eq, Structural)]
pub enum LoadFailure {
    /// The file could not be read.
    Read,
    /// The confidentiality transform could not decode the bytes.
    Decode,
    /// The decoded text is not a well-formed serialized store.
    Malformed,
}

/// Which stage of saving a store failed.
#[derive(Clone, Copy, Debug, PartialEq, Eq, Structural)]
pub enum SaveFailure {
    /// The parent directory could not be created.
    MakeDir,
    /// The confidentiality transform could not encode the bytes.
    Encode,
    /// The file could not be written.
    Write,
}

/// Every failure a store operation can report.
#[derive(Clone, Copy, Debug, PartialEq, Eq, Structural)]
pub enum StoreError {
    /// A lookup or removal target was absent, in the entries or the backups.
    NotFound,
    /// `set` without overwrite hit a present name.
    AlreadyExists,
    /// A restore target name collides with a live entry.
    RestoreConflict,
    /// Loading failed at the given stage.
    Load(LoadFailure),
    /// Saving failed at the given stage.
    Save(SaveFailure),
}

/// A named secret: a non-empty unique key within the active set, and an
/// arbitrary string payload.
#[derive(Clone, Debug)]
pub struct Entry {
    pub name: String,
    pub value: String,
}

/// Mathematical image of an [`Entry`]: both fields as character sequences.
#[verifier::ext_equal]
pub ghost struct EntryV {
    pub name: Seq<char>,
    pub value: Seq<char>,
}

impl View for Entry {
    type V = EntryV;

    open spec fn view(&self) -> EntryV {
        EntryV { name: self.name@, value: self.value@ }
    }
}

/// Mathematical image of a [`Store`]: the entry list and the backup list,
/// both as sequences of [`EntryV`].
#[verifier::ext_equal]
pub ghost struct StoreV {
    pub entries: Seq<EntryV>,
    pub backups: Seq<EntryV>,
}

/// The views of a sequence of entries.
pub open spec fn entry_views(s: Seq<Entry>) -> Seq<EntryV> {
    s.map_values(|e: Entry| e@)
}

/// No two entries of the sequence share a name.
pub open spec fn names_unique(es: Seq<EntryV>) -> bool {
    forall|i: int, j: int| 0 <= i < j < es.len() ==> es[i].name != es[j].name
}

/// Index of the first entry named `name`, or `es.len()` if there is none.
pub open spec fn find_name(es: Seq<EntryV>, name: Seq<char>) -> int
    decreases es.len(),
{
    if es.len() == 0 {
        0
    } else if es[0].name == name {
        0
    } else {
        1 + find_name(es.drop_first(), name)
    }
}

/// The mapping from names to values that a sequence of entries represents;
/// later entries win, which is moot once names are unique.
pub open spec fn entries_map(es: Seq<EntryV>) -> Map<Seq<char>, Seq<char>>
    decreases es.len(),
{
    if es.len() == 0 {
        Map::empty()
    } else {
        entries_map(es.drop_last()).insert(es.last().name, es.last().value)
    }
}

impl StoreV {
    /// The store invariant: active entry names are unique.
    pub open spec fn wf(self) -> bool {
        names_unique(self.entries)
    }

    /// The active entries as a mathematical map from name to value.
    pub open spec fn as_map(self) -> Map<Seq<char>, Seq<char>> {
        entries_map(self.entries)
    }
}

/// `find_name` finds the first match: the entry there is named `name`, and no
/// earlier one is.
pub proof fn lemma_find_name(es: Seq<EntryV>, name: Seq<char>)
    ensures
        0 <= find_name(es, name) <= es.len(),
        find_name(es, name) < es.len() ==> es[find_name(es, name)].name == name,
        forall|k: int| 0 <= k < find_name(es, name) ==> es[k].name != name,
    decreases es.len(),
{
    if es.len() > 0 && es[0].name != name {
        lemma_find_name(es.drop_first(), name);
        assert forall|k: int| 0 <= k < find_name(es, name) implies es[k].name != name by {
            if k > 0 {
                assert(es.drop_first()[k - 1] == es[k]);
            }
        }
    }
}

/// A name is in the map exactly when some entry carries it.
pub proof fn lemma_contains_iff(es: Seq<EntryV>, name: Seq<char>)
    ensures
        entries_map(es).contains_key(name) <==> exists|i: int|
            0 <= i < es.len() && (#[trigger] es[i]).name == name,
    decreases es.len(),
{
    if es.len() > 0 {
        lemma_contains_iff(es.drop_last(), name);
        if es.last().name == name {
            assert(es[es.len() - 1].name == name);
        } else if entries_map(es).contains_key(name) {
            let i = choose|i: int| 0 <= i < es.drop_last().len() && (#[trigger] es.drop_last()[i]).name == name;
            assert(es[i].name == name);
        } else {
            assert forall|i: int| 0 <= i < es.len() implies (#[trigger] es[i]).name != name by {
                if i < es.len() - 1 {
                    assert(es.drop_last()[i] == es[i]);
                }
            }
        }
    }
}

/// Under unique names, the map sends each entry's name to that entry's value.
pub proof fn lemma_map_value_at(es: Seq<EntryV>, i: int)
    requires
        names_unique(es),
        0 <= i < es.len(),
    ensures
        entries_map(es).contains_key(es[i].name),
        entries_map(es)[es[i].name] == es[i].value,
    decreases es.len(),
{
    if i < es.len() - 1 {
        assert(names_unique(es.drop_last())) by {
            assert forall|a: int, b: int| 0 <= a < b < es.drop_last().len()
                implies es.drop_last()[a].name != es.drop_last()[b].name by {
                assert(es.drop_last()[a] == es[a] && es.drop_last()[b] == es[b]);
            }
        }
        assert(es.drop_last()[i] == es[i]);
        lemma_map_value_at(es.drop_last(), i);
        assert(es[i].name != es.last().name);
    }
}

/// Pushing an entry inserts its pair into the map.
pub proof fn lemma_map_push(es: Seq<EntryV>, e: EntryV)
    ensures
        entries_map(es.push(e)) == entries_map(es).insert(e.name, e.value),
{
    assert(es.push(e).drop_last() =~= es);
    assert(es.push(e).last() == e);
}

/// Under unique names, removing the entry at `i` removes its name from the map.
pub proof fn lemma_map_remove_at(es: Seq<EntryV>, i: int)
    requires
        names_unique(es),
        0 <= i < es.len(),
    ensures
        entries_map(es.remove(i)) == entries_map(es).remove(es[i].name),
    decreases es.len(),
{
    assert(names_unique(es.drop_last())) by {
        assert forall|a: int, b: int| 0 <= a < b < es.drop_last().len()
            implies es.drop_last()[a].name != es.drop_last()[b].name by {
            assert(es.drop_last()[a] == es[a] && es.drop_last()[b] == es[b]);
        }
    }
    if i == es.len() - 1 {
        assert(es.remove(i) =~= es.drop_last());
        lemma_contains_iff(es.drop_last(), es[i].name);
        assert forall|k: int| 0 <= k < es.drop_last().len()
            implies (#[trigger] es.drop_last()[k]).name != es[i].name by {
            assert(es.drop_last()[k] == es[k]);
        }
        assert(!entries_map(es.drop_last()).contains_key(es[i].name));
        assert(entries_map(es.remove(i)) =~= entries_map(es).remove(es[i].name));
    } else {
        let k = es[i].name;
        assert(es.remove(i).drop_last() =~= es.drop_last().remove(i));
        assert(es.remove(i).last() == es.last());
        assert(es.drop_last()[i] == es[i]);
        lemma_map_remove_at(es.drop_last(), i);
        assert(k != es.last().name);
        assert(entries_map(es.remove(i)) =~= entries_map(es).remove(k)) by {
            assert(entries_map(es.remove(i)) == entries_map(es.drop_last()).remove(k).insert(
                es.last().name,
                es.last().value,
            ));
        }
    }
}

/// Compare two string slices character by character.
fn str_eq(a: &str, b: &str) -> (r: bool)
    ensures
        r == (a@ == b@),
{
    let n = a.unicode_len();
    let m = b.unicode_len();
    if n != m {
        return false;
    }
    let mut i: usize = 0;
    while i < n
        invariant
            n == a@.len(),
            n == b@.len(),
            i <= n,
            forall|k: int| 0 <= k < i ==> a@[k] == b@[k],
        decreases n - i,
    {
        if a.get_char(i) != b.get_char(i) {
            return false;
        }
        i += 1;
    }
    proof {
        assert(a@ =~= b@);
    }
    true
}

/// Index of the first entry of `es` named `name`, or `es.len()`.
fn find_index(es: &Vec<Entry>, name: &str) -> (i: usize)
    ensures
        i as int == find_name(entry_views(es@), name@),
        i <= es@.len(),
{
    let ghost vs = entry_views(es@);
    let n = es.len();
    let mut i: usize = 0;
    while i < n
        invariant
            n == es@.len(),
            vs == entry_views(es@),
            i <= n,
            forall|k: int| 0 <= k < i ==> (#[trigger] vs[k]).name != name@,
        decreases n - i,
    {
        if str_eq(es[i].name.as_str(), name) {
            proof {
                lemma_find_name(vs, name@);
                let f = find_name(vs, name@);
                assert(vs[i as int].name == name@);
                if f < i as int {
                    assert(vs[f].name == name@);
                }
                assert(f == i as int);
            }
            return i;
        }
        i += 1;
    }
    proof {
        lemma_find_name(vs, name@);
        let f = find_name(vs, name@);
        if f < n as int {
            assert(vs[f].name == name@);
        }
    }
    n
}

/// The aggregate root: the active entries and the backup history.
pub struct Store {
    pub entries: Vec<Entry>,
    pub backups: Vec<Entry>,
}

impl View for Store {
    type V = StoreV;

    open spec fn view(&self) -> StoreV {
        StoreV { entries: entry_views(self.entries@), backups: entry_views(self.backups@) }
    }
}

impl Default for Store {
    /// The valid state for "no store file yet": no entries, no backups.
    fn default() -> (s: Store)
        ensures
            s@.entries.len() == 0,
            s@.backups.len() == 0,
            s@.wf(),
            s@.as_map() == Map::<Seq<char>, Seq<char>>::empty(),
    {
        Store { entries: Vec::new(), backups: Vec::new() }
    }
}

impl Store {
    /// Whether the store invariant holds: no two active entries share a name.
    pub fn well_formed(&self) -> (r: bool)
        ensures
            r == self@.wf(),
    {
        let ghost vs = entry_views(self.entries@);
        let n = self.entries.len();
        let mut i: usize = 0;
        while i < n
            invariant
                n == self.entries@.len(),
                vs == entry_views(self.entries@),
                i <= n,
                forall|a: int, b: int| 0 <= a < b < vs.len() && a < i ==> vs[a].name != vs[b].name,
            decreases n - i,
        {
            let mut j: usize = i + 1;
            while j < n
                invariant
                    n == self.entries@.len(),
                    vs == entry_views(self.entries@),
                    i < j <= n,
                    forall|b: int| i < b < j ==> vs[i as int].name != (#[trigger] vs[b]).name,
                decreases n - j,
            {
                if str_eq(self.entries[i].name.as_str(), self.entries[j].name.as_str()) {
                    assert(vs[i as int].name == vs[j as int].name);
                    return false;
                }
                j += 1;
            }
            i += 1;
        }
        true
    }

    /// Insert or replace the entry named `name`.
    ///
    /// With `overwrite` false a present name is refused and nothing changes;
    /// otherwise the map afterwards is the old map with `name` bound to
    /// `value`.  The backups are never touched.
    pub fn set(&mut self, name: &str, value: &str, overwrite: bool) -> (r: Result<(), StoreError>)
        requires
            old(self)@.wf(),
        ensures
            final(self)@.wf(),
            final(self)@.backups == old(self)@.backups,
            r is Ok <==> (overwrite || !old(self)@.as_map().contains_key(name@)),
            r is Err ==> *final(self) == *old(self) && r == Err::<(), StoreError>(
                StoreError::AlreadyExists,
            ),
            r is Ok ==> final(self)@.as_map() == old(self)@.as_map().insert(name@, value@),
    {
        let ghost vs = entry_views(self.entries@);
        let i = find_index(&self.entries, name);
        let n = self.entries.len();
        proof {
            lemma_find_name(vs, name@);
            lemma_contains_iff(vs, name@);
            if (i as int) < vs.len() {
                assert(vs[i as int].name == name@);
            } else {
                assert(forall|k: int| 0 <= k < vs.len() ==> (#[trigger] vs[k]).name != name@);
            }
        }
        if i < n {
            if !overwrite {
                return Err(StoreError::AlreadyExists);
            }
            proof {
                lemma_map_remove_at(vs, i as int);
            }
            self.entries.remove(i);
            proof {
                assert(entry_views(self.entries@) =~= vs.remove(i as int));
                assert(names_unique(vs.remove(i as int))) by {
                    assert forall|a: int, b: int| 0 <= a < b < vs.remove(i as int).len()
                        implies vs.remove(i as int)[a].name != vs.remove(i as int)[b].name by {
                        let a0 = if a < i as int { a } else { a + 1 };
                        let b0 = if b < i as int { b } else { b + 1 };
                        assert(vs.remove(i as int)[a] == vs[a0] && vs.remove(i as int)[b] == vs[b0]);
                    }
                }
                assert(!entries_map(vs.remove(i as int)).contains_key(name@)) by {
                    lemma_contains_iff(vs.remove(i as int), name@);
                    if exists|k: int|
                        0 <= k < vs.remove(i as int).len() && (#[trigger] vs.remove(i as int)[k]).name
                            == name@ {
                        let k = choose|k: int|
                            0 <= k < vs.remove(i as int).len() && (#[trigger] vs.remove(
                                i as int,
                            )[k]).name == name@;
                        let k0 = if k < i as int { k } else { k + 1 };
                        assert(vs[k0].name == name@ && k0 != i as int);
                        assert(vs[i as int].name == name@);
                    }
                }
            }
        }
        let e = Entry { name: name.to_owned(), value: value.to_owned() };
        let ghost before = entry_views(self.entries@);
        self.entries.push(e);
        proof {
            assert(entry_views(self.entries@) =~= before.push(e@));
            lemma_map_push(before, e@);
            lemma_contains_iff(before, name@);
            assert(names_unique(before.push(e@))) by {
                assert forall|a: int, b: int| 0 <= a < b < before.push(e@).len()
                    implies before.push(e@)[a].name != before.push(e@)[b].name by {
                    if b < before.len() {
                        assert(before.push(e@)[a] == before[a] && before.push(e@)[b] == before[b]);
                    } else {
                        assert(before.push(e@)[b] == e@);
                        assert(before.push(e@)[a] == before[a]);
                        assert(before[a].name != name@);
                    }
                }
            }
            if i < n {
                assert(final(self)@.as_map() =~= old(self)@.as_map().insert(name@, value@));
            } else {
                assert(final(self)@.as_map() =~= old(self)@.as_map().insert(name@, value@));
            }
            assert(final(self)@.backups =~= old(self)@.backups);
        }
        Ok(())
    }

    /// Look the name up among the active entries; absence is not an error.
    pub fn get(&self, name: &str) -> (r: Option<&Entry>)
        requires
            self@.wf(),
        ensures
            r is Some <==> self@.as_map().contains_key(name@),
            r matches Some(e) ==> e@.name == name@ && e@.value == self@.as_map()[name@],
    {
        let ghost vs = entry_views(self.entries@);
        let i = find_index(&self.entries, name);
        proof {
            lemma_find_name(vs, name@);
            lemma_contains_iff(vs, name@);
        }
        if i < self.entries.len() {
            proof {
                assert(vs[i as int].name == name@);
                lemma_map_value_at(vs, i as int);
            }
            Some(&self.entries[i])
        } else {
            proof {
                assert(forall|k: int| 0 <= k < vs.len() ==> (#[trigger] vs[k]).name != name@);
            }
            None
        }
    }

    /// Remove and return the entry named `name` from the active entries, if
    /// present.  The backups are not touched: the caller decides whether to
    /// archive the removed entry.
    pub fn remove(&mut self, name: &str) -> (r: Option<Entry>)
        requires
            old(self)@.wf(),
        ensures
            final(self)@.wf(),
            final(self)@.backups == old(self)@.backups,
            r is Some <==> old(self)@.as_map().contains_key(name@),
            r matches Some(e) ==> e@.name == name@ && e@.value == old(self)@.as_map()[name@],
            final(self)@.as_map() == old(self)@.as_map().remove(name@),
            r is None ==> *final(self) == *old(self),
    {
        let ghost vs = entry_views(self.entries@);
        let i = find_index(&self.entries, name);
        proof {
            lemma_find_name(vs, name@);
            lemma_contains_iff(vs, name@);
        }
        if i < self.entries.len() {
            proof {
                assert(vs[i as int].name == name@);
                lemma_map_value_at(vs, i as int);
                lemma_map_remove_at(vs, i as int);
            }
            let e = self.entries.remove(i);
            proof {
                assert(entry_views(self.entries@) =~= vs.remove(i as int));
                assert(names_unique(vs.remove(i as int))) by {
                    assert forall|a: int, b: int| 0 <= a < b < vs.remove(i as int).len()
                        implies vs.remove(i as int)[a].name != vs.remove(i as int)[b].name by {
                        let a0 = if a < i as int { a } else { a + 1 };
                        let b0 = if b < i as int { b } else { b + 1 };
                        assert(vs.remove(i as int)[a] == vs[a0] && vs.remove(i as int)[b] == vs[b0]);
                    }
                }
                assert(final(self)@.backups =~= old(self)@.backups);
            }
            Some(e)
        } else {
            proof {
                assert(forall|k: int| 0 <= k < vs.len() ==> (#[trigger] vs[k]).name != name@);
                assert(old(self)@.as_map().remove(name@) =~= old(self)@.as_map());
            }
            None
        }
    }

    /// Append an entry to the backup history, unconditionally: no
    /// deduplication, no uniqueness check.
    pub fn backup_entry(&mut self, entry: Entry)
        ensures
            final(self)@.entries == old(self)@.entries,
            final(self)@.backups == old(self)@.backups.push(entry@),
    {
        let ghost ev = entry@;
        self.backups.push(entry);
        proof {
            assert(final(self)@.backups =~= old(self)@.backups.push(ev));
            assert(final(self)@.entries =~= old(self)@.entries);
        }
    }

    /// Remove and return the first backup named `name` under append order, if
    /// any; with no match, nothing at all changes.
    pub fn remove_backup(&mut self, name: &str) -> (r: Option<Entry>)
        ensures
            final(self)@.entries == old(self)@.entries,
            find_name(old(self)@.backups, name@) < old(self)@.backups.len() ==> r is Some
                && final(self)@.backups == old(self)@.backups.remove(
                find_name(old(self)@.backups, name@),
            ),
            r matches Some(e) ==> e@ == old(self)@.backups[find_name(old(self)@.backups, name@)]
                && e@.name == name@,
            find_name(old(self)@.backups, name@) == old(self)@.backups.len() ==> r is None
                && *final(self) == *old(self),
    {
        let ghost bs = entry_views(self.backups@);
        let i = find_index(&self.backups, name);
        proof {
            lemma_find_name(bs, name@);
        }
        if i < self.backups.len() {
            let e = self.backups.remove(i);
            proof {
                assert(entry_views(self.backups@) =~= bs.remove(i as int));
                assert(final(self)@.entries =~= old(self)@.entries);
            }
            Some(e)
        } else {
            None
        }
    }

    /// Restore the first backup named `name` into the active entries.
    ///
    /// With no matching backup nothing changes and `NotFound` is reported.
    /// When the name is already live, the just-removed backup is re-appended
    /// to the history — so it is never lost — and `RestoreConflict` is
    /// reported with the live entry untouched.  Otherwise the backup leaves
    /// the history and becomes the live entry under its name.
    pub fn restore(&mut self, name: &str) -> (r: Result<(), StoreError>)
        requires
            old(self)@.wf(),
        ensures
            final(self)@.wf(),
            ({
                let bs = old(self)@.backups;
                let i = find_name(bs, name@);
                if i == bs.len() {
                    r == Err::<(), StoreError>(StoreError::NotFound) && *final(self) == *old(self)
                } else if old(self)@.as_map().contains_key(name@) {
                    r == Err::<(), StoreError>(StoreError::RestoreConflict) && final(self)@.entries
                        == old(self)@.entries && final(self)@.backups == bs.remove(i).push(bs[i])
                } else {
                    r is Ok && final(self)@.as_map() == old(self)@.as_map().insert(
                        name@,
                        bs[i].value,
                    ) && final(self)@.backups == bs.remove(i)
                }
            }),
    {
        let ghost bs = entry_views(self.backups@);
        let ghost vs = entry_views(self.entries@);
        proof {
            lemma_find_name(bs, name@);
            lemma_contains_iff(vs, name@);
        }
        match self.remove_backup(name) {
            None => Err(StoreError::NotFound),
            Some(entry) => {
                let i = find_index(&self.entries, name);
                proof {
                    lemma_find_name(vs, name@);
                    if (i as int) < vs.len() {
                        assert(vs[i as int].name == name@);
                    } else {
                        assert(forall|k: int|
                            0 <= k < vs.len() ==> (#[trigger] vs[k]).name != name@);
                    }
                }
                if i < self.entries.len() {
                    self.backup_entry(entry);
                    Err(StoreError::RestoreConflict)
                } else {
                    let ghost ev = entry@;
                    self.entries.push(entry);
                    proof {
                        assert(entry_views(self.entries@) =~= vs.push(ev));
                        lemma_map_push(vs, ev);
                        assert(names_unique(vs.push(ev))) by {
                            assert forall|a: int, b: int| 0 <= a < b < vs.push(ev).len()
                                implies vs.push(ev)[a].name != vs.push(ev)[b].name by {
                                if b < vs.len() {
                                    assert(vs.push(ev)[a] == vs[a] && vs.push(ev)[b] == vs[b]);
                                } else {
                                    assert(vs.push(ev)[b] == ev);
                                    assert(vs.push(ev)[a] == vs[a]);
                                }
                            }
                        }
                    }
                    Ok(())
                }
            },
        }
    }
}

} // verus!
