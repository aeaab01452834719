//! Key tables: the table of named hexadecimal keys that a caller fills, and
//! the table of named public keys that fragments are resolved against.

use crate::error::{BuildError, BuildErrorView};
use crate::key::{xonly_from_hex, PublicKey};
use vstd::prelude::*;

verus! {

/// One binding of a key table: a name and the key's hexadecimal text.
pub struct KeyEntry {
    pub name: String,
    pub value: String,
}

/// What a binding stands for.
pub struct EntryView {
    pub name: Seq<char>,
    pub value: Seq<char>,
}

impl View for KeyEntry {
    type V = EntryView;

    open spec fn view(&self) -> EntryView {
        EntryView { name: self.name@, value: self.value@ }
    }
}

/// The bindings a vector of entries stands for.
pub open spec fn spec_entries(entries: Seq<KeyEntry>) -> Seq<EntryView> {
    entries.map_values(|entry: KeyEntry| entry@)
}

/// The map that a list of bindings stands for; a later binding of a name
/// replaces an earlier one.
pub open spec fn spec_entries_map(entries: Seq<EntryView>) -> Map<Seq<char>, Seq<char>>
    decreases entries.len(),
{
    if entries.len() == 0 {
        Map::empty()
    } else {
        spec_entries_map(entries.drop_last()).insert(entries.last().name, entries.last().value)
    }
}

/// No two bindings have the same name.
pub open spec fn spec_distinct_names(entries: Seq<EntryView>) -> bool {
    forall|i: int, j: int|
        0 <= i < j < entries.len() ==> (#[trigger] entries[i]).name != (#[trigger] entries[j]).name
}

/// The message for the first binding whose text is no public key; none where
/// every binding parses.
pub open spec fn spec_first_invalid(entries: Seq<EntryView>) -> Option<Seq<char>>
    decreases entries.len(),
{
    if entries.len() == 0 {
        None
    } else {
        match xonly_from_hex(entries[0].value) {
            Err(message) => Some(message),
            Ok(_) => spec_first_invalid(entries.drop_first()),
        }
    }
}

/// The table of public keys that a table of texts stands for, where every
/// text parses.
pub open spec fn spec_resolved(texts: Map<Seq<char>, Seq<char>>) -> Map<Seq<char>, Seq<u8>> {
    Map::new(|name: Seq<char>| texts.contains_key(name), |name: Seq<char>| xonly_from_hex(texts[name])->Ok_0)
}

proof fn lemma_entries_push(entries: Seq<KeyEntry>, entry: KeyEntry)
    ensures
        spec_entries(entries.push(entry)) == spec_entries(entries).push(entry@),
{
    assert(spec_entries(entries.push(entry)) =~= spec_entries(entries).push(entry@));
}

proof fn lemma_entries_update(entries: Seq<KeyEntry>, at: int, entry: KeyEntry)
    requires
        0 <= at < entries.len(),
    ensures
        spec_entries(entries.update(at, entry)) == spec_entries(entries).update(at, entry@),
{
    assert(spec_entries(entries.update(at, entry)) =~= spec_entries(entries).update(at, entry@));
}

/// A name is bound by the map of a list exactly if one of its bindings has it.
proof fn lemma_map_domain(entries: Seq<EntryView>, name: Seq<char>)
    ensures
        spec_entries_map(entries).contains_key(name) <==> exists|k: int|
            0 <= k < entries.len() && (#[trigger] entries[k]).name == name,
    decreases entries.len(),
{
    if entries.len() > 0 {
        let front = entries.drop_last();
        lemma_map_domain(front, name);
        if spec_entries_map(entries).contains_key(name) {
            if entries.last().name == name {
                assert(entries[entries.len() - 1].name == name);
            } else {
                let k = choose|k: int| 0 <= k < front.len() && (#[trigger] front[k]).name == name;
                assert(entries[k].name == name);
            }
        }
        if exists|k: int| 0 <= k < entries.len() && (#[trigger] entries[k]).name == name {
            let k = choose|k: int| 0 <= k < entries.len() && (#[trigger] entries[k]).name == name;
            if k < front.len() {
                assert(front[k].name == name);
            }
        }
    }
}

/// Replacing the one binding of a name changes the map at that name only.
proof fn lemma_map_update(entries: Seq<EntryView>, at: int, value: Seq<char>)
    requires
        0 <= at < entries.len(),
        spec_distinct_names(entries),
    ensures
        spec_entries_map(entries.update(at, EntryView { name: entries[at].name, value }))
            == spec_entries_map(entries).insert(entries[at].name, value),
    decreases entries.len(),
{
    let name = entries[at].name;
    let changed = entries.update(at, EntryView { name, value });
    let front = entries.drop_last();
    if at == entries.len() - 1 {
        assert(changed.drop_last() =~= front);
        assert(spec_entries_map(changed) =~= spec_entries_map(entries).insert(name, value));
    } else {
        assert(spec_distinct_names(front)) by {
            assert(forall|i: int| 0 <= i < front.len() ==> front[i] == entries[i]);
        }
        lemma_map_update(front, at, value);
        assert(changed.drop_last() =~= front.update(at, EntryView { name: front[at].name, value }));
        assert(entries[at].name != entries[entries.len() - 1].name);
        assert(spec_entries_map(changed) =~= spec_entries_map(entries).insert(name, value));
    }
}

/// With distinct names, the map of a list binds the name of each of its
/// bindings to the value of that binding.
pub proof fn lemma_map_values(entries: Seq<EntryView>, at: int)
    requires
        spec_distinct_names(entries),
        0 <= at < entries.len(),
    ensures
        spec_entries_map(entries).contains_key(entries[at].name),
        spec_entries_map(entries)[entries[at].name] == entries[at].value,
    decreases entries.len(),
{
    if at < entries.len() - 1 {
        let front = entries.drop_last();
        assert(spec_distinct_names(front)) by {
            assert(forall|i: int| 0 <= i < front.len() ==> front[i] == entries[i]);
        }
        lemma_map_values(front, at);
        assert(front[at] == entries[at]);
        assert(entries[at].name != entries[entries.len() - 1].name);
    }
}

proof fn lemma_first_invalid_each(entries: Seq<EntryView>)
    ensures
        spec_first_invalid(entries) is None <==> forall|k: int|
            0 <= k < entries.len() ==> xonly_from_hex((#[trigger] entries[k]).value) is Ok,
    decreases entries.len(),
{
    if entries.len() > 0 {
        let rest = entries.drop_first();
        lemma_first_invalid_each(rest);
        assert(forall|k: int| 0 <= k < rest.len() ==> rest[k] == entries[k + 1]);
        if forall|k: int| 0 <= k < entries.len() ==> xonly_from_hex((#[trigger] entries[k]).value) is Ok {
            assert(xonly_from_hex(entries[0].value) is Ok);
            assert forall|k: int| 0 <= k < rest.len() implies xonly_from_hex(
                (#[trigger] rest[k]).value,
            ) is Ok by {
                assert(xonly_from_hex(entries[k + 1].value) is Ok);
            }
        }
        if spec_first_invalid(entries) is None {
            assert forall|k: int| 0 <= k < entries.len() implies xonly_from_hex(
                (#[trigger] entries[k]).value,
            ) is Ok by {
                if k > 0 {
                    assert(xonly_from_hex(rest[k - 1].value) is Ok);
                }
            }
        }
    }
}

/// Whether every text that a map binds is a public key.
pub open spec fn spec_all_keys_parse(texts: Map<Seq<char>, Seq<char>>) -> bool {
    forall|name: Seq<char>| texts.contains_key(name) ==> xonly_from_hex(#[trigger] texts[name]) is Ok
}

/// With distinct names, no binding of a list is invalid exactly if every
/// text that the list's map binds is a public key. So whether a table
/// parses depends on its map alone, not on the order of its bindings.
pub proof fn lemma_first_invalid_by_map(entries: Seq<EntryView>)
    requires
        spec_distinct_names(entries),
    ensures
        spec_first_invalid(entries) is None <==> spec_all_keys_parse(spec_entries_map(entries)),
{
    let texts = spec_entries_map(entries);
    lemma_first_invalid_each(entries);
    if spec_first_invalid(entries) is None {
        assert forall|name: Seq<char>| texts.contains_key(name) implies xonly_from_hex(
            #[trigger] texts[name],
        ) is Ok by {
            lemma_map_domain(entries, name);
            let k = choose|k: int| 0 <= k < entries.len() && (#[trigger] entries[k]).name == name;
            lemma_map_values(entries, k);
            assert(xonly_from_hex(entries[k].value) is Ok);
        }
    }
    if spec_all_keys_parse(texts) {
        assert forall|k: int| 0 <= k < entries.len() implies xonly_from_hex(
            (#[trigger] entries[k]).value,
        ) is Ok by {
            lemma_map_values(entries, k);
            assert(xonly_from_hex(texts[entries[k].name]) is Ok);
        }
    }
}

/// The table of named keys that a caller fills, each key as hexadecimal text.
pub struct KeyTab {
    entries: Vec<KeyEntry>,
}

impl View for KeyTab {
    type V = Map<Seq<char>, Seq<char>>;

    open spec fn view(&self) -> Map<Seq<char>, Seq<char>> {
        spec_entries_map(self.entries())
    }
}

impl KeyTab {
    /// No two bindings of a table have the same name.
    #[verifier::type_invariant]
    pub open spec fn distinct(&self) -> bool {
        spec_distinct_names(self.entries())
    }

    /// The bindings of the table, in the order in which their names came.
    pub closed spec fn entries(&self) -> Seq<EntryView> {
        spec_entries(self.entries@)
    }

    /// The empty table.
    pub fn new() -> (table: KeyTab)
        ensures
            table.entries() == Seq::<EntryView>::empty(),
            table@ == Map::<Seq<char>, Seq<char>>::empty(),
    {
        let table = KeyTab { entries: Vec::new() };
        assert(table.entries() =~= Seq::<EntryView>::empty());
        table
    }

    /// Binds the name `k` to the text `v`; an earlier binding of `k` is
    /// replaced where it stands.
    pub fn add(&mut self, k: String, v: String)
        ensures
            final(self)@ == old(self)@.insert(k@, v@),
            old(self)@.contains_key(k@) ==> exists|at: int|
                0 <= at < old(self).entries().len() && (#[trigger] old(self).entries()[at]).name == k@
                    && final(self).entries() == old(self).entries().update(
                    at,
                    EntryView { name: k@, value: v@ },
                ),
            !old(self)@.contains_key(k@) ==> final(self).entries() == old(self).entries().push(
                EntryView { name: k@, value: v@ },
            ),
    {
        proof {
            use_type_invariant(&*self);
            lemma_map_domain(self.entries(), k@);
        }
        let ghost before = self.entries();
        let mut entries: Vec<KeyEntry> = Vec::new();
        core::mem::swap(&mut self.entries, &mut entries);
        let mut at: usize = 0;
        while at < entries.len() && !(entries[at].name == k)
            invariant
                at <= entries.len(),
                spec_entries(entries@) == before,
                forall|i: int| 0 <= i < at ==> (#[trigger] before[i]).name != k@,
            decreases entries.len() - at,
        {
            at += 1;
        }
        let entry = KeyEntry { name: k, value: v };
        if at < entries.len() {
            proof {
                lemma_entries_update(entries@, at as int, entry);
                lemma_map_update(before, at as int, v@);
                let after = before.update(at as int, entry@);
                assert(spec_distinct_names(after)) by {
                    assert(forall|i: int|
                        0 <= i < after.len() ==> (#[trigger] after[i]).name == before[i].name);
                }
            }
            entries.set(at, entry);
            assert(before[at as int].name == k@);
        } else {
            proof {
                lemma_entries_push(entries@, entry);
                assert(before.push(entry@).drop_last() =~= before);
            }
            entries.push(entry);
        }
        self.entries = entries;
    }

    /// Parses every key of the table. The first text that is no public key,
    /// in the order of the bindings, fails the whole table.
    pub fn parse(&self) -> (parsed: Result<KeyTable, BuildError>)
        ensures
            spec_first_invalid(self.entries()) matches Some(message) ==> (parsed matches Err(error)
                && error@ == BuildErrorView::InvalidKey(message)),
            spec_first_invalid(self.entries()) is None ==> (parsed matches Ok(table) && table@
                == spec_resolved(self@)),
    {
        let ghost all = self.entries();
        let mut table = KeyTable::new();
        let mut at: usize = 0;
        assert(all.skip(0) =~= all);
        assert(all.take(0) =~= Seq::<EntryView>::empty());
        assert(table@ =~= spec_resolved(spec_entries_map(all.take(0))));
        while at < self.entries.len()
            invariant
                at <= self.entries.len(),
                all == self.entries(),
                spec_first_invalid(all) == spec_first_invalid(all.skip(at as int)),
                table@ == spec_resolved(spec_entries_map(all.take(at as int))),
            decreases self.entries.len() - at,
        {
            let entry = &self.entries[at];
            assert(all.skip(at as int)[0] == entry@);
            assert(all.skip(at as int).drop_first() =~= all.skip(at as int + 1));
            assert(all.take(at as int + 1).drop_last() =~= all.take(at as int));
            match PublicKey::from_hex(entry.value.as_str()) {
                Err(message) => {
                    return Err(BuildError::InvalidKey(message));
                },
                Ok(key) => {
                    table.insert(entry.name.clone(), key);
                    assert(table@ =~= spec_resolved(spec_entries_map(all.take(at as int + 1))));
                },
            }
            at += 1;
        }
        assert(all.take(at as int) =~= all);
        Ok(table)
    }
}

/// One binding of a table of public keys.
pub struct ResolvedKey {
    pub name: String,
    pub key: PublicKey,
}

/// The map that a list of resolved bindings stands for; a later binding of a
/// name replaces an earlier one.
pub open spec fn spec_resolved_map(entries: Seq<ResolvedKey>) -> Map<Seq<char>, Seq<u8>>
    decreases entries.len(),
{
    if entries.len() == 0 {
        Map::empty()
    } else {
        spec_resolved_map(entries.drop_last()).insert(entries.last().name@, entries.last().key@)
    }
}

/// The table of named public keys that fragments are resolved against.
pub struct KeyTable {
    entries: Vec<ResolvedKey>,
}

impl View for KeyTable {
    type V = Map<Seq<char>, Seq<u8>>;

    closed spec fn view(&self) -> Map<Seq<char>, Seq<u8>> {
        spec_resolved_map(self.entries@)
    }
}

impl KeyTable {
    /// The empty table.
    pub fn new() -> (table: KeyTable)
        ensures
            table@ == Map::<Seq<char>, Seq<u8>>::empty(),
    {
        KeyTable { entries: Vec::new() }
    }

    /// Binds `name` to `key`, in place of any earlier binding of that name.
    pub fn insert(&mut self, name: String, key: PublicKey)
        ensures
            final(self)@ == old(self)@.insert(name@, key@),
    {
        let entry = ResolvedKey { name, key };
        assert(self.entries@.push(entry).drop_last() =~= self.entries@);
        self.entries.push(entry);
    }

    /// Looks a name up.
    pub fn get(&self, name: &String) -> (found: Option<&PublicKey>)
        ensures
            found is Some <==> self@.contains_key(name@),
            found matches Some(key) ==> key@ == self@[name@],
    {
        let mut left: usize = self.entries.len();
        assert(self.entries@.take(left as int) =~= self.entries@);
        while left > 0
            invariant
                left <= self.entries.len(),
                self@.contains_key(name@) <==> spec_resolved_map(
                    self.entries@.take(left as int),
                ).contains_key(name@),
                self@.contains_key(name@) ==> self@[name@] == spec_resolved_map(
                    self.entries@.take(left as int),
                )[name@],
            decreases left,
        {
            assert(self.entries@.take(left as int).drop_last() =~= self.entries@.take(left as int - 1));
            left -= 1;
            if self.entries[left].name == *name {
                return Some(&self.entries[left].key);
            }
        }
        None
    }

    /// Resolves a name to its key; a name that the table lacks is an error
    /// that carries the name.
    pub fn resolve(&self, name: &String) -> (resolved: Result<PublicKey, BuildError>)
        ensures
            self@.contains_key(name@) ==> (resolved matches Ok(key) && key@ == self@[name@]),
            !self@.contains_key(name@) ==> (resolved matches Err(error) && error@
                == BuildErrorView::MissingKey(name@)),
    {
        match self.get(name) {
            Some(key) => Ok(key.duplicate()),
            None => Err(BuildError::MissingKey(name.clone())),
        }
    }
}

} // verus!
