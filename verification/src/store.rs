//! The ledger store: a mapping from snapshot names to encoded ledger
//! texts. Two names are reserved: `current`, the ledger every command
//! works on, and `backup`, written and read by the backup/restore pair.
//! The surrounding process mirrors this map onto one file per snapshot;
//! everything a command decides or computes happens here.

use vstd::prelude::*;
use crate::codec::{enc_ledger, sp_ledger, encode, decode, lemma_parse_of_encode};
use crate::errors::Error;
use crate::ledger::{
    Kind,
    Frequency,
    Transaction,
    TransactionV,
    Ledger,
    contains_name,
    remove_named,
    unique_names,
};
use crate::money::Money;

verus! {

/// The view of the reserved name of the active ledger.
pub open spec fn current_name() -> Seq<char> {
    seq!['c', 'u', 'r', 'r', 'e', 'n', 't']
}

/// The view of the reserved name of the backup snapshot.
pub open spec fn backup_name() -> Seq<char> {
    seq!['b', 'a', 'c', 'k', 'u', 'p']
}

/// The reserved name of the active ledger.
pub fn current_name_str() -> (r: &'static str)
    ensures
        r@ == current_name(),
{
    proof {
        reveal_strlit("current");
        assert(("current"@) =~= current_name());
    }
    "current"
}

/// The reserved name of the backup snapshot.
pub fn backup_name_str() -> (r: &'static str)
    ensures
        r@ == backup_name(),
{
    proof {
        reveal_strlit("backup");
        assert(("backup"@) =~= backup_name());
    }
    "backup"
}

/// The map a sequence of named snapshots denotes.
pub open spec fn snaps_map(s: Seq<(String, String)>) -> Map<Seq<char>, Seq<char>>
    decreases s.len(),
{
    if s.len() == 0 {
        Map::empty()
    } else {
        snaps_map(s.drop_last()).insert(s.last().0@, s.last().1@)
    }
}

/// The ledger a snapshot map holds under `name`, when the name is bound
/// to a well-formed encoding with pairwise distinct entry names.
pub open spec fn stored_ledger(m: Map<Seq<char>, Seq<char>>, name: Seq<char>) -> Option<
    Seq<TransactionV>,
> {
    if m.dom().contains(name) {
        match sp_ledger(m[name]) {
            Some(lv) => if unique_names(lv) {
                Some(lv)
            } else {
                None
            },
            None => None,
        }
    } else {
        None
    }
}

/// Named snapshots of encoded ledgers, with pairwise distinct names.
pub struct Store {
    pub entries: Vec<(String, String)>,
}

impl View for Store {
    type V = Map<Seq<char>, Seq<char>>;

    open spec fn view(&self) -> Map<Seq<char>, Seq<char>> {
        snaps_map(self.entries@)
    }
}

/// A bound name is one of the sequence's names.
proof fn lemma_snaps_map_dom(s: Seq<(String, String)>, k: Seq<char>)
    ensures
        snaps_map(s).dom().contains(k) <==> exists|i: int| 0 <= i < s.len() && (#[trigger] s[i].0)@
            == k,
    decreases s.len(),
{
    if s.len() > 0 {
        lemma_snaps_map_dom(s.drop_last(), k);
        assert(forall|i: int| 0 <= i < s.len() - 1 ==> s.drop_last()[i] == s[i]);
        if snaps_map(s).dom().contains(k) && s.last().0@ != k {
            let i = choose|i: int| 0 <= i < s.drop_last().len() && (#[trigger] s.drop_last()[i].0)@
                == k;
            assert(s[i].0@ == k);
        }
        if exists|i: int| 0 <= i < s.len() && (#[trigger] s[i].0)@ == k {
            let i = choose|i: int| 0 <= i < s.len() && (#[trigger] s[i].0)@ == k;
            if i < s.len() - 1 {
                assert(s.drop_last()[i].0@ == k);
            }
        }
    }
}

impl Store {
    /// Names are pairwise distinct.
    pub open spec fn wf(self) -> bool {
        forall|i: int, j: int|
            0 <= i < j < self.entries@.len() ==> (#[trigger] self.entries@[i].0)@ != (
            #[trigger] self.entries@[j].0)@
    }

    /// Under distinct names, the entry at `i` is what the map holds.
    proof fn lemma_at(self, i: int)
        requires
            self.wf(),
            0 <= i < self.entries@.len(),
        ensures
            self@.dom().contains(self.entries@[i].0@),
            self@[self.entries@[i].0@] == self.entries@[i].1@,
    {
        lemma_snaps_map_sub(self.entries@, i);
    }

    /// The empty store.
    pub fn new() -> (r: Store)
        ensures
            r@ == Map::<Seq<char>, Seq<char>>::empty(),
            r.wf(),
    {
        Store { entries: Vec::new() }
    }

    /// The position of `name`, if it is bound.
    fn find(&self, name: &String) -> (r: Option<usize>)
        ensures
            (match r {
                Some(ix) => ix < self.entries@.len() && self.entries@[ix as int].0@ == name@,
                None => forall|i: int|
                    0 <= i < self.entries@.len() ==> (#[trigger] self.entries@[i].0)@ != name@,
            }),
    {
        let n = self.entries.len();
        let mut k: usize = 0;
        while k < n
            invariant
                k <= n,
                n == self.entries@.len(),
                forall|i: int| 0 <= i < k ==> (#[trigger] self.entries@[i].0)@ != name@,
            decreases n - k,
        {
            if self.entries[k].0.eq(name) {
                return Some(k);
            }
            k = k + 1;
        }
        None
    }

    /// The text bound to `name`, if any.
    pub fn get(&self, name: &String) -> (r: Option<&String>)
        requires
            self.wf(),
        ensures
            (match r {
                Some(t) => self@.dom().contains(name@) && t@ == self@[name@],
                None => !self@.dom().contains(name@),
            }),
    {
        proof {
            lemma_snaps_map_dom(self.entries@, name@);
        }
        match self.find(name) {
            Some(ix) => {
                proof {
                    self.lemma_at(ix as int);
                }
                Some(&self.entries[ix].1)
            },
            None => None,
        }
    }

    /// Binds `name` to `text`, replacing any earlier binding.
    pub fn put(&mut self, name: String, text: String)
        requires
            old(self).wf(),
        ensures
            final(self).wf(),
            final(self)@ == old(self)@.insert(name@, text@),
    {
        proof {
            lemma_snaps_map_dom(old(self).entries@, name@);
        }
        match self.find(&name) {
            Some(ix) => {
                let ghost pre = self.entries@;
                self.entries.set(ix, (name, text));
                proof {
                    lemma_snaps_map_update(pre, ix as int, self.entries@[ix as int]);
                    assert(self@ =~= old(self)@.insert(
                        self.entries@[ix as int].0@,
                        self.entries@[ix as int].1@,
                    ));
                }
            },
            None => {
                let ghost pre = self.entries@;
                self.entries.push((name, text));
                proof {
                    assert(self.entries@.drop_last() =~= pre);
                    assert(self@ == snaps_map(pre).insert(name@, text@));
                }
            },
        }
    }

    /// The stored snapshot names, in storage order.
    pub fn names(&self) -> (r: Vec<String>)
        ensures
            r@.len() == self.entries@.len(),
            forall|i: int| 0 <= i < r@.len() ==> (#[trigger] r@[i])@ == self.entries@[i].0@,
    {
        let n = self.entries.len();
        let mut r: Vec<String> = Vec::new();
        let mut k: usize = 0;
        while k < n
            invariant
                k <= n,
                n == self.entries@.len(),
                r@.len() == k,
                forall|i: int| 0 <= i < k ==> (#[trigger] r@[i])@ == self.entries@[i].0@,
            decreases n - k,
        {
            r.push(self.entries[k].0.clone());
            k = k + 1;
        }
        r
    }
}

/// An update in place rebinds that entry's name.
proof fn lemma_snaps_map_update(s: Seq<(String, String)>, ix: int, p: (String, String))
    requires
        0 <= ix < s.len(),
        forall|i: int, j: int| 0 <= i < j < s.len() ==> (#[trigger] s[i].0)@ != (#[trigger] s[j].0)@,
        p.0@ == s[ix].0@,
    ensures
        snaps_map(s.update(ix, p)) == snaps_map(s).insert(p.0@, p.1@),
    decreases s.len(),
{
    let u = s.update(ix, p);
    if ix == s.len() - 1 {
        assert(u.drop_last() =~= s.drop_last());
        assert(u.last() == p);
        assert(snaps_map(s).insert(p.0@, p.1@) =~= snaps_map(s.drop_last()).insert(p.0@, p.1@));
    } else {
        assert(u.last() == s.last());
        assert(u.drop_last() =~= s.drop_last().update(ix, p));
        assert(forall|i: int| 0 <= i < s.len() - 1 ==> s.drop_last()[i] == s[i]);
        lemma_snaps_map_update(s.drop_last(), ix, p);
        assert(s.last().0@ != p.0@);
        assert(snaps_map(u) == snaps_map(s.drop_last()).insert(p.0@, p.1@).insert(
            s.last().0@,
            s.last().1@,
        ));
        assert(snaps_map(s.drop_last()).insert(p.0@, p.1@).insert(s.last().0@, s.last().1@)
            =~= snaps_map(s).insert(p.0@, p.1@));
    }
}

// ---------------------------------------------------------------------
// The commands' compute halves. Each one works on the whole store and
// says exactly how the map changes and when each error comes.
// ---------------------------------------------------------------------
/// Saves a ledger under `name`, overwriting any earlier snapshot.
pub fn save_ledger(store: &mut Store, name: &String, ledger: &Ledger)
    requires
        old(store).wf(),
    ensures
        final(store).wf(),
        final(store)@ == old(store)@.insert(name@, enc_ledger(ledger@)),
{
    let text = encode(ledger);
    store.put(name.clone(), text);
}

/// Loads the ledger saved under `name`. Fails with `NotFound` when no
/// snapshot has that name, and with `DecodeError` when the stored text
/// is not a ledger encoding.
pub fn load_ledger(store: &Store, name: &String) -> (r: Result<Ledger, Error>)
    requires
        store.wf(),
    ensures
        (match r {
            Ok(l) => stored_ledger(store@, name@) == Some(l@) && l.wf(),
            Err(e) => stored_ledger(store@, name@) is None && (match e {
                Error::NotFound(n) => n@ == name@ && !store@.dom().contains(name@),
                Error::DecodeError => store@.dom().contains(name@),
                _ => false,
            }),
        }),
{
    match store.get(name) {
        None => Err(Error::NotFound(name.clone())),
        Some(text) => match decode(text.as_str()) {
            None => Err(Error::DecodeError),
            Some(l) => Ok(l),
        },
    }
}

/// Saves a ledger as the active one.
pub fn save_current_ledger(store: &mut Store, ledger: &Ledger)
    requires
        old(store).wf(),
    ensures
        final(store).wf(),
        final(store)@ == old(store)@.insert(current_name(), enc_ledger(ledger@)),
{
    let name = current_name_str().to_owned();
    crate::store::save_ledger(store, &name, ledger);
}

/// Loads the active ledger.
pub fn load_current_ledger(store: &Store) -> (r: Result<Ledger, Error>)
    requires
        store.wf(),
    ensures
        (match r {
            Ok(l) => stored_ledger(store@, current_name()) == Some(l@) && l.wf(),
            Err(e) => stored_ledger(store@, current_name()) is None && (match e {
                Error::NotFound(n) => n@ == current_name() && !store@.dom().contains(
                    current_name(),
                ),
                Error::DecodeError => store@.dom().contains(current_name()),
                _ => false,
            }),
        }),
{
    let name = current_name_str().to_owned();
    crate::store::load_ledger(store, &name)
}

/// Resets the active ledger to empty.
pub fn init(store: &mut Store)
    requires
        old(store).wf(),
    ensures
        final(store).wf(),
        final(store)@ == old(store)@.insert(
            current_name(),
            enc_ledger(Seq::<TransactionV>::empty()),
        ),
{
    let l = Ledger::new();
    crate::store::save_current_ledger(store, &l);
}

/// Adds a transaction to the active ledger and saves it. A name that is
/// already taken fails with `DuplicateName` and leaves the store — and
/// so the stored file — exactly as it was.
pub fn add(store: &mut Store, tx: Transaction) -> (r: Result<(), Error>)
    requires
        old(store).wf(),
        tx@.wf(),
    ensures
        final(store).wf(),
        (match r {
            Ok(()) => {
                &&& stored_ledger(old(store)@, current_name()) is Some
                &&& !contains_name(stored_ledger(old(store)@, current_name())->0, tx@.name)
                &&& final(store)@ == old(store)@.insert(
                    current_name(),
                    enc_ledger(stored_ledger(old(store)@, current_name())->0.push(tx@)),
                )
            },
            Err(e) => final(store)@ == old(store)@ && (match e {
                Error::DuplicateName(n) => n@ == tx@.name && stored_ledger(
                    old(store)@,
                    current_name(),
                ) is Some && contains_name(
                    stored_ledger(old(store)@, current_name())->0,
                    tx@.name,
                ),
                Error::NotFound(n) => n@ == current_name() && !old(store)@.dom().contains(
                    current_name(),
                ),
                Error::DecodeError => old(store)@.dom().contains(current_name()) && stored_ledger(
                    old(store)@,
                    current_name(),
                ) is None,
                _ => false,
            }),
        }),
{
    let mut l = match crate::store::load_current_ledger(store) {
        Ok(l) => l,
        Err(e) => {
            return Err(e);
        },
    };
    if l.contains(&tx.name) {
        return Err(Error::DuplicateName(tx.name.clone()));
    }
    l.push(tx);
    crate::store::save_current_ledger(store, &l);
    Ok(())
}

/// Removes the entry named `name` from the active ledger and saves it.
/// A name that is not present is no error: the unchanged ledger is
/// still written back.
pub fn rm(store: &mut Store, name: &String) -> (r: Result<(), Error>)
    requires
        old(store).wf(),
    ensures
        final(store).wf(),
        (match r {
            Ok(()) => {
                &&& stored_ledger(old(store)@, current_name()) is Some
                &&& final(store)@ == old(store)@.insert(
                    current_name(),
                    enc_ledger(
                        remove_named(stored_ledger(old(store)@, current_name())->0, name@),
                    ),
                )
            },
            Err(e) => final(store)@ == old(store)@ && (match e {
                Error::NotFound(n) => n@ == current_name() && !old(store)@.dom().contains(
                    current_name(),
                ),
                Error::DecodeError => old(store)@.dom().contains(current_name()) && stored_ledger(
                    old(store)@,
                    current_name(),
                ) is None,
                _ => false,
            }),
        }),
{
    let mut l = match crate::store::load_current_ledger(store) {
        Ok(l) => l,
        Err(e) => {
            return Err(e);
        },
    };
    l.remove_name(name);
    crate::store::save_current_ledger(store, &l);
    Ok(())
}

/// The rows that `list` shows: frequency, kind, name and amount of each
/// entry of the active ledger, in its iteration order.
pub fn list(store: &Store) -> (r: Result<Vec<(Frequency, Kind, String, Money)>, Error>)
    requires
        store.wf(),
    ensures
        (match r {
            Ok(rows) => {
                &&& stored_ledger(store@, current_name()) is Some
                &&& rows@.len() == stored_ledger(store@, current_name())->0.len()
                &&& forall|i: int|
                    0 <= i < rows@.len() ==> {
                        let t = stored_ledger(store@, current_name())->0[i];
                        (#[trigger] rows@[i]).0 == t.freq && rows@[i].1 == t.kind && rows@[i].2@
                            == t.name && rows@[i].3.cents == t.amount
                    }
            },
            Err(e) => stored_ledger(store@, current_name()) is None && (match e {
                Error::NotFound(n) => n@ == current_name() && !store@.dom().contains(
                    current_name(),
                ),
                Error::DecodeError => store@.dom().contains(current_name()),
                _ => false,
            }),
        }),
{
    let l = match crate::store::load_current_ledger(store) {
        Ok(l) => l,
        Err(e) => {
            return Err(e);
        },
    };
    let n = l.entries.len();
    let mut rows: Vec<(Frequency, Kind, String, Money)> = Vec::new();
    let mut k: usize = 0;
    while k < n
        invariant
            k <= n,
            n == l.entries@.len(),
            l@.len() == l.entries@.len(),
            rows@.len() == k,
            forall|i: int|
                0 <= i < k ==> {
                    let t = l@[i];
                    (#[trigger] rows@[i]).0 == t.freq && rows@[i].1 == t.kind && rows@[i].2@
                        == t.name && rows@[i].3.cents == t.amount
                },
        decreases n - k,
    {
        let e = &l.entries[k];
        rows.push((e.freq, e.kind, e.name.clone(), e.amount));
        k = k + 1;
    }
    Ok(rows)
}

/// Copies the snapshot `from` onto the snapshot `to`: it loads one and
/// saves the other, as the explicit save/load commands and the
/// backup/restore pair all do.
pub fn copy(store: &mut Store, from: &String, to: &String) -> (r: Result<(), Error>)
    requires
        old(store).wf(),
    ensures
        final(store).wf(),
        (match r {
            Ok(()) => stored_ledger(old(store)@, from@) is Some && final(store)@ == old(
                store,
            )@.insert(to@, enc_ledger(stored_ledger(old(store)@, from@)->0)),
            Err(e) => final(store)@ == old(store)@ && stored_ledger(old(store)@, from@) is None
                && (match e {
                Error::NotFound(n) => n@ == from@ && !old(store)@.dom().contains(from@),
                Error::DecodeError => old(store)@.dom().contains(from@),
                _ => false,
            }),
        }),
{
    let l = match crate::store::load_ledger(store, from) {
        Ok(l) => l,
        Err(e) => {
            return Err(e);
        },
    };
    crate::store::save_ledger(store, to, &l);
    Ok(())
}

/// Saves the active ledger under `name`.
pub fn save(store: &mut Store, name: &String) -> (r: Result<(), Error>)
    requires
        old(store).wf(),
    ensures
        final(store).wf(),
        (match r {
            Ok(()) => stored_ledger(old(store)@, current_name()) is Some && final(store)@ == old(
                store,
            )@.insert(name@, enc_ledger(stored_ledger(old(store)@, current_name())->0)),
            Err(e) => final(store)@ == old(store)@ && stored_ledger(
                old(store)@,
                current_name(),
            ) is None,
        }),
{
    let cur = current_name_str().to_owned();
    crate::store::copy(store, &cur, name)
}

/// Makes the ledger saved under `name` the active one.
pub fn load(store: &mut Store, name: &String) -> (r: Result<(), Error>)
    requires
        old(store).wf(),
    ensures
        final(store).wf(),
        (match r {
            Ok(()) => stored_ledger(old(store)@, name@) is Some && final(store)@ == old(
                store,
            )@.insert(current_name(), enc_ledger(stored_ledger(old(store)@, name@)->0)),
            Err(e) => final(store)@ == old(store)@ && stored_ledger(old(store)@, name@) is None,
        }),
{
    let cur = current_name_str().to_owned();
    crate::store::copy(store, name, &cur)
}

/// Saves the active ledger as the backup snapshot.
pub fn backup(store: &mut Store) -> (r: Result<(), Error>)
    requires
        old(store).wf(),
    ensures
        final(store).wf(),
        (match r {
            Ok(()) => stored_ledger(old(store)@, current_name()) is Some && final(store)@ == old(
                store,
            )@.insert(backup_name(), enc_ledger(stored_ledger(old(store)@, current_name())->0)),
            Err(e) => final(store)@ == old(store)@ && stored_ledger(
                old(store)@,
                current_name(),
            ) is None,
        }),
{
    let b = backup_name_str().to_owned();
    crate::store::save(store, &b)
}

/// Makes the backup snapshot the active ledger again.
pub fn restore(store: &mut Store) -> (r: Result<(), Error>)
    requires
        old(store).wf(),
    ensures
        final(store).wf(),
        (match r {
            Ok(()) => stored_ledger(old(store)@, backup_name()) is Some && final(store)@ == old(
                store,
            )@.insert(current_name(), enc_ledger(stored_ledger(old(store)@, backup_name())->0)),
            Err(e) => final(store)@ == old(store)@ && stored_ledger(
                old(store)@,
                backup_name(),
            ) is None,
        }),
{
    let b = backup_name_str().to_owned();
    crate::store::load(store, &b)
}

/// Round trip at the store: a ledger saved under a name is exactly what
/// loading that name gives back, entry for entry, whatever else the
/// store holds.
pub proof fn lemma_save_load_round_trip(
    m: Map<Seq<char>, Seq<char>>,
    name: Seq<char>,
    lv: Seq<TransactionV>,
)
    requires
        unique_names(lv),
        forall|i: int| 0 <= i < lv.len() ==> (#[trigger] lv[i]).wf(),
    ensures
        stored_ledger(m.insert(name, enc_ledger(lv)), name) == Some(lv),
{
    lemma_parse_of_encode(lv);
}

/// Backup, then any overwrite of the active ledger, then restore, gives
/// the active ledger back as it was before the overwrite: `backup` binds
/// the backup name to the active ledger's encoding, the overwrite cannot
/// touch that binding, and `restore` decodes it to the very entries.
pub proof fn lemma_backup_restore(m0: Map<Seq<char>, Seq<char>>, lv: Seq<TransactionV>, c: Seq<char>)
    requires
        stored_ledger(m0, current_name()) == Some(lv),
        forall|i: int| 0 <= i < lv.len() ==> (#[trigger] lv[i]).wf(),
    ensures
        ({
            let after_backup = m0.insert(backup_name(), enc_ledger(lv));
            let mutated = after_backup.insert(current_name(), c);
            let after_restore = mutated.insert(
                current_name(),
                enc_ledger(stored_ledger(mutated, backup_name())->0),
            );
            stored_ledger(mutated, backup_name()) == Some(lv) && stored_ledger(
                after_restore,
                current_name(),
            ) == Some(lv)
        }),
{
    assert(current_name() != backup_name()) by {
        assert(current_name().len() == 7);
        assert(backup_name().len() == 6);
    }
    let after_backup = m0.insert(backup_name(), enc_ledger(lv));
    let mutated = after_backup.insert(current_name(), c);
    assert(mutated[backup_name()] == enc_ledger(lv));
    lemma_parse_of_encode(lv);
    assert(unique_names(lv));
    assert(stored_ledger(mutated, backup_name()) == Some(lv));
    let after_restore = mutated.insert(current_name(), enc_ledger(lv));
    assert(after_restore[current_name()] == enc_ledger(lv));
    assert(stored_ledger(after_restore, current_name()) == Some(lv));
}

/// A helper for `lemma_at`: the prefix agrees with the whole map on the
/// prefix's own names.
proof fn lemma_snaps_map_sub(s: Seq<(String, String)>, i: int)
    requires
        0 <= i < s.len(),
        forall|x: int, y: int| 0 <= x < y < s.len() ==> (#[trigger] s[x].0)@ != (#[trigger] s[y].0)@,
    ensures
        snaps_map(s).dom().contains(s[i].0@),
        snaps_map(s)[s[i].0@] == s[i].1@,
    decreases s.len(),
{
    if i == s.len() - 1 {
    } else {
        assert(s.last().0@ != s[i].0@);
        let shorter = s.drop_last();
        assert(forall|x: int| 0 <= x < shorter.len() ==> shorter[x] == s[x]);
        lemma_snaps_map_sub(shorter, i);
    }
}

} // verus!
