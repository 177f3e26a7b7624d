//! Transactions and the ledger that holds them: a collection of recurring
//! entries keyed by their unique names.

use vstd::prelude::*;
use crate::money::{Money, MAX_CENTS};

verus! {

/// Whether an entry brings money in or takes it out.
#[derive(Clone, Copy, PartialEq, Eq, Structural, Debug)]
pub enum Kind {
    Income,
    Expense,
}

/// How often a transaction recurs.
#[derive(Clone, Copy, PartialEq, Eq, Structural, Debug)]
pub enum Frequency {
    Daily,
    Workdays,
    Weekly,
    Monthly,
    Quarterly,
    Yearly,
}

/// The mathematical image of a transaction.
pub struct TransactionV {
    pub kind: Kind,
    pub freq: Frequency,
    pub name: Seq<char>,
    pub amount: u64,
    pub category: Option<Seq<char>>,
    pub account: Option<Seq<char>>,
}

impl TransactionV {
    /// The stored amount lies in the range the arithmetic is proved for.
    pub open spec fn wf(self) -> bool {
        self.amount <= MAX_CENTS
    }
}

/// A recurring income or expense record. The name is the identity key
/// within a ledger; category and account are optional tags that only
/// expenses use during reporting.
#[derive(Debug)]
pub struct Transaction {
    pub kind: Kind,
    pub freq: Frequency,
    pub name: String,
    pub amount: Money,
    pub category: Option<String>,
    pub account: Option<String>,
}

impl View for Transaction {
    type V = TransactionV;

    open spec fn view(&self) -> TransactionV {
        TransactionV {
            kind: self.kind,
            freq: self.freq,
            name: self.name@,
            amount: self.amount.cents,
            category: match self.category {
                Some(c) => Some(c@),
                None => None,
            },
            account: match self.account {
                Some(a) => Some(a@),
                None => None,
            },
        }
    }
}

/// Whether some entry of `s` is named `name`.
pub open spec fn contains_name(s: Seq<TransactionV>, name: Seq<char>) -> bool {
    exists|i: int| 0 <= i < s.len() && s[i].name == name
}

/// Whether all entries of `s` carry pairwise distinct names.
pub open spec fn unique_names(s: Seq<TransactionV>) -> bool {
    forall|i: int, j: int| 0 <= i < j < s.len() ==> s[i].name != s[j].name
}

/// The entries of `s` with the one named `name` taken out; a sequence
/// without that name stays as it is.
pub open spec fn remove_named(s: Seq<TransactionV>, name: Seq<char>) -> Seq<TransactionV>
    decreases s.len(),
{
    if s.len() == 0 {
        s
    } else if s[0].name == name {
        s.drop_first()
    } else {
        seq![s[0]] + remove_named(s.drop_first(), name)
    }
}

/// Removing a name that is not there changes nothing.
pub proof fn lemma_remove_named_absent(s: Seq<TransactionV>, name: Seq<char>)
    requires
        !contains_name(s, name),
    ensures
        remove_named(s, name) == s,
    decreases s.len(),
{
    if s.len() > 0 {
        assert(s[0].name != name);
        assert(!contains_name(s.drop_first(), name)) by {
            assert(forall|i: int|
                0 <= i < s.drop_first().len() ==> s.drop_first()[i] == s[i + 1]);
        }
        lemma_remove_named_absent(s.drop_first(), name);
        assert(seq![s[0]] + s.drop_first() =~= s);
    }
}

/// Removing the entry at the first index that carries `name` is what
/// `remove_named` does.
pub proof fn lemma_remove_named_at(s: Seq<TransactionV>, name: Seq<char>, k: int)
    requires
        0 <= k < s.len(),
        s[k].name == name,
        forall|i: int| 0 <= i < k ==> s[i].name != name,
    ensures
        remove_named(s, name) == s.remove(k),
    decreases k,
{
    if k == 0 {
        assert(remove_named(s, name) == s.drop_first());
        assert(s.drop_first() =~= s.remove(0));
    } else {
        assert(s[0].name != name);
        assert(s.drop_first()[k - 1].name == name);
        assert(forall|i: int| 0 <= i < k - 1 ==> s.drop_first()[i] == s[i + 1]);
        lemma_remove_named_at(s.drop_first(), name, k - 1);
        assert(seq![s[0]] + s.drop_first().remove(k - 1) =~= s.remove(k));
    }
}

/// The images of a sequence of transactions.
pub open spec fn txs_view(s: Seq<Transaction>) -> Seq<TransactionV> {
    Seq::new(s.len(), |i: int| s[i]@)
}

/// A ledger: transactions with pairwise distinct names. Iteration order
/// is the insertion order of the entries; no operation promises an order
/// to its callers.
pub struct Ledger {
    pub entries: Vec<Transaction>,
}

impl View for Ledger {
    type V = Seq<TransactionV>;

    open spec fn view(&self) -> Seq<TransactionV> {
        txs_view(self.entries@)
    }
}

impl Ledger {
    /// Names are unique and every amount is in range.
    pub open spec fn wf(self) -> bool {
        &&& unique_names(self@)
        &&& forall|i: int| 0 <= i < self@.len() ==> (#[trigger] self@[i]).wf()
    }

    /// The empty ledger.
    pub fn new() -> (l: Ledger)
        ensures
            l@ == Seq::<TransactionV>::empty(),
            l.wf(),
    {
        let l = Ledger { entries: Vec::new() };
        proof {
            assert(l@ =~= Seq::<TransactionV>::empty());
        }
        l
    }

    /// How many entries the ledger holds.
    pub fn len(&self) -> (n: usize)
        ensures
            n == self@.len(),
    {
        self.entries.len()
    }

    /// Whether an entry named `name` is present.
    pub fn contains(&self, name: &String) -> (b: bool)
        ensures
            b == contains_name(self@, name@),
    {
        let n = self.entries.len();
        let mut k: usize = 0;
        while k < n
            invariant
                0 <= k <= n,
                n == self@.len(),
                self@.len() == self.entries@.len(),
                forall|i: int| 0 <= i < k ==> self@[i].name != name@,
            decreases n - k,
        {
            if self.entries[k].name.eq(name) {
                assert(self@[k as int].name == name@);
                return true;
            }
            k = k + 1;
        }
        false
    }

    /// Appends a transaction whose name is not yet taken.
    pub fn push(&mut self, tx: Transaction)
        requires
            old(self).wf(),
            !contains_name(old(self)@, tx@.name),
            tx@.wf(),
        ensures
            final(self)@ == old(self)@.push(tx@),
            final(self).wf(),
    {
        self.entries.push(tx);
        proof {
            assert(self@ =~= old(self)@.push(tx@));
        }
    }

    /// Removes the entry named `name`, if one is present; absence is not
    /// an error and leaves the ledger as it was.
    pub fn remove_name(&mut self, name: &String)
        requires
            old(self).wf(),
        ensures
            final(self).wf(),
            final(self)@ == remove_named(old(self)@, name@),
    {
        let n = self.entries.len();
        let mut k: usize = 0;
        while k < n
            invariant
                0 <= k <= n,
                n == self@.len(),
                self@.len() == self.entries@.len(),
                self == old(self),
                old(self).wf(),
                forall|i: int| 0 <= i < k ==> self@[i].name != name@,
            decreases n - k,
        {
            if self.entries[k].name.eq(name) {
                let ghost pre = self@;
                self.entries.remove(k);
                proof {
                    assert(pre[k as int].name == name@);
                    assert(self@ =~= pre.remove(k as int));
                    lemma_remove_named_at(pre, name@, k as int);
                    assert forall|i: int, j: int|
                        0 <= i < j < self@.len() implies self@[i].name != self@[j].name by {
                        let pi = if i < k as int { i } else { i + 1 };
                        let pj = if j < k as int { j } else { j + 1 };
                        assert(self@[i] == pre[pi]);
                        assert(self@[j] == pre[pj]);
                    }
                    assert forall|i: int| 0 <= i < self@.len() implies (#[trigger] self@[i]).wf()
                        by {
                        let pi = if i < k as int { i } else { i + 1 };
                        assert(self@[i] == pre[pi]);
                    }
                }
                return ;
            }
            k = k + 1;
        }
        proof {
            assert(!contains_name(self@, name@));
            lemma_remove_named_absent(self@, name@);
        }
    }
}

} // verus!
