//! The account ledger: per-account, insertion-ordered histories of resolved
//! posting quantities, accumulated one transaction at a time.
use vstd::prelude::*;
use crate::quantity::Quantity;
use crate::transaction::{Transaction, LedgerError};
use crate::resolve::{resolve, resolve_views, resolvable, absent_count, running_sub, views_of,
    views_wf};

verus! {

/// One account's history: its name and the quantities posted to it, oldest
/// first.
pub struct AccountEntry {
    pub account: String,
    pub values: Vec<Quantity>,
}

/// The ledger state, modelled as a map from account name to its ordered
/// quantity sequence.
pub struct Accounts {
    entries: Vec<AccountEntry>,
}

/// The map an entry sequence denotes.
pub open spec fn map_of(s: Seq<AccountEntry>) -> Map<Seq<char>, Seq<Quantity>>
    decreases s.len(),
{
    if s.len() == 0 {
        Map::empty()
    } else {
        map_of(s.drop_last()).insert(s.last().account@, s.last().values@)
    }
}

/// Entry names are pairwise distinct, every stored quantity is well-formed,
/// and no history is empty: an account exists only together with its first
/// value.
pub open spec fn entries_wf(s: Seq<AccountEntry>) -> bool {
    &&& forall|i: int, j: int|
        0 <= i < j < s.len() ==> (#[trigger] s[i]).account@ != (#[trigger] s[j]).account@
    &&& forall|i: int, k: int|
        0 <= i < s.len() && 0 <= k < (#[trigger] s[i]).values@.len() ==> (#[trigger] s[i].values@[k]).wf()
    &&& forall|i: int| 0 <= i < s.len() ==> (#[trigger] s[i]).values@.len() > 0
}

/// One resolved posting folded into the map: its quantity appended to its
/// account's sequence, which starts empty for an unseen account.
pub open spec fn append_one(
    m: Map<Seq<char>, Seq<Quantity>>,
    a: Seq<char>,
    q: Quantity,
) -> Map<Seq<char>, Seq<Quantity>> {
    m.insert(a, (if m.contains_key(a) {
        m[a]
    } else {
        Seq::empty()
    }).push(q))
}

/// A resolved sequence folded into the map, first posting first.
pub open spec fn apply_views(
    m: Map<Seq<char>, Seq<Quantity>>,
    rs: Seq<(Seq<char>, Quantity)>,
) -> Map<Seq<char>, Seq<Quantity>>
    decreases rs.len(),
{
    if rs.len() == 0 {
        m
    } else {
        apply_views(append_one(m, rs[0].0, rs[0].1), rs.drop_first())
    }
}

/// With distinct names, the denoted map has exactly the entries' keys, each
/// bound to its entry's values.
pub proof fn lemma_map_of_index(s: Seq<AccountEntry>)
    requires
        forall|i: int, j: int|
            0 <= i < j < s.len() ==> (#[trigger] s[i]).account@ != (#[trigger] s[j]).account@,
    ensures
        forall|k: Seq<char>|
            map_of(s).contains_key(k) <==> exists|i: int|
                0 <= i < s.len() && (#[trigger] s[i]).account@ == k,
        forall|i: int| 0 <= i < s.len() ==> map_of(s)[(#[trigger] s[i]).account@] == s[i].values@,
    decreases s.len(),
{
    if s.len() > 0 {
        let dl = s.drop_last();
        lemma_map_of_index(dl);
        assert forall|i: int| 0 <= i < s.len() implies map_of(s)[(#[trigger] s[i]).account@]
            == s[i].values@ by {
            if i < s.len() - 1 {
                assert(dl[i] == s[i]);
                assert(s[i].account@ != s[s.len() - 1].account@);
            }
        }
        assert forall|k: Seq<char>| map_of(s).contains_key(k) implies exists|i: int|
            0 <= i < s.len() && (#[trigger] s[i]).account@ == k by {
            if k == s.last().account@ {
                assert(s[s.len() - 1].account@ == k);
            } else {
                assert(map_of(dl).contains_key(k));
                let i = choose|i: int| 0 <= i < dl.len() && (#[trigger] dl[i]).account@ == k;
                assert(dl[i] == s[i]);
                assert(s[i].account@ == k);
            }
        }
        assert forall|k: Seq<char>| (exists|i: int|
            0 <= i < s.len() && (#[trigger] s[i]).account@ == k) implies map_of(s).contains_key(
            k,
        ) by {
            let i = choose|i: int| 0 <= i < s.len() && (#[trigger] s[i]).account@ == k;
            if i < s.len() - 1 {
                assert(dl[i] == s[i]);
            }
        }
    }
}

/// Updating one entry in place, keeping its name, rebinds just that key.
pub proof fn lemma_map_of_update(s: Seq<AccountEntry>, i: int, e: AccountEntry)
    requires
        0 <= i < s.len(),
        forall|x: int, y: int|
            0 <= x < y < s.len() ==> (#[trigger] s[x]).account@ != (#[trigger] s[y]).account@,
        e.account@ == s[i].account@,
    ensures
        map_of(s.update(i, e)) == map_of(s).insert(e.account@, e.values@),
    decreases s.len(),
{
    let s2 = s.update(i, e);
    if i == s.len() - 1 {
        assert(s2.drop_last() =~= s.drop_last());
        assert(s2.last() == e);
        assert(map_of(s2) =~= map_of(s).insert(e.account@, e.values@));
    } else {
        let dl = s.drop_last();
        lemma_map_of_update(dl, i, e);
        assert(s2.drop_last() =~= dl.update(i, e));
        assert(s2.last() == s.last());
        assert(s.last().account@ != e.account@);
        assert(map_of(s2) == map_of(dl.update(i, e)).insert(s.last().account@, s.last().values@));
        assert(map_of(s2) =~= map_of(s).insert(e.account@, e.values@));
    }
}

impl Accounts {
    /// The sequences every account maps to.
    pub closed spec fn view(&self) -> Map<Seq<char>, Seq<Quantity>> {
        map_of(self.entries@)
    }

    /// Ledger well-formedness: one entry per account, well-formed values.
    pub closed spec fn wf(&self) -> bool {
        entries_wf(self.entries@)
    }

    /// An empty ledger, the start of a processing run.
    pub fn new() -> (r: Accounts)
        ensures
            r.wf(),
            r@ == Map::<Seq<char>, Seq<Quantity>>::empty(),
    {
        Accounts { entries: Vec::new() }
    }

    /// Append one resolved quantity to its account's history, creating the
    /// account on first sight.
    fn push_value(&mut self, account: &String, q: Quantity)
        requires
            old(self).wf(),
            q.wf(),
        ensures
            final(self).wf(),
            final(self)@ == append_one(old(self)@, account@, q),
    {
        proof {
            lemma_map_of_index(self.entries@);
        }
        let n = self.entries.len();
        let mut i: usize = 0;
        while i < n
            invariant
                self == old(self),
                self.wf(),
                q.wf(),
                n == self.entries@.len(),
                i <= n,
                forall|k: int| 0 <= k < i ==> (#[trigger] self.entries@[k]).account@ != account@,
            decreases n - i,
        {
            if self.entries[i].account == *account {
                let ghost s = self.entries@;
                proof {
                    assert(s == old(self).entries@);
                    assert(entries_wf(s));
                }
                let e = &mut self.entries[i];
                e.values.push(q);
                proof {
                    lemma_map_of_index(s);
                    lemma_map_of_update(s, i as int, self.entries@[i as int]);
                    assert(self.entries@ == s.update(i as int, self.entries@[i as int]));
                    assert forall|x: int, y: int|
                        0 <= x < y < self.entries@.len() implies (#[trigger] self.entries@[x]).account@
                        != (#[trigger] self.entries@[y]).account@ by {
                        assert(self.entries@[x].account@ == s[x].account@);
                        assert(self.entries@[y].account@ == s[y].account@);
                    }
                }
                return ;
            }
            i = i + 1;
        }
        let mut values: Vec<Quantity> = Vec::new();
        values.push(q);
        let ghost s = self.entries@;
        self.entries.push(AccountEntry { account: account.clone(), values });
        proof {
            assert(self.entries@.drop_last() =~= s);
            assert(!map_of(s).contains_key(account@));
            assert(self.entries@.last().values@ =~= Seq::<Quantity>::empty().push(q));
            assert forall|x: int, y: int|
                0 <= x < y < self.entries@.len() implies (#[trigger] self.entries@[x]).account@
                != (#[trigger] self.entries@[y]).account@ by {
                if y < self.entries@.len() - 1 {
                    assert(self.entries@[x] == s[x] && self.entries@[y] == s[y]);
                } else {
                    assert(self.entries@[x] == s[x]);
                }
            }
        }
    }

    /// Apply one transaction: resolve its postings, then append each
    /// resolved quantity to its account's history in resolved order. On any
    /// error the ledger is left untouched.
    pub fn update_accounts(&mut self, t: &Transaction) -> (r: Result<(), LedgerError>)
        requires
            old(self).wf(),
            t.wf(),
        ensures
            final(self).wf(),
            r is Ok <==> resolvable(t.postings@),
            (absent_count(t.postings@) >= 2) <==> (r == Err::<(), LedgerError>(
                LedgerError::MalformedTransaction,
            )),
            (absent_count(t.postings@) == 1 && running_sub(t.postings@) is None) <==> (r == Err::<
                (),
                LedgerError,
            >(LedgerError::ArithmeticOverflow)),
            r is Err ==> final(self)@ == old(self)@,
            r is Ok ==> final(self)@ == apply_views(old(self)@, resolve_views(t.postings@)),
    {
        let resolved = match resolve(t) {
            Ok(v) => v,
            Err(e) => {
                return Err(e);
            },
        };
        let ghost rs = resolve_views(t.postings@);
        let ghost m0 = self@;
        proof {
            assert(rs.skip(0) =~= rs);
        }
        let n = resolved.len();
        let mut i: usize = 0;
        while i < n
            invariant
                self.wf(),
                n == resolved@.len(),
                i <= n,
                rs == views_of(resolved@),
                views_wf(rs),
                apply_views(m0, rs) == apply_views(self@, rs.skip(i as int)),
            decreases n - i,
        {
            let rp = &resolved[i];
            proof {
                assert(rs[i as int] == (rp.account@, rp.quantity));
                assert(rs.skip(i as int).drop_first() =~= rs.skip(i as int + 1));
                assert(rs.skip(i as int)[0] == rs[i as int]);
            }
            self.push_value(&rp.account, rp.quantity);
            i = i + 1;
        }
        proof {
            assert(rs.skip(n as int) =~= Seq::<(Seq<char>, Quantity)>::empty());
        }
        Ok(())
    }

    /// The full ordered history of an account, or `None` for an account no
    /// posting has touched. Callers must treat the sequence as immutable.
    pub fn get<'a>(&'a self, account: &String) -> (r: Option<&'a Vec<Quantity>>)
        requires
            self.wf(),
        ensures
            match r {
                Some(v) => self@.contains_key(account@) && v@ == self@[account@] && forall|k: int|
                    0 <= k < v@.len() ==> (#[trigger] v@[k]).wf(),
                None => !self@.contains_key(account@),
            },
    {
        proof {
            lemma_map_of_index(self.entries@);
        }
        let n = self.entries.len();
        let mut i: usize = 0;
        while i < n
            invariant
                self.wf(),
                n == self.entries@.len(),
                i <= n,
                forall|k: int| 0 <= k < i ==> (#[trigger] self.entries@[k]).account@ != account@,
            decreases n - i,
        {
            if self.entries[i].account == *account {
                proof {
                    lemma_map_of_index(self.entries@);
                }
                return Some(&self.entries[i].values);
            }
            i = i + 1;
        }
        None
    }
}

/// One account's balance history with the bounds a chart needs: its ordered
/// quantities and their minimum and maximum.
#[derive(Debug)]
pub struct BalanceSeries {
    pub values: Vec<Quantity>,
    pub min: Quantity,
    pub max: Quantity,
}

impl Accounts {
    /// The ordered quantity sequence of an account together with its
    /// extremes, for scaling a chart. Fails with `AccountNotFound` exactly
    /// when no transaction has touched the account; a touched account always
    /// has at least one value, so the extremes exist.
    pub fn series_for(&self, account: &String) -> (r: Result<BalanceSeries, LedgerError>)
        requires
            self.wf(),
        ensures
            r is Err <==> !self@.contains_key(account@),
            r is Err ==> r == Err::<BalanceSeries, LedgerError>(LedgerError::AccountNotFound),
            r is Ok ==> ({
                let s = r.unwrap();
                &&& s.values@ == self@[account@]
                &&& exists|i: int| 0 <= i < s.values@.len() && s.min == s.values@[i]
                &&& exists|i: int| 0 <= i < s.values@.len() && s.max == s.values@[i]
                &&& forall|i: int|
                    0 <= i < s.values@.len() ==> s.min.scaled() <= (#[trigger] s.values@[i]).scaled()
                &&& forall|i: int|
                    0 <= i < s.values@.len() ==> (#[trigger] s.values@[i]).scaled()
                        <= s.max.scaled()
            }),
    {
        let vs = match self.get(account) {
            Some(v) => v,
            None => {
                return Err(LedgerError::AccountNotFound);
            },
        };
        proof {
            lemma_map_of_index(self.entries@);
            let i = choose|i: int|
                0 <= i < self.entries@.len() && (#[trigger] self.entries@[i]).account@
                    == account@;
            assert(self@[account@] == self.entries@[i].values@);
            assert(vs@.len() > 0);
        }
        let n = vs.len();
        let mut values: Vec<Quantity> = Vec::new();
        let mut i: usize = 0;
        while i < n
            invariant
                i <= n,
                n == vs@.len(),
                values@ == vs@.take(i as int),
            decreases n - i,
        {
            values.push(vs[i]);
            proof {
                assert(values@ =~= vs@.take(i as int + 1));
            }
            i = i + 1;
        }
        proof {
            assert(values@ =~= vs@);
        }
        let mut mn = values[0];
        let mut mx = values[0];
        let mut j: usize = 1;
        while j < n
            invariant
                1 <= j <= n,
                n == values@.len(),
                forall|k: int| 0 <= k < n ==> (#[trigger] values@[k]).wf(),
                exists|k: int| 0 <= k < j && mn == values@[k],
                exists|k: int| 0 <= k < j && mx == values@[k],
                forall|k: int| 0 <= k < j ==> mn.scaled() <= (#[trigger] values@[k]).scaled(),
                forall|k: int| 0 <= k < j ==> (#[trigger] values@[k]).scaled() <= mx.scaled(),
                mn.wf(),
                mx.wf(),
            decreases n - j,
        {
            let v = values[j];
            if v.le(mn) {
                mn = v;
            }
            if mx.le(v) {
                mx = v;
            }
            j = j + 1;
        }
        Ok(BalanceSeries { values, min: mn, max: mx })
    }
}

impl Default for Accounts {
    /// An empty ledger.
    fn default() -> (r: Accounts)
        ensures
            r.wf(),
            r@ == Map::<Seq<char>, Seq<Quantity>>::empty(),
    {
        Accounts::new()
    }
}

} // verus!
