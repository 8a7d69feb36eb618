//! The domain laws of the aggregation engine, stated over the spec-level
//! ledger model and proved once and for all: what a run of applied
//! transactions does to each account's history.
use vstd::prelude::*;
use crate::quantity::Quantity;
use crate::transaction::{Posting, Transaction};
use crate::resolve::{absent_count, absent_accounts, present_part, running_sub, resolvable,
    resolve_views};
use crate::accounts::{append_one, apply_views};

verus! {

/// An account's sequence in the map, or empty when the account is unseen.
pub open spec fn old_or_empty(m: Map<Seq<char>, Seq<Quantity>>, a: Seq<char>) -> Seq<Quantity> {
    if m.contains_key(a) {
        m[a]
    } else {
        Seq::empty()
    }
}

/// The quantities a resolved sequence appends to one account, in order.
pub open spec fn values_for(rs: Seq<(Seq<char>, Quantity)>, a: Seq<char>) -> Seq<Quantity>
    decreases rs.len(),
{
    if rs.len() == 0 {
        Seq::empty()
    } else if rs.last().0 == a {
        values_for(rs.drop_last(), a).push(rs.last().1)
    } else {
        values_for(rs.drop_last(), a)
    }
}

/// How many postings of a transaction name one account, amount-less ones
/// included.
pub open spec fn account_posting_count(ps: Seq<Posting>, a: Seq<char>) -> int
    decreases ps.len(),
{
    if ps.len() == 0 {
        0
    } else {
        account_posting_count(ps.drop_last(), a) + if ps.last().account@ == a {
            1int
        } else {
            0int
        }
    }
}

/// The amounts of the present postings on one account, in posting order.
pub open spec fn present_amounts_for(ps: Seq<Posting>, a: Seq<char>) -> Seq<Quantity>
    decreases ps.len(),
{
    if ps.len() == 0 {
        Seq::empty()
    } else if ps.last().amount is Some && ps.last().account@ == a {
        present_amounts_for(ps.drop_last(), a).push(ps.last().amount.unwrap())
    } else {
        present_amounts_for(ps.drop_last(), a)
    }
}

/// How many amount-less postings name one account.
pub open spec fn absent_on(ps: Seq<Posting>, a: Seq<char>) -> int
    decreases ps.len(),
{
    if ps.len() == 0 {
        0
    } else {
        absent_on(ps.drop_last(), a) + if ps.last().amount is None && ps.last().account@ == a {
            1int
        } else {
            0int
        }
    }
}

/// The inferred quantity resolution appends to one account: the zero-sum
/// correction when the single amount-less posting names that account.
pub open spec fn inferred_for(ps: Seq<Posting>, a: Seq<char>) -> Seq<Quantity> {
    if absent_count(ps) == 1 && absent_accounts(ps)[0] == a {
        seq![running_sub(ps).unwrap()]
    } else {
        Seq::empty()
    }
}

pub proof fn lemma_values_for_concat(r1: Seq<(Seq<char>, Quantity)>, r2: Seq<(Seq<char>, Quantity)>, a: Seq<char>)
    ensures
        values_for(r1 + r2, a) == values_for(r1, a) + values_for(r2, a),
    decreases r2.len(),
{
    if r2.len() == 0 {
        assert(r1 + r2 =~= r1);
        assert(values_for(r1, a) + values_for(r2, a) =~= values_for(r1, a));
    } else {
        lemma_values_for_concat(r1, r2.drop_last(), a);
        assert((r1 + r2).drop_last() =~= r1 + r2.drop_last());
        assert((r1 + r2).last() == r2.last());
        if r2.last().0 == a {
            assert(values_for(r1, a) + values_for(r2, a) =~= (values_for(r1, a) + values_for(
                r2.drop_last(),
                a,
            )).push(r2.last().1));
        }
    }
}

/// Folding a resolved sequence into the map appends exactly its per-account
/// quantities, in order, to each account's sequence; an account becomes a
/// key exactly when it was one or receives a value.
pub proof fn lemma_apply_views_characterizes(
    m: Map<Seq<char>, Seq<Quantity>>,
    rs: Seq<(Seq<char>, Quantity)>,
    a: Seq<char>,
)
    ensures
        old_or_empty(apply_views(m, rs), a) == old_or_empty(m, a) + values_for(rs, a),
        apply_views(m, rs).contains_key(a) <==> (m.contains_key(a) || values_for(rs, a).len()
            > 0),
    decreases rs.len(),
{
    if rs.len() == 0 {
        assert(old_or_empty(m, a) + values_for(rs, a) =~= old_or_empty(m, a));
    } else {
        let h = seq![rs[0]];
        let tail = rs.drop_first();
        assert(rs =~= h + tail);
        lemma_values_for_concat(h, tail, a);
        assert(h.drop_last() =~= Seq::<(Seq<char>, Quantity)>::empty());
        assert(h.last() == rs[0]);
        assert(values_for(Seq::<(Seq<char>, Quantity)>::empty(), a) == Seq::<Quantity>::empty());
        assert(values_for(h.drop_last(), a) == Seq::<Quantity>::empty());
        let m1 = append_one(m, rs[0].0, rs[0].1);
        lemma_apply_views_characterizes(m1, tail, a);
        if rs[0].0 == a {
            assert(values_for(h, a) =~= Seq::<Quantity>::empty().push(rs[0].1));
            assert(old_or_empty(m1, a) =~= old_or_empty(m, a).push(rs[0].1));
            assert(old_or_empty(m, a) + values_for(rs, a) =~= (old_or_empty(m, a).push(
                rs[0].1,
            )) + values_for(tail, a));
        } else {
            assert(values_for(h, a) =~= Seq::<Quantity>::empty());
            assert(old_or_empty(m1, a) == old_or_empty(m, a));
            assert(old_or_empty(m, a) + values_for(rs, a) =~= old_or_empty(m, a) + values_for(
                tail,
                a,
            ));
        }
    }
}

pub proof fn lemma_values_for_present_part(ps: Seq<Posting>, a: Seq<char>)
    ensures
        values_for(present_part(ps), a) == present_amounts_for(ps, a),
    decreases ps.len(),
{
    if ps.len() > 0 {
        lemma_values_for_present_part(ps.drop_last(), a);
        if ps.last().amount is Some {
            let pair = (ps.last().account@, ps.last().amount.unwrap());
            assert(present_part(ps) == present_part(ps.drop_last()).push(pair));
            assert(present_part(ps).drop_last() =~= present_part(ps.drop_last()));
            assert(present_part(ps).last() == pair);
        }
    }
}

pub proof fn lemma_absent_on_le(ps: Seq<Posting>, a: Seq<char>)
    ensures
        0 <= absent_on(ps, a) <= absent_count(ps),
        present_amounts_for(ps, a).len() + absent_on(ps, a) == account_posting_count(ps, a),
    decreases ps.len(),
{
    if ps.len() > 0 {
        lemma_absent_on_le(ps.drop_last(), a);
    }
}

pub proof fn lemma_absent_on_single(ps: Seq<Posting>, a: Seq<char>)
    requires
        absent_count(ps) == 1,
    ensures
        absent_on(ps, a) == if absent_accounts(ps)[0] == a {
            1int
        } else {
            0int
        },
    decreases ps.len(),
{
    crate::resolve::lemma_absent_basics(ps);
    let dl = ps.drop_last();
    if ps.last().amount is None {
        lemma_absent_on_le(dl, a);
        crate::resolve::lemma_absent_basics(dl);
        assert(absent_accounts(dl) =~= Seq::<Seq<char>>::empty());
        assert(absent_accounts(ps) =~= Seq::<Seq<char>>::empty().push(ps.last().account@));
    } else {
        lemma_absent_on_single(dl, a);
        assert(absent_accounts(ps) == absent_accounts(dl));
    }
}

/// What resolving one transaction appends to one account: the amounts of
/// its present postings on that account, in encounter order, then the
/// inferred zero-sum quantity when the amount-less posting names it.
pub proof fn lemma_resolved_values_for(ps: Seq<Posting>, a: Seq<char>)
    requires
        resolvable(ps),
    ensures
        values_for(resolve_views(ps), a) == present_amounts_for(ps, a) + inferred_for(ps, a),
        values_for(resolve_views(ps), a).len() == account_posting_count(ps, a),
{
    lemma_values_for_present_part(ps, a);
    lemma_absent_on_le(ps, a);
    crate::resolve::lemma_absent_basics(ps);
    if absent_count(ps) == 1 {
        let pair = (absent_accounts(ps)[0], running_sub(ps).unwrap());
        let rv = resolve_views(ps);
        assert(rv == present_part(ps).push(pair));
        assert(rv.drop_last() =~= present_part(ps));
        assert(rv.last() == pair);
        lemma_absent_on_single(ps, a);
        if absent_accounts(ps)[0] == a {
            assert(values_for(rv, a) == values_for(present_part(ps), a).push(pair.1));
            assert(present_amounts_for(ps, a) + inferred_for(ps, a) =~= present_amounts_for(
                ps,
                a,
            ).push(pair.1));
        } else {
            assert(values_for(rv, a) == values_for(present_part(ps), a));
            assert(present_amounts_for(ps, a) + inferred_for(ps, a) =~= present_amounts_for(
                ps,
                a,
            ));
        }
    } else {
        assert(absent_count(ps) == 0);
        assert(inferred_for(ps, a) =~= Seq::<Quantity>::empty());
        assert(present_amounts_for(ps, a) + inferred_for(ps, a) =~= present_amounts_for(ps, a));
    }
}

/// Law: applying a transaction with several postings on the same account
/// appends each as a separate entry, in encounter order, never a merged
/// sum; every other account's history is extended the same way, and no
/// existing entry is removed or reordered.
pub proof fn lemma_duplicate_accounts_append_separately(
    m: Map<Seq<char>, Seq<Quantity>>,
    ps: Seq<Posting>,
    a: Seq<char>,
)
    requires
        resolvable(ps),
    ensures
        old_or_empty(apply_views(m, resolve_views(ps)), a) == old_or_empty(m, a)
            + present_amounts_for(ps, a) + inferred_for(ps, a),
        old_or_empty(apply_views(m, resolve_views(ps)), a).len() == old_or_empty(m, a).len()
            + account_posting_count(ps, a),
{
    lemma_apply_views_characterizes(m, resolve_views(ps), a);
    lemma_resolved_values_for(ps, a);
    assert(old_or_empty(m, a) + (present_amounts_for(ps, a) + inferred_for(ps, a))
        =~= old_or_empty(m, a) + present_amounts_for(ps, a) + inferred_for(ps, a));
}

/// The ledger after a whole run: transactions folded in, first to last.
pub open spec fn apply_all(m: Map<Seq<char>, Seq<Quantity>>, ts: Seq<Transaction>) -> Map<
    Seq<char>,
    Seq<Quantity>,
>
    decreases ts.len(),
{
    if ts.len() == 0 {
        m
    } else {
        apply_all(apply_views(m, resolve_views(ts[0].postings@)), ts.drop_first())
    }
}

/// How many postings across a whole run name one account.
pub open spec fn total_count(ts: Seq<Transaction>, a: Seq<char>) -> int
    decreases ts.len(),
{
    if ts.len() == 0 {
        0
    } else {
        account_posting_count(ts[0].postings@, a) + total_count(ts.drop_first(), a)
    }
}

pub proof fn lemma_total_count_nonneg(ts: Seq<Transaction>, a: Seq<char>)
    ensures
        0 <= total_count(ts, a),
    decreases ts.len(),
{
    if ts.len() > 0 {
        lemma_absent_on_le(ts[0].postings@, a);
        lemma_total_count_nonneg(ts.drop_first(), a);
    }
}

/// Law: append-only growth. After applying a run of transactions, every
/// account's sequence length equals its starting length plus the count of
/// postings across the run that reference it, and the starting sequence is
/// still there, unshortened and unreordered, as a prefix.
pub proof fn lemma_append_only_growth(
    m: Map<Seq<char>, Seq<Quantity>>,
    ts: Seq<Transaction>,
    a: Seq<char>,
)
    requires
        forall|i: int| 0 <= i < ts.len() ==> resolvable((#[trigger] ts[i]).postings@),
    ensures
        old_or_empty(apply_all(m, ts), a).len() == old_or_empty(m, a).len() + total_count(ts, a),
        old_or_empty(apply_all(m, ts), a).take(old_or_empty(m, a).len() as int) == old_or_empty(
            m,
            a,
        ),
    decreases ts.len(),
{
    if ts.len() == 0 {
        assert(old_or_empty(m, a).take(old_or_empty(m, a).len() as int) =~= old_or_empty(m, a));
    } else {
        let ps = ts[0].postings@;
        lemma_duplicate_accounts_append_separately(m, ps, a);
        let m1 = apply_views(m, resolve_views(ps));
        let tail = ts.drop_first();
        assert forall|i: int| 0 <= i < tail.len() implies resolvable(
            (#[trigger] tail[i]).postings@,
        ) by {
            assert(tail[i] == ts[i + 1]);
        }
        lemma_append_only_growth(m1, tail, a);
        lemma_absent_on_le(ps, a);
        lemma_total_count_nonneg(tail, a);
        let base = old_or_empty(m, a);
        let s1 = old_or_empty(m1, a);
        let sf = old_or_empty(apply_all(m, ts), a);
        assert(sf.take(s1.len() as int) == s1);
        assert(base.len() <= s1.len() <= sf.len());
        assert forall|k: int| 0 <= k < base.len() implies sf.take(base.len() as int)[k]
            == base[k] by {
            assert(sf.take(s1.len() as int)[k] == s1[k]);
            assert(sf.take(s1.len() as int)[k] == sf[k]);
            assert(s1[k] == base[k]);
            assert(sf.take(base.len() as int)[k] == sf[k]);
        }
        assert(sf.take(base.len() as int) =~= base);
    }
}

} // verus!
